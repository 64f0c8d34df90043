use classical_ciphers::error::ErrorKind;
use classical_ciphers::mono_alphabetic_cipher::{
    decrypt, encrypt, validate_decryption_key, validate_encryption_key,
};

#[test]
fn mono_alphabetic_cipher_encrypt_test() {
    assert_eq!(
        "LTEKTM".to_string(),
        encrypt("SECRET", "AZERTYUIOPQSDFGHJKLMWXCVBN").unwrap(),
    );
}

#[test]
fn mono_alphabetic_cipher_decrypt_test() {
    assert_eq!(
        "SECRET".to_string(),
        decrypt("LTEKTM", "AZERTYUIOPQSDFGHJKLMWXCVBN").unwrap(),
    );
}

#[test]
fn mono_alphabetic_rejects_key_missing_a_letter() {
    assert_eq!(
        ErrorKind::InvalidMonoAlphabeticKey,
        *encrypt("SECRET", "AZERTYUIOPQSDFGHJKLMWXCVB")
            .unwrap_err()
            .kind()
    );
    assert_eq!(
        ErrorKind::InvalidMonoAlphabeticKey,
        *decrypt("SECRET", "AZERTYUIOPQSDFGHJKLMWXCVB")
            .unwrap_err()
            .kind()
    );
    assert!(encrypt("SECRET", "").is_err());
    assert!(validate_encryption_key("ABC").is_err());
    assert!(validate_decryption_key("ABC").is_err());
}

#[test]
fn mono_alphabetic_rejects_key_with_25_distinct_letters() {
    assert!(encrypt("SECRET", "AZERTYUIOPQSDFGHJKLMWXCVBA").is_err());
    assert!(decrypt("SECRET", "AZERTYUIOPQSDFGHJKLMWXCVBA").is_err());
    assert!(encrypt("SECRET", "AZERTYUIOPQSDFGHJKLMWXCVB1").is_err());
    assert!(encrypt("SECRET", "aAbBcCdDeEfFgGhHiIjJkKlLmM").is_err());
}

#[test]
fn mono_alphabetic_accepts_letters_in_either_case() {
    assert!(validate_encryption_key("abcdefghijklmnopqrstuvwxyz").is_ok());
    assert!(validate_encryption_key("aBcDeFgHiJkLmNoPqRsTuVwXyZ").is_ok());
    assert!(validate_decryption_key("the quick brown fox jumps over the lazy dog").is_ok());
}

#[test]
fn mono_alphabetic_encryption_table() {
    let table = validate_encryption_key("AZERTYUIOPQSDFGHJKLMWXCVBN").unwrap();
    assert_eq!(Some('A'), table.get('A'));
    assert_eq!(Some('Z'), table.get('B'));
    assert_eq!(Some('L'), table.get('S'));
    assert_eq!(Some('N'), table.get('Z'));
    assert_eq!(None, table.get('a'));
    assert_eq!(None, table.get(' '));
}

#[test]
fn mono_alphabetic_decryption_table() {
    let table = validate_decryption_key("AZERTYUIOPQSDFGHJKLMWXCVBN").unwrap();
    assert_eq!(Some('A'), table.get('A'));
    assert_eq!(Some('B'), table.get('Z'));
    assert_eq!(Some('S'), table.get('L'));
    assert_eq!(Some('Z'), table.get('N'));
    assert_eq!(None, table.get('z'));
    assert_eq!(None, table.get('.'));
}

#[test]
fn mono_alphabetic_leaves_out_what_is_no_letter() {
    assert_eq!(
        "LTEKTMMTVM".to_string(),
        encrypt("Secret text, 1!", "AZERTYUIOPQSDFGHJKLMWXCVBN").unwrap()
    );
    assert_eq!(
        "SECRETTEXT".to_string(),
        decrypt("ltektm mtvm.", "AZERTYUIOPQSDFGHJKLMWXCVBN").unwrap()
    );
    assert_eq!(
        "".to_string(),
        encrypt("", "AZERTYUIOPQSDFGHJKLMWXCVBN").unwrap()
    );
}

#[test]
fn mono_alphabetic_uses_the_first_26_characters_of_a_long_key() {
    let key = "AABCDEFGHIJKLMNOPQRSTUVWXYZ";
    assert_eq!("AABY".to_string(), encrypt("ABCZ", key).unwrap());
    assert_eq!("BCZ".to_string(), decrypt("ABYZ", key).unwrap());
}

#[test]
fn mono_alphabetic_gives_key_characters_as_they_are() {
    let key = "abcdefghijklmnopqrstuvwxyz";
    assert_eq!("secret".to_string(), encrypt("SECRET", key).unwrap());
    assert_eq!("".to_string(), decrypt("secret", key).unwrap());
    let key = "1 ABCDEFGHIJKLMNOPQRSTUVWXYZ";
    assert_eq!("1 AQ".to_string(), encrypt("abcs", key).unwrap());
    assert_eq!("ABCS".to_string(), decrypt("1 AQ", key).unwrap());
}

#[test]
fn mono_alphabetic_round_trip() {
    let keys = [
        "AZERTYUIOPQSDFGHJKLMWXCVBN",
        "ZYXWVUTSRQPONMLKJIHGFEDCBA",
        "ABCDEFGHIJKLMNOPQRSTUVWXYZ",
        "QWERTYUIOPASDFGHJKLZXCVBNM and more",
    ];
    for key in keys {
        let cipher = encrypt("The quick brown fox jumps over the lazy dog.", key).unwrap();
        assert_eq!(
            "THEQUICKBROWNFOXJUMPSOVERTHELAZYDOG".to_string(),
            decrypt(&cipher, key).unwrap()
        );
    }
}
