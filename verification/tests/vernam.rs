use classical_ciphers::error::ErrorKind;
use classical_ciphers::vernam_cipher::{decrypt, encrypt, is_valid_key, validate_key};

#[test]
fn vernam_cipher_vernam_cipher_encrypt_test() {
    assert_eq!("DSPXIK".to_string(), encrypt("SECRET", "LONGER").unwrap());
}

#[test]
fn vernam_cipher_vernam_cipher_decrypt_test() {
    assert_eq!("SECRET".to_string(), decrypt("DSPXIK", "LONGER").unwrap());
}

#[test]
fn mod_vernam_cipher_encrypt_test() {
    assert_eq!("DSPXIK".to_string(), encrypt("SECRET", "LONGER").unwrap());
}

#[test]
fn mod_vernam_cipher_decrypt_test() {
    assert_eq!("SECRET".to_string(), decrypt("DSPXIK", "LONGER").unwrap());
}

#[test]
fn vernam_rejects_key_with_fewer_letters() {
    assert_eq!(
        ErrorKind::InvalidVernamKey,
        *encrypt("SECRET", "SHORT").unwrap_err().kind()
    );
    assert_eq!(
        ErrorKind::InvalidVernamKey,
        *decrypt("SECRET", "SHORT").unwrap_err().kind()
    );
    assert_eq!(
        ErrorKind::InvalidVernamKey,
        *validate_key("SECRET", "").unwrap_err().kind()
    );
    assert!(!is_valid_key("SECRET", "SHORT"));
}

#[test]
fn vernam_rejects_key_with_more_letters() {
    assert!(encrypt("SECRET", "LONGEST").is_err());
    assert!(decrypt("SECRET", "LONGEST").is_err());
    assert!(encrypt("", "A").is_err());
    assert!(!is_valid_key("SECRET", "LONGEST"));
    assert!(!is_valid_key("SECRET", "123456"));
}

#[test]
fn vernam_counts_letters_only() {
    assert!(is_valid_key("SECRET", "LONGER"));
    assert!(is_valid_key("S E C R E T !", "longer"));
    assert!(is_valid_key("12", ""));
    assert_eq!("l-o-n-g-e-r", validate_key("SECRET", "l-o-n-g-e-r").unwrap());
    assert_eq!(
        "DSPXIK".to_string(),
        encrypt("se cr et.", "L1O2N3G4E5R").unwrap()
    );
    assert_eq!(
        "SECRET".to_string(),
        decrypt("ds-px-ik", "  longer  ").unwrap()
    );
    assert_eq!("".to_string(), encrypt("1 2 3", "...").unwrap());
    assert_eq!("".to_string(), decrypt("", "").unwrap());
}

#[test]
fn vernam_wraps_round_the_alphabet() {
    assert_eq!("AYZ".to_string(), encrypt("ZZA", "BZZ").unwrap());
    assert_eq!("ZZA".to_string(), decrypt("AYZ", "BZZ").unwrap());
    assert_eq!("ABC".to_string(), encrypt("ABC", "AAA").unwrap());
    assert_eq!("ABC".to_string(), decrypt("ABC", "AAA").unwrap());
}

#[test]
fn vernam_round_trip() {
    let text = "The quick brown fox jumps over the lazy dog.";
    let key = "Pack my box with five dozen liquor jugs now";
    let cipher = encrypt(text, key).unwrap();
    assert_eq!(35, cipher.len());
    assert_eq!(
        "THEQUICKBROWNFOXJUMPSOVERTHELAZYDOG".to_string(),
        decrypt(&cipher, key).unwrap()
    );
}
