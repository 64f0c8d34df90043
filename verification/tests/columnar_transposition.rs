use classical_ciphers::columnar_transposition_cipher::{
    decrypt, encrypt, validate_decryption_key, validate_encryption_key,
};
use classical_ciphers::error::ErrorKind;

#[test]
fn columnar_transposition_encrypt_test() {
    assert_eq!("ETSERC".to_string(), encrypt("SECRET", "2143").unwrap());
}

#[test]
fn columnar_transposition_decrypt_test() {
    assert_eq!("SECRET".to_string(), decrypt("ETSERC", "2143").unwrap());
}

#[test]
fn columnar_rejects_repeated_digit() {
    assert_eq!(
        ErrorKind::InvalidColumnarTranspositionKey,
        *encrypt("SECRET", "2243").unwrap_err().kind()
    );
    assert_eq!(
        ErrorKind::InvalidColumnarTranspositionKey,
        *decrypt("SECRET", "2243").unwrap_err().kind()
    );
    assert!(validate_encryption_key("2243").is_err());
    assert!(validate_decryption_key("2243").is_err());
}

#[test]
fn columnar_rejects_digit_out_of_range() {
    assert!(encrypt("SECRET", "2153").is_err());
    assert!(encrypt("SECRET", "0123").is_err());
    assert!(encrypt("SECRET", "0").is_err());
    assert!(encrypt("SECRET", "2").is_err());
    assert!(decrypt("SECRET", "312a").is_err());
    assert!(decrypt("SECRET", "1 2").is_err());
    assert!(decrypt("SECRET", "12345678910").is_err());
    assert!(decrypt("SECRET", "\u{661}").is_err());
}

#[test]
fn columnar_encryption_key_is_sorted_by_digit() {
    assert_eq!(vec![1, 0, 3, 2], validate_encryption_key("2143").unwrap());
    assert_eq!(vec![1, 2, 0], validate_encryption_key("312").unwrap());
    assert_eq!(vec![0], validate_encryption_key("1").unwrap());
    assert_eq!(Vec::<usize>::new(), validate_encryption_key("").unwrap());
}

#[test]
fn columnar_decryption_key_is_digits_less_one() {
    assert_eq!(vec![1, 0, 3, 2], validate_decryption_key("2143").unwrap());
    assert_eq!(vec![2, 0, 1], validate_decryption_key("312").unwrap());
    assert_eq!(
        vec![8, 7, 6, 5, 4, 3, 2, 1, 0],
        validate_decryption_key("987654321").unwrap()
    );
}

#[test]
fn columnar_key_that_is_no_involution() {
    assert_eq!("CFADBE".to_string(), encrypt("ABCDEF", "312").unwrap());
    assert_eq!("ABCDEF".to_string(), decrypt("CFADBE", "312").unwrap());
    assert_eq!("CFADGBE".to_string(), encrypt("ABCDEFG", "312").unwrap());
    assert_eq!("ABCDEFG".to_string(), decrypt("CFADGBE", "312").unwrap());
}

#[test]
fn columnar_single_column_and_no_column() {
    assert_eq!("SECRET".to_string(), encrypt("SECRET", "1").unwrap());
    assert_eq!("SECRET".to_string(), decrypt("SECRET", "1").unwrap());
    assert_eq!("SECRET".to_string(), encrypt("SECRET", "").unwrap());
    assert_eq!("SECRET".to_string(), decrypt("SECRET", "").unwrap());
}

#[test]
fn columnar_text_shorter_than_key() {
    assert_eq!("BA".to_string(), encrypt("AB", "2143").unwrap());
    assert_eq!("AB".to_string(), decrypt("BA", "2143").unwrap());
    assert_eq!("".to_string(), encrypt("", "2143").unwrap());
    assert_eq!("".to_string(), decrypt("", "2143").unwrap());
}

#[test]
fn columnar_leaves_padding_characters_out() {
    assert_eq!("BA".to_string(), encrypt("A\0B", "312").unwrap());
    assert_eq!("AB".to_string(), encrypt("A\0B", "1").unwrap());
    assert_eq!("A\0B".to_string(), encrypt("A\0B", "").unwrap());
}

#[test]
fn columnar_moves_whole_characters() {
    assert_eq!(
        "\u{4e2d}a\u{e9}".to_string(),
        encrypt("a\u{e9}\u{4e2d}", "312").unwrap()
    );
    assert_eq!(
        "a\u{e9}\u{4e2d}".to_string(),
        decrypt("\u{4e2d}a\u{e9}", "312").unwrap()
    );
}

#[test]
fn columnar_round_trip() {
    let keys = ["1", "21", "312", "2143", "35142", "987654321", "123456789"];
    let text = "THE QUICK BROWN FOX JUMPS OVER THE LAZY DOG";
    for key in keys {
        let mut len = 0;
        while len <= text.len() {
            let plain = &text[..len];
            let cipher = encrypt(plain, key).unwrap();
            assert_eq!(plain.len(), cipher.len());
            assert_eq!(plain.to_string(), decrypt(&cipher, key).unwrap());
            len += 1;
        }
    }
}
