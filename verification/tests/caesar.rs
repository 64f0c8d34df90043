use classical_ciphers::caesar_cipher::{decrypt, encrypt, validate_key};
use classical_ciphers::error::ErrorKind;

#[test]
fn caesar_cipher_caesar_cipher_encrypt_test() {
    assert_eq!(
        "VHFUHW WHAW.".to_string(),
        encrypt("SECRET TEXT.", 3).unwrap()
    );
}

#[test]
fn caesar_cipher_caesar_cipher_decrypt_test() {
    assert_eq!(
        "SECRET TEXT.".to_string(),
        decrypt("VHFUHW WHAW.", 3).unwrap()
    );
}

#[test]
fn mod_caesar_cipher_encrypt_test() {
    assert_eq!("VHFUHW".to_string(), encrypt("SECRET", 3).unwrap());
}

#[test]
fn mod_caesar_cipher_decrypt_test() {
    assert_eq!("SECRET".to_string(), decrypt("VHFUHW", 3).unwrap());
}

#[test]
fn caesar_rejects_shift_zero() {
    assert_eq!(
        ErrorKind::InvalidCaesarKey,
        *encrypt("SECRET", 0).unwrap_err().kind()
    );
    assert_eq!(
        ErrorKind::InvalidCaesarKey,
        *decrypt("SECRET", 0).unwrap_err().kind()
    );
}

#[test]
fn caesar_rejects_shift_twenty_six() {
    assert_eq!(
        ErrorKind::InvalidCaesarKey,
        *encrypt("SECRET", 26).unwrap_err().kind()
    );
    assert_eq!(
        ErrorKind::InvalidCaesarKey,
        *decrypt("SECRET", 26).unwrap_err().kind()
    );
    assert!(encrypt("", usize::MAX).is_err());
}

#[test]
fn caesar_validate_key_range() {
    assert_eq!(1, validate_key(1).unwrap());
    assert_eq!(25, validate_key(25).unwrap());
    assert_eq!(
        ErrorKind::InvalidCaesarKey,
        *validate_key(0).unwrap_err().kind()
    );
    assert_eq!(
        ErrorKind::InvalidCaesarKey,
        *validate_key(26).unwrap_err().kind()
    );
}

#[test]
fn caesar_smallest_shift() {
    assert_eq!("BCD XYZA".to_string(), encrypt("ABC WXYZ", 1).unwrap());
    assert_eq!("ABC WXYZ".to_string(), decrypt("BCD XYZA", 1).unwrap());
}

#[test]
fn caesar_largest_shift() {
    assert_eq!("ZAB VWXY".to_string(), encrypt("ABC WXYZ", 25).unwrap());
    assert_eq!("ABC WXYZ".to_string(), decrypt("ZAB VWXY", 25).unwrap());
}

#[test]
fn caesar_wraps_round_the_alphabet() {
    assert_eq!("ABC".to_string(), encrypt("XYZ", 3).unwrap());
    assert_eq!("XYZ".to_string(), decrypt("ABC", 3).unwrap());
}

#[test]
fn caesar_folds_lower_case_to_upper_case() {
    assert_eq!("VHFUHW".to_string(), encrypt("secret", 3).unwrap());
    assert_eq!("SECRET".to_string(), decrypt("vhfuhw", 3).unwrap());
}

#[test]
fn caesar_keeps_what_is_no_letter() {
    assert_eq!(
        "1, 2! \u{e9}\u{4e2d} [`{@".to_string(),
        encrypt("1, 2! \u{e9}\u{4e2d} [`{@", 7).unwrap()
    );
    assert_eq!("".to_string(), encrypt("", 7).unwrap());
    assert_eq!("".to_string(), decrypt("", 7).unwrap());
}

#[test]
fn caesar_round_trip_gives_upper_case() {
    let text = "The quick brown fox, 42 times!";
    let mut key = 1;
    while key <= 25 {
        let cipher = encrypt(text, key).unwrap();
        assert_eq!(text.to_uppercase(), decrypt(&cipher, key).unwrap());
        key += 1;
    }
}
