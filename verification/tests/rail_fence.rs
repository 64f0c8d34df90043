use classical_ciphers::error::ErrorKind;
use classical_ciphers::rail_fence_cipher::{decrypt, encrypt, generate_sequence, validate_key};

#[test]
fn rail_fence_encrypt_test() {
    assert_eq!("SEERTC".to_string(), encrypt("SECRET", 3).unwrap());
}

#[test]
fn rail_fence_decrypt_test() {
    assert_eq!("SECRET".to_string(), decrypt("SEERTC", 3).unwrap());
}

#[test]
fn rail_fence_rejects_one_rail() {
    assert_eq!(
        ErrorKind::InvalidRailFenceKey,
        *encrypt("SECRET", 1).unwrap_err().kind()
    );
    assert_eq!(
        ErrorKind::InvalidRailFenceKey,
        *decrypt("SECRET", 1).unwrap_err().kind()
    );
    assert_eq!(
        ErrorKind::InvalidRailFenceKey,
        *validate_key(1).unwrap_err().kind()
    );
}

#[test]
fn rail_fence_rejects_no_rail() {
    assert_eq!(
        ErrorKind::InvalidRailFenceKey,
        *encrypt("SECRET", 0).unwrap_err().kind()
    );
    assert_eq!(
        ErrorKind::InvalidRailFenceKey,
        *decrypt("SECRET", 0).unwrap_err().kind()
    );
    assert!(validate_key(0).is_err());
    assert_eq!(2, validate_key(2).unwrap());
}

#[test]
fn rail_fence_sequence_bounces() {
    assert_eq!(vec![0, 1, 2, 1, 0, 1], generate_sequence(6, 3));
    assert_eq!(vec![0, 1, 0, 1, 0], generate_sequence(5, 2));
    assert_eq!(
        vec![0, 1, 2, 3, 2, 1, 0, 1, 2, 3, 2, 1, 0],
        generate_sequence(13, 4)
    );
    assert_eq!(vec![0, 1, 2], generate_sequence(3, 10));
    assert_eq!(Vec::<usize>::new(), generate_sequence(0, 3));
    assert_eq!(vec![0, 0, 0], generate_sequence(3, 1));
    assert_eq!(vec![0, 0], generate_sequence(2, 0));
}

#[test]
fn rail_fence_as_many_rails_as_characters() {
    assert_eq!("SECRET".to_string(), encrypt("SECRET", 6).unwrap());
    assert_eq!("SECRET".to_string(), decrypt("SECRET", 6).unwrap());
}

#[test]
fn rail_fence_more_rails_than_characters() {
    assert_eq!("SECRET".to_string(), encrypt("SECRET", 7).unwrap());
    assert_eq!("SECRET".to_string(), decrypt("SECRET", 7).unwrap());
    assert_eq!("SECRET".to_string(), encrypt("SECRET", usize::MAX).unwrap());
    assert_eq!("SECRET".to_string(), decrypt("SECRET", usize::MAX).unwrap());
    assert_eq!("".to_string(), encrypt("", 2).unwrap());
    assert_eq!("".to_string(), decrypt("", 2).unwrap());
}

#[test]
fn rail_fence_two_rails() {
    assert_eq!("SCEERT".to_string(), encrypt("SECRET", 2).unwrap());
    assert_eq!("SECRET".to_string(), decrypt("SCEERT", 2).unwrap());
}

#[test]
fn rail_fence_one_rail_less_than_characters() {
    assert_eq!("SECRTE".to_string(), encrypt("SECRET", 5).unwrap());
    assert_eq!("SECRET".to_string(), decrypt("SECRTE", 5).unwrap());
}

#[test]
fn rail_fence_keeps_every_character() {
    assert_eq!(
        "WECRUOERDSOEERNTNEAIVDAC".to_string(),
        encrypt("WEAREDISCOVEREDRUNATONCE", 3).unwrap()
    );
    assert_eq!(
        "acb\u{4e2d}\u{1} ,".to_string(),
        encrypt("ab \u{4e2d}c\u{1},", 3).unwrap()
    );
    assert_eq!(
        "ab \u{4e2d}c\u{1},".to_string(),
        decrypt("acb\u{4e2d}\u{1} ,", 3).unwrap()
    );
}

#[test]
fn rail_fence_round_trip() {
    let text = "The quick brown fox jumps over the lazy dog.";
    let mut rails = 2;
    while rails <= text.len() + 2 {
        let mut len = 0;
        while len <= text.len() {
            let plain = &text[..len];
            let cipher = encrypt(plain, rails).unwrap();
            assert_eq!(plain.to_string(), decrypt(&cipher, rails).unwrap());
            len += 1;
        }
        rails += 1;
    }
}
