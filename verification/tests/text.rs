use classical_ciphers::text::{chars_of, string_of};

#[test]
fn text_to_characters_and_back() {
    assert_eq!(vec!['a', '\u{e9}', '\u{4e2d}', '!'], chars_of("a\u{e9}\u{4e2d}!"));
    assert_eq!(Vec::<char>::new(), chars_of(""));
    assert_eq!(
        "a\u{e9}\u{4e2d}!".to_string(),
        string_of(&vec!['a', '\u{e9}', '\u{4e2d}', '!'])
    );
    assert_eq!("".to_string(), string_of(&Vec::new()));
}
