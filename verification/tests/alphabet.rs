use classical_ciphers::alphabet::{letter, position_of, positions_of_letters, upper, ALPHABET};

#[test]
fn alphabet_holds_26_letters_in_order() {
    assert_eq!("ABCDEFGHIJKLMNOPQRSTUVWXYZ", ALPHABET);
    let mut p = 0;
    for c in ALPHABET.chars() {
        assert_eq!(c, letter(p));
        assert_eq!(Some(p), position_of(c));
        assert_eq!(Some(p), position_of(c.to_ascii_lowercase()));
        p += 1;
    }
    assert_eq!(26, p);
}

#[test]
fn alphabet_positions() {
    assert_eq!(Some(0), position_of('A'));
    assert_eq!(Some(0), position_of('a'));
    assert_eq!(Some(25), position_of('Z'));
    assert_eq!(Some(25), position_of('z'));
    assert_eq!(Some(18), position_of('S'));
    assert_eq!(None, position_of('@'));
    assert_eq!(None, position_of('['));
    assert_eq!(None, position_of('`'));
    assert_eq!(None, position_of('{'));
    assert_eq!(None, position_of('\u{e9}'));
    assert_eq!('A', letter(0));
    assert_eq!('S', letter(18));
    assert_eq!('Z', letter(25));
}

#[test]
fn alphabet_upper_case() {
    assert_eq!('A', upper('a'));
    assert_eq!('Z', upper('z'));
    assert_eq!('Q', upper('Q'));
    assert_eq!('1', upper('1'));
    assert_eq!('{', upper('{'));
    assert_eq!('\u{e9}', upper('\u{e9}'));
}

#[test]
fn alphabet_positions_of_letters() {
    assert_eq!(
        vec![18, 4, 2, 17, 4, 19],
        positions_of_letters(&vec!['s', 'E', ' ', 'c', 'R', '1', 'e', 't', '.'])
    );
    assert_eq!(Vec::<usize>::new(), positions_of_letters(&vec!['1', ' ']));
}
