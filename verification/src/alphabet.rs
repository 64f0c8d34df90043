//! The alphabet that the ciphers work on: the 26 letters `A` to `Z`, each with its
//! position from 0 to 25. A lower-case letter counts as its upper-case form.

use vstd::prelude::*;

verus! {

/// The alphabet: the 26 upper-case letters, each at its position.
pub const ALPHABET: &'static str = "ABCDEFGHIJKLMNOPQRSTUVWXYZ";

/// Whether `c` is one of the 26 upper-case letters `A` to `Z`.
pub open spec fn is_upper(c: char) -> bool {
    'A' <= c && c <= 'Z'
}

/// Whether `c` is one of the 26 lower-case letters `a` to `z`.
pub open spec fn is_lower(c: char) -> bool {
    'a' <= c && c <= 'z'
}

/// Whether `c` is a letter of the alphabet, in either case.
pub open spec fn is_letter(c: char) -> bool {
    is_upper(c) || is_lower(c)
}

/// `c` with a lower-case letter folded to its upper-case form; any other character
/// is left as it is.
pub open spec fn to_upper(c: char) -> char {
    if is_lower(c) {
        (c as int - 32) as char
    } else {
        c
    }
}

/// Position of the letter `c` in the alphabet, whatever its case: 0 for `A`, 25 for `Z`.
pub open spec fn letter_position(c: char) -> int
    recommends
        is_letter(c),
{
    to_upper(c) as int - 'A' as int
}

/// The upper-case letter at position `p` of the alphabet.
pub open spec fn letter_at(p: int) -> char
    recommends
        0 <= p < 26,
{
    ('A' as int + p) as char
}

/// `text` with every letter in upper case.
pub open spec fn uppercased(text: Seq<char>) -> Seq<char> {
    Seq::new(text.len(), |i: int| to_upper(text[i]))
}

/// The positions in the alphabet of the letters of `text`, in order. Characters that
/// are no letters are left out.
pub open spec fn letter_positions(text: Seq<char>) -> Seq<int>
    decreases text.len(),
{
    if text.len() == 0 {
        Seq::empty()
    } else if is_letter(text.last()) {
        letter_positions(text.drop_last()).push(letter_position(text.last()))
    } else {
        letter_positions(text.drop_last())
    }
}

/// `text` reduced to its letters, in upper case.
pub open spec fn letters_of(text: Seq<char>) -> Seq<char> {
    Seq::new(letter_positions(text).len(), |i: int| letter_at(letter_positions(text)[i]))
}

/// The alphabet holds 26 letters, and the letter at each position is the one that
/// `letter_at` gives for it.
pub proof fn lemma_alphabet()
    ensures
        ALPHABET@.len() == 26,
        forall|p: int| 0 <= p < 26 ==> ALPHABET@[p] == letter_at(p),
{
    reveal_strlit("ABCDEFGHIJKLMNOPQRSTUVWXYZ");
}

/// Letters and positions are two readings of the same bijection: each position from 0
/// to 25 has its upper-case letter, and each letter, in either case, its position.
pub proof fn lemma_letter_bijection()
    ensures
        forall|p: int|
            0 <= p < 26 ==> is_upper(#[trigger] letter_at(p)) && letter_position(letter_at(p)) == p,
        forall|c: char|
            is_letter(c) ==> 0 <= #[trigger] letter_position(c) < 26 && letter_at(
                letter_position(c),
            ) == to_upper(c),
        forall|c: char| is_letter(c) ==> is_upper(#[trigger] to_upper(c)),
        forall|c: char| !is_letter(c) ==> #[trigger] to_upper(c) == c,
{
}

/// A text holds at most as many letters as characters, and each letter has a position
/// from 0 to 25.
pub proof fn lemma_letter_positions(text: Seq<char>)
    ensures
        letter_positions(text).len() <= text.len(),
        forall|i: int|
            0 <= i < letter_positions(text).len() ==> 0 <= #[trigger] letter_positions(text)[i] < 26,
    decreases text.len(),
{
    if text.len() > 0 {
        lemma_letter_positions(text.drop_last());
        lemma_letter_bijection();
    }
}

/// `c` in upper case where it is a lower-case letter, else `c` itself.
pub fn upper(c: char) -> (u: char)
    ensures
        u == to_upper(c),
{
    if 'a' <= c && c <= 'z' {
        ((c as u8) - 32u8) as char
    } else {
        c
    }
}

/// Position of `c` in the alphabet, or `None` where `c` is no letter.
pub fn position_of(c: char) -> (r: Option<usize>)
    ensures
        is_letter(c) ==> r == Some(letter_position(c) as usize) && 0 <= letter_position(c) < 26,
        !is_letter(c) ==> r is None,
{
    if 'A' <= c && c <= 'Z' {
        Some((c as u32 - 'A' as u32) as usize)
    } else if 'a' <= c && c <= 'z' {
        Some((c as u32 - 'a' as u32) as usize)
    } else {
        None
    }
}

/// The upper-case letter at position `p` of the alphabet.
pub fn letter(p: usize) -> (c: char)
    requires
        p < 26,
    ensures
        c == letter_at(p as int),
        is_upper(c),
{
    proof {
        lemma_alphabet();
    }
    ALPHABET.get_char(p)
}

/// The positions in the alphabet of the letters of `text`, in order.
pub fn positions_of_letters(text: &Vec<char>) -> (positions: Vec<usize>)
    ensures
        positions@.len() == letter_positions(text@).len(),
        forall|i: int|
            0 <= i < positions@.len() ==> #[trigger] positions@[i] == letter_positions(text@)[i]
                && positions@[i] < 26,
{
    let mut positions: Vec<usize> = Vec::new();
    let mut i: usize = 0;
    while i < text.len()
        invariant
            i <= text@.len(),
            positions@.len() == letter_positions(text@.take(i as int)).len(),
            forall|j: int|
                0 <= j < positions@.len() ==> #[trigger] positions@[j] == letter_positions(
                    text@.take(i as int),
                )[j] && positions@[j] < 26,
        decreases text@.len() - i,
    {
        assert(text@.take(i as int + 1).drop_last() =~= text@.take(i as int));
        match position_of(text[i]) {
            Some(p) => {
                positions.push(p);
            },
            None => {},
        }
        i += 1;
    }
    assert(text@.take(text@.len() as int) =~= text@);
    positions
}

} // verus!
