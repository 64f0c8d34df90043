//! Vernam cipher with a running key: the letters of the text and the letters of the
//! key are paired off, and each letter of the text is moved in the alphabet by the
//! position of its partner. What is no letter is left out of the result.

use vstd::prelude::*;
use crate::alphabet::{
    is_letter, is_upper, lemma_letter_bijection, lemma_letter_positions, letter, letter_at,
    letter_positions, letters_of, positions_of_letters,
};
use crate::error::{Error, ErrorKind};
use crate::text::{chars_of, string_of};

verus! {

/// A key is valid for a text when it holds as many letters as the text does. What
/// else the two hold, and how long they are, does not count.
pub open spec fn valid_key(text: Seq<char>, key: Seq<char>) -> bool {
    letter_positions(key).len() == letter_positions(text).len()
}

/// The ciphertext of `text` under `key`: the letters of the text, each moved forward
/// in the alphabet by the position of the letter of the key that goes with it,
/// wrapping round after `Z`. Characters that are no letters are left out.
pub open spec fn ciphertext_of(text: Seq<char>, key: Seq<char>) -> Seq<char> {
    Seq::new(
        letter_positions(text).len(),
        |i: int| letter_at((letter_positions(key)[i] + letter_positions(text)[i]) % 26),
    )
}

/// The plaintext of `text` under `key`: the letters of the text, each moved backward
/// in the alphabet by the position of the letter of the key that goes with it,
/// wrapping round before `A`. Characters that are no letters are left out.
pub open spec fn plaintext_of(text: Seq<char>, key: Seq<char>) -> Seq<char> {
    Seq::new(
        letter_positions(text).len(),
        |i: int| letter_at((letter_positions(text)[i] - letter_positions(key)[i] + 26) % 26),
    )
}

/// What was encrypted under a valid key is as long in letters as the text, so the
/// same key is valid for it; and decrypting it under that key gives back the letters
/// of the text, in upper case.
pub proof fn lemma_decrypt_inverts_encrypt(text: Seq<char>, key: Seq<char>)
    requires
        valid_key(text, key),
    ensures
        valid_key(ciphertext_of(text, key), key),
        plaintext_of(ciphertext_of(text, key), key) == letters_of(text),
{
    let t = letter_positions(text);
    let k = letter_positions(key);
    lemma_letter_positions(text);
    lemma_letter_positions(key);
    let sums = Seq::new(t.len(), |i: int| (k[i] + t[i]) % 26);
    let cipher = ciphertext_of(text, key);
    assert(cipher =~= Seq::new(sums.len(), |i: int| letter_at(sums[i])));
    lemma_positions_of_letters(sums);
    assert(letter_positions(cipher) == sums);
    assert forall|i: int| 0 <= i < t.len() implies (sums[i] - k[i] + 26) % 26 == t[i] by {
        assert(0 <= t[i] < 26 && 0 <= k[i] < 26);
    }
    assert(plaintext_of(cipher, key) =~= letters_of(text));
}

/// Whether `key` holds as many letters as `plaintext`.
pub fn is_valid_key(plaintext: &str, key: &str) -> (b: bool)
    ensures
        b == valid_key(plaintext@, key@),
{
    let text_letters = positions_of_letters(&chars_of(plaintext));
    let key_letters = positions_of_letters(&chars_of(key));
    text_letters.len() == key_letters.len()
}

/// Hands `key` back where it holds as many letters as `input`, and refuses it where
/// it does not.
pub fn validate_key<'a>(input: &str, key: &'a str) -> (r: Result<&'a str, Error>)
    ensures
        valid_key(input@, key@) ==> (r matches Ok(k) && k@ == key@),
        !valid_key(input@, key@) ==> (r matches Err(e) && e@ == ErrorKind::InvalidVernamKey),
{
    if is_valid_key(input, key) {
        Ok(key)
    } else {
        Err(Error::new(ErrorKind::InvalidVernamKey))
    }
}

/// Encrypts the letters of `plaintext` with the letters of `key`, one for one. A key
/// with more or fewer letters than the text is refused.
pub fn encrypt(plaintext: &str, key: &str) -> (r: Result<String, Error>)
    ensures
        valid_key(plaintext@, key@) ==> (r matches Ok(s) && s@ == ciphertext_of(plaintext@, key@)),
        !valid_key(plaintext@, key@) ==> (r matches Err(e) && e@ == ErrorKind::InvalidVernamKey),
{
    let key = match validate_key(plaintext, key) {
        Ok(key) => key,
        Err(e) => {
            return Err(e);
        },
    };
    let text_letters = positions_of_letters(&chars_of(plaintext));
    let key_letters = positions_of_letters(&chars_of(key));
    let mut out: Vec<char> = Vec::new();
    let mut i: usize = 0;
    while i < text_letters.len()
        invariant
            i <= text_letters@.len(),
            text_letters@.len() == letter_positions(plaintext@).len(),
            key_letters@.len() == text_letters@.len(),
            forall|j: int|
                0 <= j < text_letters@.len() ==> #[trigger] text_letters@[j] == letter_positions(
                    plaintext@,
                )[j] && text_letters@[j] < 26,
            forall|j: int|
                0 <= j < key_letters@.len() ==> #[trigger] key_letters@[j] == letter_positions(
                    key@,
                )[j] && key_letters@[j] < 26,
            out@ == ciphertext_of(plaintext@, key@).take(i as int),
        decreases text_letters@.len() - i,
    {
        out.push(letter((key_letters[i] + text_letters[i]) % 26));
        i += 1;
        assert(out@ =~= ciphertext_of(plaintext@, key@).take(i as int));
    }
    assert(out@ =~= ciphertext_of(plaintext@, key@));
    Ok(string_of(&out))
}

/// Decrypts the letters of `ciphertext` with the letters of `key`, one for one. A key
/// with more or fewer letters than the text is refused.
pub fn decrypt(ciphertext: &str, key: &str) -> (r: Result<String, Error>)
    ensures
        valid_key(ciphertext@, key@) ==> (r matches Ok(s) && s@ == plaintext_of(ciphertext@, key@)),
        !valid_key(ciphertext@, key@) ==> (r matches Err(e) && e@ == ErrorKind::InvalidVernamKey),
{
    let key = match validate_key(ciphertext, key) {
        Ok(key) => key,
        Err(e) => {
            return Err(e);
        },
    };
    let text_letters = positions_of_letters(&chars_of(ciphertext));
    let key_letters = positions_of_letters(&chars_of(key));
    let mut out: Vec<char> = Vec::new();
    let mut i: usize = 0;
    while i < text_letters.len()
        invariant
            i <= text_letters@.len(),
            text_letters@.len() == letter_positions(ciphertext@).len(),
            key_letters@.len() == text_letters@.len(),
            forall|j: int|
                0 <= j < text_letters@.len() ==> #[trigger] text_letters@[j] == letter_positions(
                    ciphertext@,
                )[j] && text_letters@[j] < 26,
            forall|j: int|
                0 <= j < key_letters@.len() ==> #[trigger] key_letters@[j] == letter_positions(
                    key@,
                )[j] && key_letters@[j] < 26,
            out@ == plaintext_of(ciphertext@, key@).take(i as int),
        decreases text_letters@.len() - i,
    {
        out.push(letter((text_letters[i] + 26 - key_letters[i]) % 26));
        i += 1;
        assert(out@ =~= plaintext_of(ciphertext@, key@).take(i as int));
    }
    assert(out@ =~= plaintext_of(ciphertext@, key@));
    Ok(string_of(&out))
}

/// A text made of upper-case letters alone holds, as its letters, just the positions
/// of those letters.
proof fn lemma_positions_of_letters(positions: Seq<int>)
    requires
        forall|i: int| 0 <= i < positions.len() ==> 0 <= #[trigger] positions[i] < 26,
    ensures
        letter_positions(Seq::new(positions.len(), |i: int| letter_at(positions[i]))) == positions,
    decreases positions.len(),
{
    let text = Seq::new(positions.len(), |i: int| letter_at(positions[i]));
    if positions.len() > 0 {
        let shorter = positions.drop_last();
        lemma_positions_of_letters(shorter);
        lemma_letter_bijection();
        assert(text.drop_last() =~= Seq::new(shorter.len(), |i: int| letter_at(shorter[i])));
        assert(is_upper(letter_at(positions.last())));
        assert(letter_positions(text) =~= positions);
    } else {
        assert(letter_positions(text) =~= positions);
    }
}

} // verus!
