//! Caesar cipher: every letter of the text is moved the same number of places in the
//! alphabet. What is no letter stays as it is.

use vstd::prelude::*;
use crate::alphabet::{
    is_letter, lemma_letter_bijection, letter, letter_at, letter_position, position_of, to_upper,
    uppercased,
};
use crate::error::{Error, ErrorKind};
use crate::text::{chars_of, string_of};

verus! {

/// A shift is a valid key when it lies between 1 and 25.
pub open spec fn valid_key(key: usize) -> bool {
    1 <= key && key <= 25
}

/// A letter moved `shift` places forward in the alphabet, wrapping round after `Z`,
/// in upper case. A character that is no letter stays as it is.
pub open spec fn shifted_forward(c: char, shift: int) -> char {
    if is_letter(c) {
        letter_at((letter_position(c) + shift) % 26)
    } else {
        c
    }
}

/// A letter moved `shift` places backward in the alphabet, wrapping round before `A`,
/// in upper case. A character that is no letter stays as it is.
pub open spec fn shifted_backward(c: char, shift: int) -> char {
    if is_letter(c) {
        letter_at((letter_position(c) - shift + 26) % 26)
    } else {
        c
    }
}

/// The ciphertext of `text` under the shift `key`.
pub open spec fn ciphertext_of(text: Seq<char>, key: int) -> Seq<char> {
    Seq::new(text.len(), |i: int| shifted_forward(text[i], key))
}

/// The plaintext of `text` under the shift `key`.
pub open spec fn plaintext_of(text: Seq<char>, key: int) -> Seq<char> {
    Seq::new(text.len(), |i: int| shifted_backward(text[i], key))
}

/// Decrypting what was encrypted with the same valid shift gives the text back with
/// its letters in upper case; characters that are no letters come back unchanged.
pub proof fn lemma_decrypt_inverts_encrypt(text: Seq<char>, key: usize)
    requires
        valid_key(key),
    ensures
        plaintext_of(ciphertext_of(text, key as int), key as int) == uppercased(text),
{
    lemma_letter_bijection();
    assert forall|i: int| 0 <= i < text.len() implies shifted_backward(
        shifted_forward(text[i], key as int),
        key as int,
    ) == to_upper(text[i]) by {
        let c = text[i];
        if is_letter(c) {
            let p = letter_position(c);
            let q = (p + key) % 26;
            assert(is_letter(letter_at(q)));
            assert(letter_position(letter_at(q)) == q);
            assert((q - key + 26) % 26 == p);
        }
    }
    assert(plaintext_of(ciphertext_of(text, key as int), key as int) =~= uppercased(text));
}

/// Hands `key` back where it lies between 1 and 25, and refuses it where it does not.
pub fn validate_key(key: usize) -> (r: Result<usize, Error>)
    ensures
        valid_key(key) ==> r == Ok::<usize, Error>(key),
        !valid_key(key) ==> (r matches Err(e) && e@ == ErrorKind::InvalidCaesarKey),
{
    if 1 <= key && key <= 25 {
        Ok(key)
    } else {
        Err(Error::new(ErrorKind::InvalidCaesarKey))
    }
}

/// Encrypts `plaintext` by moving each letter `key` places forward in the alphabet.
/// Letters come out in upper case, all other characters unchanged. A `key` outside
/// 1 to 25 is refused.
pub fn encrypt(plaintext: &str, key: usize) -> (r: Result<String, Error>)
    ensures
        valid_key(key) ==> (r matches Ok(s) && s@ == ciphertext_of(plaintext@, key as int)),
        !valid_key(key) ==> (r matches Err(e) && e@ == ErrorKind::InvalidCaesarKey),
{
    let key = match validate_key(key) {
        Ok(key) => key,
        Err(e) => {
            return Err(e);
        },
    };
    let text = chars_of(plaintext);
    let mut out: Vec<char> = Vec::new();
    let mut i: usize = 0;
    while i < text.len()
        invariant
            i <= text.len(),
            valid_key(key),
            out@ == ciphertext_of(text@, key as int).take(i as int),
        decreases text.len() - i,
    {
        let c = text[i];
        let shifted = match position_of(c) {
            Some(p) => letter((p + key) % 26),
            None => c,
        };
        out.push(shifted);
        i += 1;
        assert(out@ =~= ciphertext_of(text@, key as int).take(i as int));
    }
    assert(out@ =~= ciphertext_of(text@, key as int));
    Ok(string_of(&out))
}

/// Decrypts `ciphertext` by moving each letter `key` places backward in the alphabet.
/// Letters come out in upper case, all other characters unchanged. A `key` outside
/// 1 to 25 is refused.
pub fn decrypt(ciphertext: &str, key: usize) -> (r: Result<String, Error>)
    ensures
        valid_key(key) ==> (r matches Ok(s) && s@ == plaintext_of(ciphertext@, key as int)),
        !valid_key(key) ==> (r matches Err(e) && e@ == ErrorKind::InvalidCaesarKey),
{
    let key = match validate_key(key) {
        Ok(key) => key,
        Err(e) => {
            return Err(e);
        },
    };
    let text = chars_of(ciphertext);
    let mut out: Vec<char> = Vec::new();
    let mut i: usize = 0;
    while i < text.len()
        invariant
            i <= text.len(),
            valid_key(key),
            out@ == plaintext_of(text@, key as int).take(i as int),
        decreases text.len() - i,
    {
        let c = text[i];
        let shifted = match position_of(c) {
            Some(p) => letter((p + 26 - key) % 26),
            None => c,
        };
        out.push(shifted);
        i += 1;
        assert(out@ =~= plaintext_of(text@, key as int).take(i as int));
    }
    assert(out@ =~= plaintext_of(text@, key as int));
    Ok(string_of(&out))
}

} // verus!
