//! Mono-alphabetic substitution: each letter of the text is replaced by the character
//! that the key holds at the letter's position in the alphabet. What is no letter is
//! left out of the result.

use vstd::prelude::*;
use vstd::set_lib::{lemma_int_range, lemma_len_subset, set_int_range};
use crate::alphabet::{
    is_letter, is_upper, lemma_letter_bijection, letter, letter_at, letter_position, letters_of,
    letter_positions, position_of, to_upper, upper,
};
use crate::error::{Error, ErrorKind};
use crate::text::{chars_of, string_of};

verus! {

/// Whether `key` holds the letter at position `p` of the alphabet, in either case.
pub open spec fn holds_letter(key: Seq<char>, p: int) -> bool {
    exists|i: int| 0 <= i < key.len() && is_letter(#[trigger] key[i]) && letter_position(key[i]) == p
}

/// A key is valid when it holds each of the 26 letters, in either case. What else it
/// holds, and how often a letter occurs, does not count.
pub open spec fn valid_key(key: Seq<char>) -> bool {
    forall|p: int| 0 <= p < 26 ==> holds_letter(key, p)
}

/// The table by which `key` encrypts: each upper-case letter is replaced by the
/// character that stands in the key at the letter's position in the alphabet.
pub open spec fn encryption_table(key: Seq<char>) -> Map<char, char>
    recommends
        key.len() >= 26,
{
    Map::new(|c: char| is_upper(c), |c: char| key[letter_position(c)])
}

/// The last place below `upto` at which `key` holds the character `c`, or -1 where
/// it holds `c` at none of them.
pub open spec fn last_place(key: Seq<char>, c: char, upto: int) -> int
    decreases upto,
{
    if upto <= 0 {
        -1
    } else if key[upto - 1] == c {
        upto - 1
    } else {
        last_place(key, c, upto - 1)
    }
}

/// The table by which `key` decrypts: each of the first 26 characters of the key is
/// replaced by the letter of the alphabet at the character's place in the key, its
/// last place where it occurs more than once.
pub open spec fn decryption_table(key: Seq<char>) -> Map<char, char>
    recommends
        key.len() >= 26,
{
    Map::new(
        |c: char| last_place(key, c, 26) >= 0,
        |c: char| letter_at(last_place(key, c, 26)),
    )
}

/// `text` with each character looked up in `table` by its upper-case form and
/// replaced by what the table gives for it. A character for which the table gives
/// nothing is left out.
pub open spec fn substituted(text: Seq<char>, table: Map<char, char>) -> Seq<char>
    decreases text.len(),
{
    if text.len() == 0 {
        Seq::empty()
    } else if table.contains_key(to_upper(text.last())) {
        substituted(text.drop_last(), table).push(table[to_upper(text.last())])
    } else {
        substituted(text.drop_last(), table)
    }
}

/// The ciphertext of `text` under `key`.
pub open spec fn ciphertext_of(text: Seq<char>, key: Seq<char>) -> Seq<char> {
    substituted(text, encryption_table(key))
}

/// The plaintext of `text` under `key`.
pub open spec fn plaintext_of(text: Seq<char>, key: Seq<char>) -> Seq<char> {
    substituted(text, decryption_table(key))
}

/// Whether decryption under `key` gives the letter at position `p` back: the
/// character that stands for the letter is no lower-case letter, and stands at none
/// of the places after `p` among the first 26 of the key.
pub open spec fn restores(key: Seq<char>, p: int) -> bool {
    last_place(key, to_upper(key[p]), 26) == p
}

/// A valid key holds 26 different letters, so it is at least 26 characters long.
pub proof fn lemma_valid_key_is_long(key: Seq<char>)
    requires
        valid_key(key),
    ensures
        key.len() >= 26,
{
    let place = |p: int|
        choose|i: int| 0 <= i < key.len() && is_letter(#[trigger] key[i]) && letter_position(key[i]) == p;
    let places = Seq::new(26, place);
    assert forall|p: int| 0 <= p < 26 implies 0 <= #[trigger] places[p] < key.len() && is_letter(
        key[places[p]],
    ) && letter_position(key[places[p]]) == p by {
        assert(holds_letter(key, p));
    }
    assert(places.no_duplicates());
    places.unique_seq_to_set();
    lemma_int_range(0, key.len() as int);
    let all = set_int_range(0, key.len() as int);
    assert(places.to_set().subset_of(all)) by {
        assert forall|i: int| places.to_set().contains(i) implies all.contains(i) by {
            let p = choose|p: int| 0 <= p < places.len() && places[p] == i;
            assert(0 <= places[p] < key.len());
        }
    }
    lemma_len_subset(places.to_set(), all);
}

/// A key whose first 26 characters are all different restores every letter for which
/// it does not give a lower-case letter.
pub proof fn lemma_distinct_key_restores(key: Seq<char>, p: int)
    requires
        forall|i: int, j: int| 0 <= i < j < 26 ==> key[i] != key[j],
        0 <= p < 26,
        to_upper(key[p]) == key[p],
    ensures
        restores(key, p),
{
    lemma_last_place(key, key[p], p, 26);
}

/// Decrypting what was encrypted under the same valid key gives back the letters of
/// the text, in upper case, as long as the key restores each letter that the text
/// holds.
pub proof fn lemma_decrypt_inverts_encrypt(text: Seq<char>, key: Seq<char>)
    requires
        valid_key(key),
        forall|i: int|
            0 <= i < text.len() && is_letter(#[trigger] text[i]) ==> restores(
                key,
                letter_position(text[i]),
            ),
    ensures
        plaintext_of(ciphertext_of(text, key), key) == letters_of(text),
    decreases text.len(),
{
    lemma_letter_bijection();
    if text.len() == 0 {
        assert(letters_of(text) =~= Seq::<char>::empty());
    } else {
        let shorter = text.drop_last();
        let x = text.last();
        assert forall|i: int| 0 <= i < shorter.len() && is_letter(#[trigger] shorter[i]) implies restores(
            key,
            letter_position(shorter[i]),
        ) by {
            assert(shorter[i] == text[i]);
        }
        lemma_decrypt_inverts_encrypt(shorter, key);
        if is_letter(x) {
            let p = letter_position(x);
            assert(restores(key, p));
            assert(letter_position(to_upper(x)) == p);
            let cipher = ciphertext_of(text, key);
            assert(cipher == ciphertext_of(shorter, key).push(key[p]));
            assert(cipher.drop_last() =~= ciphertext_of(shorter, key));
            assert(plaintext_of(cipher, key) == letters_of(shorter).push(letter_at(p)));
            assert(letter_positions(text) == letter_positions(shorter).push(p));
            assert(letters_of(text) =~= letters_of(shorter).push(letter_at(p)));
        } else {
            assert(letters_of(text) =~= letters_of(shorter));
        }
    }
}

/// A substitution table: for some characters, the character that replaces each.
#[derive(Debug, Clone)]
pub struct Substitution {
    pairs: Vec<(char, char)>,
}

impl View for Substitution {
    type V = Map<char, char>;

    closed spec fn view(&self) -> Map<char, char> {
        table_of(self.pairs@)
    }
}

impl Substitution {
    /// The character that the table gives for `c`, or `None` where it gives none.
    pub fn get(&self, c: char) -> (r: Option<char>)
        ensures
            r == if self@.contains_key(c) {
                Some(self@[c])
            } else {
                None
            },
    {
        let mut found: Option<char> = None;
        let mut i: usize = 0;
        while i < self.pairs.len()
            invariant
                i <= self.pairs@.len(),
                found == if table_of(self.pairs@.take(i as int)).contains_key(c) {
                    Some(table_of(self.pairs@.take(i as int))[c])
                } else {
                    None
                },
            decreases self.pairs@.len() - i,
        {
            assert(self.pairs@.take(i as int + 1).drop_last() =~= self.pairs@.take(i as int));
            let pair = self.pairs[i];
            if pair.0 == c {
                found = Some(pair.1);
            }
            i += 1;
        }
        assert(self.pairs@.take(self.pairs@.len() as int) =~= self.pairs@);
        found
    }
}

/// Validates `key` and gives the table by which it encrypts.
pub fn validate_encryption_key(key: &str) -> (r: Result<Substitution, Error>)
    ensures
        valid_key(key@) ==> (r matches Ok(table) && table@ == encryption_table(key@)),
        !valid_key(key@) ==> (r matches Err(e) && e@ == ErrorKind::InvalidMonoAlphabeticKey),
{
    let chars = chars_of(key);
    if !holds_every_letter(&chars) {
        return Err(Error::new(ErrorKind::InvalidMonoAlphabeticKey));
    }
    proof {
        lemma_valid_key_is_long(key@);
        lemma_letter_bijection();
    }
    let mut pairs: Vec<(char, char)> = Vec::new();
    let mut i: usize = 0;
    while i < 26
        invariant
            i <= 26,
            chars@ == key@,
            key@.len() >= 26,
            table_of(pairs@) == Map::new(
                |c: char| is_upper(c) && letter_position(c) < i,
                |c: char| key@[letter_position(c)],
            ),
        decreases 26 - i,
    {
        let ghost before = pairs@;
        pairs.push((letter(i), chars[i]));
        proof {
            lemma_letter_bijection();
            assert(pairs@.drop_last() =~= before);
            assert(table_of(pairs@) =~= Map::new(
                |c: char| is_upper(c) && letter_position(c) < i + 1,
                |c: char| key@[letter_position(c)],
            ));
        }
        i += 1;
    }
    let table = Substitution { pairs };
    assert(table@ =~= encryption_table(key@));
    Ok(table)
}

/// Validates `key` and gives the table by which it decrypts.
pub fn validate_decryption_key(key: &str) -> (r: Result<Substitution, Error>)
    ensures
        valid_key(key@) ==> (r matches Ok(table) && table@ == decryption_table(key@)),
        !valid_key(key@) ==> (r matches Err(e) && e@ == ErrorKind::InvalidMonoAlphabeticKey),
{
    let chars = chars_of(key);
    if !holds_every_letter(&chars) {
        return Err(Error::new(ErrorKind::InvalidMonoAlphabeticKey));
    }
    proof {
        lemma_valid_key_is_long(key@);
    }
    let mut pairs: Vec<(char, char)> = Vec::new();
    let mut i: usize = 0;
    while i < 26
        invariant
            i <= 26,
            chars@ == key@,
            key@.len() >= 26,
            table_of(pairs@) == Map::new(
                |c: char| last_place(key@, c, i as int) >= 0,
                |c: char| letter_at(last_place(key@, c, i as int)),
            ),
        decreases 26 - i,
    {
        let ghost before = pairs@;
        pairs.push((chars[i], letter(i)));
        proof {
            assert(pairs@.drop_last() =~= before);
            assert(table_of(pairs@) =~= Map::new(
                |c: char| last_place(key@, c, i as int + 1) >= 0,
                |c: char| letter_at(last_place(key@, c, i as int + 1)),
            ));
        }
        i += 1;
    }
    let table = Substitution { pairs };
    assert(table@ =~= decryption_table(key@));
    Ok(table)
}

/// Encrypts `plaintext` under `key`: each letter, in either case, is replaced by the
/// character that stands in the key at the letter's position in the alphabet, and
/// every other character is left out. A key that does not hold all 26 letters is
/// refused.
pub fn encrypt(plaintext: &str, key: &str) -> (r: Result<String, Error>)
    ensures
        valid_key(key@) ==> (r matches Ok(s) && s@ == ciphertext_of(plaintext@, key@)),
        !valid_key(key@) ==> (r matches Err(e) && e@ == ErrorKind::InvalidMonoAlphabeticKey),
{
    let table = match validate_encryption_key(key) {
        Ok(table) => table,
        Err(e) => {
            return Err(e);
        },
    };
    let out = substitute(&chars_of(plaintext), &table);
    Ok(string_of(&out))
}

/// Decrypts `ciphertext` under `key`: each character whose upper-case form is one of
/// the first 26 characters of the key is replaced by the letter of the alphabet at
/// that place, and every other character is left out. A key that does not hold all 26
/// letters is refused.
pub fn decrypt(ciphertext: &str, key: &str) -> (r: Result<String, Error>)
    ensures
        valid_key(key@) ==> (r matches Ok(s) && s@ == plaintext_of(ciphertext@, key@)),
        !valid_key(key@) ==> (r matches Err(e) && e@ == ErrorKind::InvalidMonoAlphabeticKey),
{
    let table = match validate_decryption_key(key) {
        Ok(table) => table,
        Err(e) => {
            return Err(e);
        },
    };
    let out = substitute(&chars_of(ciphertext), &table);
    Ok(string_of(&out))
}

/// Whether `key` is valid.
fn holds_every_letter(key: &Vec<char>) -> (b: bool)
    ensures
        b == valid_key(key@),
{
    let mut seen: Vec<bool> = vec![false; 26];
    let mut i: usize = 0;
    while i < key.len()
        invariant
            i <= key@.len(),
            seen@.len() == 26,
            forall|p: int| 0 <= p < 26 ==> (#[trigger] seen@[p] <==> holds_letter(key@.take(i as int), p)),
        decreases key@.len() - i,
    {
        let ghost before = seen@;
        let ghost shorter = key@.take(i as int);
        let ghost longer = key@.take(i as int + 1);
        let found = position_of(key[i]);
        match found {
            Some(p) => {
                seen.set(p, true);
            },
            None => {},
        }
        assert forall|p: int| 0 <= p < 26 implies (#[trigger] seen@[p] <==> holds_letter(longer, p)) by {
            if holds_letter(shorter, p) {
                let j = choose|j: int|
                    0 <= j < shorter.len() && is_letter(#[trigger] shorter[j]) && letter_position(
                        shorter[j],
                    ) == p;
                assert(longer[j] == shorter[j]);
            }
            if is_letter(key@[i as int]) && letter_position(key@[i as int]) == p {
                assert(longer[i as int] == key@[i as int]);
            }
            if holds_letter(longer, p) {
                let j = choose|j: int|
                    0 <= j < longer.len() && is_letter(#[trigger] longer[j]) && letter_position(
                        longer[j],
                    ) == p;
                if j < i {
                    assert(shorter[j] == longer[j]);
                }
            }
        }
        i += 1;
    }
    assert(key@.take(key@.len() as int) =~= key@);
    let mut p: usize = 0;
    while p < 26
        invariant
            p <= 26,
            seen@.len() == 26,
            forall|q: int| 0 <= q < 26 ==> (#[trigger] seen@[q] <==> holds_letter(key@, q)),
            forall|q: int| 0 <= q < p ==> holds_letter(key@, q),
        decreases 26 - p,
    {
        if !seen[p] {
            return false;
        }
        p += 1;
    }
    true
}

/// `text` with each character replaced by what `table` gives for its upper-case
/// form, and left out where the table gives nothing.
fn substitute(text: &Vec<char>, table: &Substitution) -> (out: Vec<char>)
    ensures
        out@ == substituted(text@, table@),
{
    let mut out: Vec<char> = Vec::new();
    let mut i: usize = 0;
    while i < text.len()
        invariant
            i <= text@.len(),
            out@ == substituted(text@.take(i as int), table@),
        decreases text@.len() - i,
    {
        assert(text@.take(i as int + 1).drop_last() =~= text@.take(i as int));
        match table.get(upper(text[i])) {
            Some(c) => {
                out.push(c);
            },
            None => {},
        }
        i += 1;
    }
    assert(text@.take(text@.len() as int) =~= text@);
    out
}

/// The table that a list of pairs stands for: each pair gives, for its first
/// character, its second; of two pairs for one character the later one counts.
spec fn table_of(pairs: Seq<(char, char)>) -> Map<char, char>
    decreases pairs.len(),
{
    if pairs.len() == 0 {
        Map::empty()
    } else {
        table_of(pairs.drop_last()).insert(pairs.last().0, pairs.last().1)
    }
}

/// The last place of a character is the place after which it does not occur again.
proof fn lemma_last_place(key: Seq<char>, c: char, p: int, upto: int)
    requires
        0 <= p < upto,
        key[p] == c,
        forall|q: int| p < q < upto ==> key[q] != c,
    ensures
        last_place(key, c, upto) == p,
    decreases upto,
{
    if upto - 1 > p {
        lemma_last_place(key, c, p, upto - 1);
    }
}

} // verus!
