//! Rail fence: the text is written in a zig-zag over a number of rails, and the rails
//! are read one after the other. Every character is moved, letter or not, and none is
//! changed.

use vstd::prelude::*;
use crate::error::{Error, ErrorKind};
use crate::text::{chars_of, string_of};

verus! {

/// A number of rails is a valid key when it is more than 1.
pub open spec fn valid_key(key: usize) -> bool {
    key > 1
}

/// The rail on which position `i` of a text lies when the text is written in a
/// zig-zag over `rails` rails: from rail 0 one rail further with each position until
/// the last rail is reached, then back one rail with each position until rail 0 is
/// reached, and so on. With a single rail, or none, every position lies on rail 0.
pub open spec fn rail_of(i: int, rails: int) -> int {
    if rails <= 1 {
        0
    } else {
        let period = 2 * (rails - 1);
        let m = i % period;
        if m < rails {
            m
        } else {
            period - m
        }
    }
}

/// The characters that stand on rail `r` among the first `upto` characters of `text`,
/// in the order of the text.
pub open spec fn rail_text(text: Seq<char>, rails: int, r: int, upto: int) -> Seq<char>
    decreases upto,
{
    if upto <= 0 {
        Seq::empty()
    } else if rail_of(upto - 1, rails) == r {
        rail_text(text, rails, r, upto - 1).push(text[upto - 1])
    } else {
        rail_text(text, rails, r, upto - 1)
    }
}

/// The first `k` rails of `text`, read one after the other.
pub open spec fn rails_read(text: Seq<char>, rails: int, k: int) -> Seq<char>
    decreases k,
{
    if k <= 0 {
        Seq::empty()
    } else {
        rails_read(text, rails, k - 1) + rail_text(text, rails, k - 1, text.len() as int)
    }
}

/// The ciphertext of `text` over `rails` rails: the text is written in a zig-zag over
/// the rails, and the rails are read one after the other, from rail 0 on.
pub open spec fn ciphertext_of(text: Seq<char>, rails: int) -> Seq<char> {
    rails_read(text, rails, rails)
}

/// How many of the positions below `upto` lie on rail `r`.
pub open spec fn rail_count(rails: int, r: int, upto: int) -> int
    decreases upto,
{
    if upto <= 0 {
        0
    } else {
        rail_count(rails, r, upto - 1) + if rail_of(upto - 1, rails) == r {
            1int
        } else {
            0int
        }
    }
}

/// Where rail `r` begins in the ciphertext of a text of `len` characters: the lengths
/// of the rails before it, added up.
pub open spec fn rail_start(len: int, rails: int, r: int) -> int
    decreases r,
{
    if r <= 0 {
        0
    } else {
        rail_start(len, rails, r - 1) + rail_count(rails, r - 1, len)
    }
}

/// The position in the ciphertext of the character that stands at position `i` of the
/// plaintext: after the rails before its own, and after the characters that come
/// before it on its own rail.
pub open spec fn source_of(len: int, rails: int, i: int) -> int {
    rail_start(len, rails, rail_of(i, rails)) + rail_count(rails, rail_of(i, rails), i)
}

/// The plaintext of `text` over `rails` rails: each position of the zig-zag takes the
/// character that the rails, read one after the other, hold for it.
pub open spec fn plaintext_of(text: Seq<char>, rails: int) -> Seq<char> {
    Seq::new(text.len(), |i: int| text[source_of(text.len() as int, rails, i)])
}

/// The rail of a position is one of the rails, and no position lies on a rail beyond
/// its own number.
pub proof fn lemma_rail_bounds(i: int, rails: int)
    requires
        0 <= i,
    ensures
        0 <= rail_of(i, rails) <= i,
        rails >= 1 ==> rail_of(i, rails) < rails,
{
    if rails > 1 {
        let period = 2 * (rails - 1);
        assert(0 <= i % period < period && i % period <= i) by (nonlinear_arith)
            requires
                0 <= i,
                period > 0,
        ;
    }
}

/// Decrypting what was encrypted over the same valid number of rails gives the text
/// back, whatever its characters.
pub proof fn lemma_decrypt_inverts_encrypt(text: Seq<char>, key: usize)
    requires
        valid_key(key),
    ensures
        plaintext_of(ciphertext_of(text, key as int), key as int) == text,
{
    let rails = key as int;
    let len = text.len() as int;
    let cipher = ciphertext_of(text, rails);
    lemma_rails_read(text, rails, rails);
    lemma_rail_start(len, rails, rails);
    assert(cipher.len() == len);
    let plain = plaintext_of(cipher, rails);
    assert forall|i: int| 0 <= i < len implies plain[i] == text[i] by {
        let r = rail_of(i, rails);
        lemma_rail_bounds(i, rails);
        lemma_rail_text(text, rails, r, len);
        let j = rail_count(rails, r, i);
        assert(cipher[rail_start(len, rails, r) + j] == rail_text(text, rails, r, len)[j]);
    }
    assert(plain =~= text);
}

/// With at least as many rails as the text has characters, each character lies on a
/// rail of its own, and both directions leave the text as it is.
pub proof fn lemma_one_character_per_rail(text: Seq<char>, key: usize)
    requires
        valid_key(key),
        key >= text.len(),
    ensures
        forall|i: int| 0 <= i < text.len() ==> rail_of(i, key as int) == i,
        ciphertext_of(text, key as int) == text,
        plaintext_of(text, key as int) == text,
{
    let rails = key as int;
    let len = text.len() as int;
    lemma_rails_within_text(text, rails, len);
    assert(text.take(len) =~= text);
    lemma_rails_beyond_text(text, rails, rails);
    lemma_decrypt_inverts_encrypt(text, key);
    assert forall|i: int| 0 <= i < len implies rail_of(i, rails) == i by {
        lemma_own_rail(i, rails);
    }
}

/// Hands `key` back where it is more than 1, and refuses it where it is not.
pub fn validate_key(key: usize) -> (r: Result<usize, Error>)
    ensures
        valid_key(key) ==> r == Ok::<usize, Error>(key),
        !valid_key(key) ==> (r matches Err(e) && e@ == ErrorKind::InvalidRailFenceKey),
{
    if key > 1 {
        Ok(key)
    } else {
        Err(Error::new(ErrorKind::InvalidRailFenceKey))
    }
}

/// The rail of each of the positions `0` to `length - 1` in a zig-zag over `rows`
/// rails.
pub fn generate_sequence(length: usize, rows: usize) -> (sequence: Vec<usize>)
    ensures
        sequence@.len() == length,
        forall|i: int| 0 <= i < length ==> #[trigger] sequence@[i] == rail_of(i, rows as int),
{
    let mut sequence: Vec<usize> = Vec::new();
    let mut row: usize = 0;
    let mut descending: bool = false;
    let ghost period: int = 2 * (rows - 1);
    let mut i: usize = 0;
    while i < length
        invariant
            i <= length,
            sequence@.len() == i,
            forall|j: int| 0 <= j < i ==> #[trigger] sequence@[j] == rail_of(j, rows as int),
            period == 2 * (rows - 1),
            row == rail_of(i as int, rows as int),
            rows > 1 ==> row < rows,
            rows > 1 && 0 < (i as int) % period < rows - 1 ==> !descending,
            rows > 1 && (i as int) % period > rows - 1 ==> descending,
        decreases length - i,
    {
        sequence.push(row);
        if rows > 1 {
            if row + 1 == rows {
                descending = true;
            } else if row == 0 {
                descending = false;
            }
            proof {
                let m = (i as int) % period;
                assert(0 <= m < period && ((i + 1) % period == if m + 1 == period {
                    0int
                } else {
                    m + 1
                })) by (nonlinear_arith)
                    requires
                        0 <= i,
                        period > 0,
                        m == (i as int) % period,
                ;
            }
            if descending {
                row -= 1;
            } else {
                row += 1;
            }
        }
        i += 1;
    }
    sequence
}

/// Encrypts `plaintext` by writing it in a zig-zag over `key` rails and reading the
/// rails one after the other. A `key` of 1 or 0 is refused.
pub fn encrypt(plaintext: &str, key: usize) -> (r: Result<String, Error>)
    ensures
        valid_key(key) ==> (r matches Ok(s) && s@ == ciphertext_of(plaintext@, key as int)),
        !valid_key(key) ==> (r matches Err(e) && e@ == ErrorKind::InvalidRailFenceKey),
{
    let key = match validate_key(key) {
        Ok(key) => key,
        Err(e) => {
            return Err(e);
        },
    };
    let text = chars_of(plaintext);
    let rails = deal_onto_rails(&text, key);
    let mut out: Vec<char> = Vec::new();
    let mut r: usize = 0;
    while r < rails.len()
        invariant
            r <= rails@.len(),
            forall|j: int|
                0 <= j < rails@.len() ==> (#[trigger] rails@[j])@ == rail_text(
                    text@,
                    key as int,
                    j,
                    text@.len() as int,
                ),
            out@ == rails_read(text@, key as int, r as int),
        decreases rails@.len() - r,
    {
        let ghost before = out@;
        let rail = &rails[r];
        let mut j: usize = 0;
        while j < rail.len()
            invariant
                j <= rail@.len(),
                out@ == before + rail@.take(j as int),
            decreases rail@.len() - j,
        {
            out.push(rail[j]);
            j += 1;
            assert(out@ =~= before + rail@.take(j as int));
        }
        assert(rail@.take(rail@.len() as int) =~= rail@);
        r += 1;
    }
    proof {
        if key >= text@.len() {
            lemma_rails_beyond_text(text@, key as int, key as int);
        }
    }
    Ok(string_of(&out))
}

/// Decrypts `ciphertext` by dealing it out to the `key` rails of the zig-zag, rail
/// after rail, and reading the zig-zag off. A `key` of 1 or 0 is refused.
pub fn decrypt(ciphertext: &str, key: usize) -> (r: Result<String, Error>)
    ensures
        valid_key(key) ==> (r matches Ok(s) && s@ == plaintext_of(ciphertext@, key as int)),
        !valid_key(key) ==> (r matches Err(e) && e@ == ErrorKind::InvalidRailFenceKey),
{
    let key = match validate_key(key) {
        Ok(key) => key,
        Err(e) => {
            return Err(e);
        },
    };
    let text = chars_of(ciphertext);
    let len = text.len();
    let sequence = generate_sequence(len, key);
    let mut next = rail_starts(&sequence, key);
    let mut out: Vec<char> = Vec::new();
    let mut i: usize = 0;
    while i < len
        invariant
            i <= len,
            len == text@.len(),
            key > 1,
            sequence@.len() == len,
            forall|j: int| 0 <= j < len ==> #[trigger] sequence@[j] == rail_of(j, key as int),
            next@.len() == if key < len { key as int } else { len as int },
            forall|j: int|
                0 <= j < next@.len() ==> #[trigger] next@[j] == rail_start(len as int, key as int, j)
                    + rail_count(key as int, j, i as int),
            out@ == plaintext_of(text@, key as int).take(i as int),
        decreases len - i,
    {
        let rail = sequence[i];
        proof {
            lemma_rail_bounds(i as int, key as int);
            lemma_source_in_text(len as int, key as int, i as int);
        }
        let source = next[rail];
        out.push(text[source]);
        next.set(rail, source + 1);
        i += 1;
        assert(out@ =~= plaintext_of(text@, key as int).take(i as int));
    }
    assert(out@ =~= plaintext_of(text@, key as int));
    Ok(string_of(&out))
}

/// The rails of `text` in a zig-zag over `key` rails, each with its characters in the
/// order of the text. Only the rails that a position of the text can lie on are
/// built: as many as the text has characters, where there are more rails than that.
fn deal_onto_rails(text: &Vec<char>, key: usize) -> (rails: Vec<Vec<char>>)
    requires
        key > 1,
    ensures
        rails@.len() == if key < text@.len() { key as int } else { text@.len() as int },
        forall|j: int|
            0 <= j < rails@.len() ==> (#[trigger] rails@[j])@ == rail_text(
                text@,
                key as int,
                j,
                text@.len() as int,
            ),
{
    let len = text.len();
    let used = if key < len {
        key
    } else {
        len
    };
    let sequence = generate_sequence(len, key);
    let mut rails: Vec<Vec<char>> = Vec::new();
    let mut r: usize = 0;
    while r < used
        invariant
            r <= used,
            rails@.len() == r,
            forall|j: int| 0 <= j < r ==> (#[trigger] rails@[j])@ == Seq::<char>::empty(),
        decreases used - r,
    {
        rails.push(Vec::new());
        r += 1;
    }
    let mut i: usize = 0;
    while i < len
        invariant
            i <= len,
            len == text@.len(),
            key > 1,
            used == if key < len { key } else { len },
            sequence@.len() == len,
            forall|j: int| 0 <= j < len ==> #[trigger] sequence@[j] == rail_of(j, key as int),
            rails@.len() == used,
            forall|j: int|
                0 <= j < used ==> (#[trigger] rails@[j])@ == rail_text(
                    text@,
                    key as int,
                    j,
                    i as int,
                ),
        decreases len - i,
    {
        let rail = sequence[i];
        proof {
            lemma_rail_bounds(i as int, key as int);
        }
        rails[rail].push(text[i]);
        i += 1;
    }
    rails
}

/// Where each rail begins in the ciphertext whose zig-zag is `sequence`. Only the
/// rails that a position can lie on are given.
fn rail_starts(sequence: &Vec<usize>, key: usize) -> (starts: Vec<usize>)
    requires
        key > 1,
        forall|j: int| 0 <= j < sequence@.len() ==> #[trigger] sequence@[j] == rail_of(j, key as int),
    ensures
        starts@.len() == if key < sequence@.len() { key as int } else { sequence@.len() as int },
        forall|j: int|
            0 <= j < starts@.len() ==> #[trigger] starts@[j] == rail_start(
                sequence@.len() as int,
                key as int,
                j,
            ),
{
    let len = sequence.len();
    let used = if key < len {
        key
    } else {
        len
    };
    let mut starts: Vec<usize> = vec![0usize; used];
    let mut i: usize = 0;
    while i < len
        invariant
            i <= len,
            len == sequence@.len(),
            key > 1,
            used == if key < len { key } else { len },
            forall|j: int| 0 <= j < len ==> #[trigger] sequence@[j] == rail_of(j, key as int),
            starts@.len() == used,
            forall|j: int|
                0 <= j < used ==> #[trigger] starts@[j] == rail_count(key as int, j, i as int),
            forall|j: int| 0 <= j < used ==> #[trigger] starts@[j] <= i,
        decreases len - i,
    {
        let rail = sequence[i];
        proof {
            lemma_rail_bounds(i as int, key as int);
        }
        let count = starts[rail];
        starts.set(rail, count + 1);
        i += 1;
    }
    let mut start: usize = 0;
    let mut r: usize = 0;
    while r < used
        invariant
            r <= used,
            used <= len,
            starts@.len() == used,
            start == rail_start(len as int, key as int, r as int),
            forall|j: int|
                r <= j < used ==> #[trigger] starts@[j] == rail_count(key as int, j, len as int),
            forall|j: int|
                0 <= j < r ==> #[trigger] starts@[j] == rail_start(len as int, key as int, j),
        decreases used - r,
    {
        proof {
            lemma_rail_start(len as int, key as int, r as int + 1);
        }
        let count = starts[r];
        starts.set(r, start);
        start += count;
        r += 1;
    }
    starts
}

/// A position below the number of rails lies on the rail of its own number.
proof fn lemma_own_rail(i: int, rails: int)
    requires
        0 <= i < rails,
    ensures
        rail_of(i, rails) == i,
{
    if rails > 1 {
        let period = 2 * (rails - 1);
        assert(i % period == i) by (nonlinear_arith)
            requires
                0 <= i < period,
        ;
    }
}

/// With at least as many rails as characters, a rail holds the one character of its
/// own number, as soon as the text has got that far.
proof fn lemma_single_character(text: Seq<char>, rails: int, r: int, upto: int)
    requires
        0 <= upto <= text.len() <= rails,
        0 <= r,
    ensures
        rail_text(text, rails, r, upto) == if r < upto {
            seq![text[r]]
        } else {
            Seq::<char>::empty()
        },
    decreases upto,
{
    if upto > 0 {
        lemma_single_character(text, rails, r, upto - 1);
        lemma_own_rail(upto - 1, rails);
        if r == upto - 1 {
            assert(Seq::<char>::empty().push(text[r]) =~= seq![text[r]]);
        }
    }
}

/// With at least as many rails as characters, the first `k` rails read the first `k`
/// characters of the text.
proof fn lemma_rails_within_text(text: Seq<char>, rails: int, k: int)
    requires
        0 <= k <= text.len() <= rails,
    ensures
        rails_read(text, rails, k) == text.take(k),
    decreases k,
{
    if k > 0 {
        lemma_rails_within_text(text, rails, k - 1);
        lemma_single_character(text, rails, k - 1, text.len() as int);
        assert(text.take(k - 1) + seq![text[k - 1]] =~= text.take(k));
    } else {
        assert(text.take(0) =~= Seq::<char>::empty());
    }
}

/// A rail whose number is at least `upto` holds none of the first `upto` characters.
proof fn lemma_far_rail_is_empty(text: Seq<char>, rails: int, r: int, upto: int)
    requires
        r >= upto,
    ensures
        rail_text(text, rails, r, upto) == Seq::<char>::empty(),
    decreases upto,
{
    if upto > 0 {
        lemma_rail_bounds(upto - 1, rails);
        lemma_far_rail_is_empty(text, rails, r, upto - 1);
    }
}

/// Reading more rails than the text has characters adds nothing.
proof fn lemma_rails_beyond_text(text: Seq<char>, rails: int, k: int)
    requires
        k >= text.len(),
    ensures
        rails_read(text, rails, k) == rails_read(text, rails, text.len() as int),
    decreases k,
{
    if k > text.len() {
        lemma_rails_beyond_text(text, rails, k - 1);
        lemma_far_rail_is_empty(text, rails, k - 1, text.len() as int);
        assert(rails_read(text, rails, k - 1) + Seq::<char>::empty() =~= rails_read(
            text,
            rails,
            k - 1,
        ));
    }
}

/// How many of the positions below `upto` lie on a rail below `k`.
spec fn count_below(rails: int, k: int, upto: int) -> int
    decreases upto,
{
    if upto <= 0 {
        0
    } else {
        count_below(rails, k, upto - 1) + if rail_of(upto - 1, rails) < k {
            1int
        } else {
            0int
        }
    }
}

/// A rail holds more positions the further one counts.
proof fn lemma_rail_count_grows(rails: int, r: int, a: int, b: int)
    requires
        0 <= a <= b,
    ensures
        0 <= rail_count(rails, r, a) <= rail_count(rails, r, b),
    decreases b,
{
    if b > a {
        lemma_rail_count_grows(rails, r, a, b - 1);
    } else if b > 0 {
        lemma_rail_count_grows(rails, r, a - 1, b - 1);
    }
}

/// One rail more holds the positions of that rail more.
proof fn lemma_count_below_step(rails: int, k: int, upto: int)
    requires
        0 <= upto,
    ensures
        count_below(rails, k + 1, upto) == count_below(rails, k, upto) + rail_count(rails, k, upto),
        0 <= count_below(rails, k, upto) <= upto,
    decreases upto,
{
    if upto > 0 {
        lemma_count_below_step(rails, k, upto - 1);
    }
}

/// No position lies on a rail below 0.
proof fn lemma_no_rail_below_zero(rails: int, upto: int)
    requires
        0 <= upto,
    ensures
        count_below(rails, 0, upto) == 0,
    decreases upto,
{
    if upto > 0 {
        lemma_no_rail_below_zero(rails, upto - 1);
        lemma_rail_bounds(upto - 1, rails);
    }
}

/// Every position lies on a rail below the number of rails.
proof fn lemma_all_rails_below(rails: int, k: int, upto: int)
    requires
        0 <= upto,
        1 <= rails <= k,
    ensures
        count_below(rails, k, upto) == upto,
    decreases upto,
{
    if upto > 0 {
        lemma_all_rails_below(rails, k, upto - 1);
        lemma_rail_bounds(upto - 1, rails);
    }
}

/// Rail `k` begins after the positions that lie on the rails below it, and the rails
/// `0` to `rails - 1` hold all positions between them.
proof fn lemma_rail_start(len: int, rails: int, k: int)
    requires
        0 <= len,
        0 <= k,
    ensures
        rail_start(len, rails, k) == count_below(rails, k, len),
        0 <= rail_start(len, rails, k) <= len,
        k >= rails && rails >= 1 ==> rail_start(len, rails, k) == len,
    decreases k,
{
    if k > 0 {
        lemma_rail_start(len, rails, k - 1);
        lemma_count_below_step(rails, k - 1, len);
    } else {
        lemma_no_rail_below_zero(rails, len);
    }
    lemma_count_below_step(rails, k, len);
    if k >= rails && rails >= 1 {
        lemma_all_rails_below(rails, k, len);
    }
}

/// A rail begins no later than the rails after it.
proof fn lemma_rail_start_grows(len: int, rails: int, a: int, b: int)
    requires
        0 <= len,
        0 <= a <= b,
    ensures
        rail_start(len, rails, a) <= rail_start(len, rails, b),
    decreases b,
{
    if b > a {
        lemma_rail_start_grows(len, rails, a, b - 1);
        lemma_rail_count_grows(rails, b - 1, 0, len);
    }
}

/// The character for position `i` lies inside the ciphertext, before the start of the
/// next rail.
proof fn lemma_source_in_text(len: int, rails: int, i: int)
    requires
        0 <= i < len,
    ensures
        0 <= source_of(len, rails, i) < len,
        source_of(len, rails, i) < rail_start(len, rails, rail_of(i, rails) + 1),
{
    let r = rail_of(i, rails);
    lemma_rail_bounds(i, rails);
    lemma_rail_count_grows(rails, r, i, i);
    lemma_rail_count_grows(rails, r, i + 1, len);
    lemma_rail_start(len, rails, r);
    lemma_rail_start(len, rails, r + 1);
}

/// A rail holds one character for each of its positions, and the character of
/// position `i` stands on its rail after those of the positions before `i`.
proof fn lemma_rail_text(text: Seq<char>, rails: int, r: int, upto: int)
    requires
        0 <= upto <= text.len(),
    ensures
        rail_text(text, rails, r, upto).len() == rail_count(rails, r, upto),
        forall|i: int|
            0 <= i < upto && rail_of(i, rails) == r ==> 0 <= #[trigger] rail_count(rails, r, i)
                < rail_count(rails, r, upto) && rail_text(text, rails, r, upto)[rail_count(
                rails,
                r,
                i,
            )] == text[i],
    decreases upto,
{
    if upto > 0 {
        lemma_rail_text(text, rails, r, upto - 1);
        assert forall|i: int| 0 <= i < upto && rail_of(i, rails) == r implies 0
            <= #[trigger] rail_count(rails, r, i) < rail_count(rails, r, upto) && rail_text(
            text,
            rails,
            r,
            upto,
        )[rail_count(rails, r, i)] == text[i] by {
            lemma_rail_count_grows(rails, r, i, i);
            lemma_rail_count_grows(rails, r, i + 1, upto);
        }
    }
}

/// The first `k` rails, read one after the other, hold each rail at its start.
proof fn lemma_rails_read(text: Seq<char>, rails: int, k: int)
    requires
        0 <= k,
    ensures
        rails_read(text, rails, k).len() == rail_start(text.len() as int, rails, k),
        forall|r: int, j: int|
            0 <= r < k && 0 <= j < rail_count(rails, r, text.len() as int) ==> rails_read(
                text,
                rails,
                k,
            )[#[trigger] rail_start(text.len() as int, rails, r) + j] == #[trigger] rail_text(
                text,
                rails,
                r,
                text.len() as int,
            )[j],
    decreases k,
{
    let len = text.len() as int;
    if k > 0 {
        lemma_rails_read(text, rails, k - 1);
        lemma_rail_text(text, rails, k - 1, len);
        let before = rails_read(text, rails, k - 1);
        let last = rail_text(text, rails, k - 1, len);
        assert forall|r: int, j: int| 0 <= r < k && 0 <= j < rail_count(rails, r, len) implies (
        before + last)[#[trigger] rail_start(len, rails, r) + j] == #[trigger] rail_text(
            text,
            rails,
            r,
            len,
        )[j] by {
            lemma_rail_start(len, rails, r);
            if r < k - 1 {
                lemma_rail_start_grows(len, rails, r + 1, k - 1);
                assert(before[rail_start(len, rails, r) + j] == rail_text(text, rails, r, len)[j]);
            } else {
                assert((before + last)[before.len() + j] == last[j]);
            }
        }
    }
}

} // verus!
