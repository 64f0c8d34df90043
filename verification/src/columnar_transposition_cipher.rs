//! Columnar transposition: the text is written row by row into a grid with one column
//! for each place of the key, and the columns are read in the order that the key
//! gives. The grid holds whole characters, so a text outside ASCII is moved character
//! by character.

use vstd::prelude::*;
use vstd::set_lib::{lemma_int_range, lemma_len_subset, lemma_subset_equality, set_int_range};
use crate::error::{Error, ErrorKind};
use crate::text::{chars_of, string_of};

verus! {

/// The character that fills the last row of the grid. It is never written out.
pub const PADDING: char = '\0';

/// Whether `c` is one of the decimal digits `0` to `9`.
pub open spec fn is_digit(c: char) -> bool {
    '0' <= c && c <= '9'
}

/// The number that the decimal digit `c` stands for.
pub open spec fn digit_value(c: char) -> int
    recommends
        is_digit(c),
{
    c as int - '0' as int
}

/// A key of `n` characters is valid when each of them is a digit that stands for a
/// number from 1 to `n` and no digit occurs twice: the key is then an arrangement of
/// the numbers 1 to `n`. The empty key is valid.
pub open spec fn valid_key(key: Seq<char>) -> bool {
    &&& forall|i: int|
        0 <= i < key.len() ==> is_digit(#[trigger] key[i]) && 1 <= digit_value(key[i]) <= key.len()
    &&& forall|i: int, j: int| 0 <= i < j < key.len() ==> key[i] != key[j]
}

/// For each place of the key, the column that its digit names, counted from 0.
pub open spec fn columns_of(key: Seq<char>) -> Seq<int> {
    Seq::new(key.len(), |i: int| digit_value(key[i]) - 1)
}

/// The place at which `columns` names the column `c`.
pub open spec fn slot_of(columns: Seq<int>, c: int) -> int {
    choose|k: int| 0 <= k < columns.len() && columns[k] == c
}

/// The places of the key sorted by their digits: entry `c` is the place of the key
/// that names column `c`.
pub open spec fn read_order(key: Seq<char>) -> Seq<int> {
    Seq::new(key.len(), |c: int| slot_of(columns_of(key), c))
}

/// The numbers of `v` as mathematical integers.
pub open spec fn as_ints(v: Seq<usize>) -> Seq<int> {
    Seq::new(v.len(), |i: int| v[i] as int)
}

/// How many padding characters bring a text of `len` characters to a whole number of
/// rows of `n` characters.
pub open spec fn padding_len(len: int, n: int) -> int
    recommends
        n > 0,
{
    (n - len % n) % n
}

/// `text` followed by the padding that fills its last row of `n` characters.
pub open spec fn padded(text: Seq<char>, n: int) -> Seq<char>
    recommends
        n > 0,
{
    text + Seq::new(padding_len(text.len() as int, n) as nat, |i: int| PADDING)
}

/// Column `c` of a grid that is written row by row, `n` characters to the row.
pub open spec fn column(grid: Seq<char>, n: int, c: int) -> Seq<char>
    recommends
        n > 0,
        0 <= c < n,
{
    Seq::new((grid.len() as int / n) as nat, |r: int| grid[r * n + c])
}

/// `s` with every padding character taken out.
pub open spec fn without_padding(s: Seq<char>) -> Seq<char>
    decreases s.len(),
{
    if s.len() == 0 {
        Seq::empty()
    } else if s.last() == PADDING {
        without_padding(s.drop_last())
    } else {
        without_padding(s.drop_last()).push(s.last())
    }
}

/// What the first `k` places of `columns` read from the grid: for each place in turn,
/// the column that it names, top to bottom, without padding.
pub open spec fn columns_read(grid: Seq<char>, columns: Seq<int>, k: int) -> Seq<char>
    decreases k,
{
    if k <= 0 {
        Seq::empty()
    } else {
        columns_read(grid, columns, k - 1) + without_padding(
            column(grid, columns.len() as int, columns[k - 1]),
        )
    }
}

/// The ciphertext of `text` under `key`. The text is written row by row into a grid
/// with one column for each place of the key, the last row filled up with padding.
/// The places of the key are then gone through in order, and for each the column that
/// it names is read: this is the column whose entry in the read order is that place.
/// Any padding character is left out, one that the text itself held too. Under the
/// empty key there is no column to move, and the text stays as it is.
pub open spec fn ciphertext_of(text: Seq<char>, key: Seq<char>) -> Seq<char> {
    if key.len() == 0 {
        text
    } else {
        columns_read(padded(text, key.len() as int), columns_of(key), key.len() as int)
    }
}

/// How many characters of a text of `len` characters stand in column `c` of a grid of
/// `n` columns: the whole rows, and one more in the columns that the rest reaches.
pub open spec fn column_len(len: int, n: int, c: int) -> int
    recommends
        n > 0,
        0 <= c < n,
{
    len / n + if c < len % n {
        1int
    } else {
        0int
    }
}

/// Where in a ciphertext of `len` characters the column read at place `k` begins: the
/// lengths of the columns read before it, added up.
pub open spec fn slot_start(len: int, columns: Seq<int>, k: int) -> int
    decreases k,
{
    if k <= 0 {
        0
    } else {
        slot_start(len, columns, k - 1) + column_len(len, columns.len() as int, columns[k - 1])
    }
}

/// The position in the ciphertext of the character that stands at position `p` of the
/// plaintext, which is row `p / n` of column `p % n`.
pub open spec fn source_of(len: int, columns: Seq<int>, p: int) -> int
    recommends
        columns.len() > 0,
{
    slot_start(len, columns, slot_of(columns, p % (columns.len() as int))) + p / (
    columns.len() as int)
}

/// The plaintext of `text` under `key`. The ciphertext is dealt out to the columns in
/// the order in which the key names them, the first `len % n` columns of the grid one
/// character longer than the others, and the grid is then read row by row. Under the
/// empty key the text stays as it is.
pub open spec fn plaintext_of(text: Seq<char>, key: Seq<char>) -> Seq<char> {
    if key.len() == 0 {
        text
    } else {
        Seq::new(text.len(), |p: int| text[source_of(text.len() as int, columns_of(key), p)])
    }
}

/// Whether `text` holds no padding character.
pub open spec fn free_of_padding(text: Seq<char>) -> bool {
    forall|i: int| 0 <= i < text.len() ==> text[i] != PADDING
}

/// Under a valid key the read order and the columns that the key names undo each
/// other: the place that names column `c` stands at entry `c` of the read order.
pub proof fn lemma_read_order_inverts_columns(key: Seq<char>)
    requires
        valid_key(key),
    ensures
        forall|i: int|
            0 <= i < key.len() ==> 0 <= #[trigger] columns_of(key)[i] < key.len() && read_order(
                key,
            )[columns_of(key)[i]] == i,
        forall|c: int|
            0 <= c < key.len() ==> 0 <= #[trigger] read_order(key)[c] < key.len() && columns_of(
                key,
            )[read_order(key)[c]] == c,
{
    lemma_valid_key_names_every_column(key);
    let columns = columns_of(key);
    assert forall|i: int| 0 <= i < key.len() implies 0 <= #[trigger] columns[i] < key.len()
        && read_order(key)[columns[i]] == i by {
        let k = slot_of(columns, columns[i]);
        assert(columns[k] == columns[i]);
    }
}

/// Decrypting what was encrypted under the same valid key gives the text back, as
/// long as the text holds no padding character. Under the empty key it does so for
/// every text.
pub proof fn lemma_decrypt_inverts_encrypt(text: Seq<char>, key: Seq<char>)
    requires
        valid_key(key),
        key.len() == 0 || free_of_padding(text),
    ensures
        plaintext_of(ciphertext_of(text, key), key) == text,
{
    if key.len() > 0 {
        let n = key.len() as int;
        let len = text.len() as int;
        let columns = columns_of(key);
        let cipher = ciphertext_of(text, key);
        lemma_valid_key_names_every_column(key);
        lemma_columns_of_text(text, columns, n);
        lemma_slots_fill_text(len, columns, 0);
        assert(cipher.len() == len);
        let plain = plaintext_of(cipher, key);
        assert forall|p: int| 0 <= p < len implies plain[p] == text[p] by {
            let c = p % n;
            let r = p / n;
            lemma_rows(p, n);
            let i = slot_of(columns, c);
            assert(columns[i] == c);
            lemma_column_len(len, n, c, r);
            assert(cipher[slot_start(len, columns, i) + r] == text[r * n + columns[i]]);
        }
        assert(plain =~= text);
    }
}

/// Under a valid key of one digit the grid has a single column: encryption only
/// leaves the padding characters out, and decryption leaves the text as it is.
pub proof fn lemma_single_column(text: Seq<char>, key: Seq<char>)
    requires
        valid_key(key),
        key.len() == 1,
    ensures
        ciphertext_of(text, key) == without_padding(text),
        plaintext_of(text, key) == text,
{
    let columns = columns_of(key);
    let len = text.len() as int;
    lemma_valid_key_names_every_column(key);
    assert(is_digit(key[0]));
    assert(columns[0] == 0);
    assert(slot_of(columns, 0) == 0);
    lemma_rows(len, 1);
    let grid = padded(text, 1);
    assert(grid =~= text);
    assert(column(grid, 1, 0) =~= text);
    assert(columns_read(grid, columns, 0) =~= Seq::<char>::empty());
    assert(columns_read(grid, columns, 1) =~= without_padding(text));
    assert(slot_start(len, columns, 0) == 0);
    assert(plaintext_of(text, key) =~= text);
}

/// Validates `key` and gives the places of the key sorted by their digits: entry `c`
/// is the place whose digit names column `c`.
pub fn validate_encryption_key(key: &str) -> (r: Result<Vec<usize>, Error>)
    ensures
        valid_key(key@) ==> (r matches Ok(order) && as_ints(order@) == read_order(key@)),
        !valid_key(key@) ==> (r matches Err(e) && e@ == ErrorKind::InvalidColumnarTranspositionKey),
{
    let chars = chars_of(key);
    match key_columns(&chars) {
        Some(columns) => {
            proof {
                lemma_valid_key_names_every_column(key@);
            }
            let order = inverse_of(&columns);
            assert(as_ints(order@) =~= read_order(key@));
            Ok(order)
        },
        None => Err(Error::new(ErrorKind::InvalidColumnarTranspositionKey)),
    }
}

/// Validates `key` and gives, for each place of the key, the column that its digit
/// names, counted from 0: decryption deals the ciphertext out to the columns in this
/// order.
pub fn validate_decryption_key(key: &str) -> (r: Result<Vec<usize>, Error>)
    ensures
        valid_key(key@) ==> (r matches Ok(columns) && as_ints(columns@) == columns_of(key@)),
        !valid_key(key@) ==> (r matches Err(e) && e@ == ErrorKind::InvalidColumnarTranspositionKey),
{
    let chars = chars_of(key);
    match key_columns(&chars) {
        Some(columns) => Ok(columns),
        None => Err(Error::new(ErrorKind::InvalidColumnarTranspositionKey)),
    }
}

/// Encrypts `plaintext` under `key`, a string of the digits 1 to n in any order, n
/// being its length, which gives the order in which the n columns of the grid are
/// read. A key that is no such string is refused.
pub fn encrypt(plaintext: &str, key: &str) -> (r: Result<String, Error>)
    ensures
        valid_key(key@) ==> (r matches Ok(s) && s@ == ciphertext_of(plaintext@, key@)),
        !valid_key(key@) ==> (r matches Err(e) && e@ == ErrorKind::InvalidColumnarTranspositionKey),
{
    let order = match validate_encryption_key(key) {
        Ok(order) => order,
        Err(e) => {
            return Err(e);
        },
    };
    let text = chars_of(plaintext);
    let n = order.len();
    assert(as_ints(order@).len() == n);
    if n == 0 {
        return Ok(string_of(&text));
    }
    proof {
        lemma_read_order_inverts_columns(key@);
    }
    let mut out: Vec<char> = Vec::new();
    let mut i: usize = 0;
    while i < n
        invariant
            i <= n,
            0 < n == key@.len(),
            n == order@.len(),
            as_ints(order@) == read_order(key@),
            forall|j: int|
                0 <= j < n ==> 0 <= #[trigger] columns_of(key@)[j] < n && read_order(
                    key@,
                )[columns_of(key@)[j]] == j,
            forall|c: int|
                0 <= c < n ==> 0 <= #[trigger] read_order(key@)[c] < n && columns_of(
                    key@,
                )[read_order(key@)[c]] == c,
            out@ == columns_read(padded(text@, n as int), columns_of(key@), i as int),
        decreases n - i,
    {
        proof {
            let named = columns_of(key@)[i as int];
            assert(read_order(key@)[named] == i);
            assert(as_ints(order@)[named] == order@[named]);
        }
        let c = place_of(&order, i);
        proof {
            assert(as_ints(order@)[c as int] == order@[c as int]);
            assert(columns_of(key@)[read_order(key@)[c as int]] == c);
        }
        read_column(&text, n, c, &mut out);
        i += 1;
    }
    Ok(string_of(&out))
}

/// Decrypts `ciphertext` under `key`, a string of the digits 1 to n in any order, n
/// being its length. A key that is no such string is refused.
pub fn decrypt(ciphertext: &str, key: &str) -> (r: Result<String, Error>)
    ensures
        valid_key(key@) ==> (r matches Ok(s) && s@ == plaintext_of(ciphertext@, key@)),
        !valid_key(key@) ==> (r matches Err(e) && e@ == ErrorKind::InvalidColumnarTranspositionKey),
{
    let columns = match validate_decryption_key(key) {
        Ok(columns) => columns,
        Err(e) => {
            return Err(e);
        },
    };
    let text = chars_of(ciphertext);
    let n = columns.len();
    assert(as_ints(columns@).len() == n);
    if n == 0 {
        return Ok(string_of(&text));
    }
    let len = text.len();
    let ghost cols = columns_of(key@);
    proof {
        lemma_valid_key_names_every_column(key@);
    }
    let starts = column_starts(len, &columns);
    let mut out: Vec<char> = Vec::new();
    let mut p: usize = 0;
    while p < len
        invariant
            p <= len,
            0 < n == key@.len(),
            len == text@.len(),
            starts@.len() == n,
            cols == columns_of(key@),
            is_arrangement(cols),
            forall|c: int|
                0 <= c < n ==> #[trigger] starts@[c] == slot_start(len as int, cols, slot_of(cols, c)),
            out@ == plaintext_of(text@, key@).take(p as int),
        decreases len - p,
    {
        let c = p % n;
        let row = p / n;
        proof {
            lemma_slots_fill_text(len as int, cols, slot_of(cols, c as int));
            lemma_rows(p as int, n as int);
            lemma_column_len(len as int, n as int, c as int, row as int);
        }
        let source = starts[c] + row;
        out.push(text[source]);
        p += 1;
        assert(out@ =~= plaintext_of(text@, key@).take(p as int));
    }
    assert(out@ =~= plaintext_of(text@, key@));
    Ok(string_of(&out))
}

/// The columns that the key names, or `None` where the key is not valid.
fn key_columns(key: &Vec<char>) -> (r: Option<Vec<usize>>)
    ensures
        valid_key(key@) ==> (r matches Some(columns) && as_ints(columns@) == columns_of(key@)),
        !valid_key(key@) ==> r is None,
{
    let n = key.len();
    let mut seen: Vec<bool> = vec![false; 10];
    let mut columns: Vec<usize> = Vec::new();
    let mut i: usize = 0;
    while i < n
        invariant
            i <= n,
            n == key.len(),
            seen.len() == 10,
            columns.len() == i,
            forall|j: int| 0 <= j < i ==> is_digit(#[trigger] key[j]) && 1 <= digit_value(key[j]) <= n,
            forall|j: int| 0 <= j < i ==> #[trigger] columns[j] == digit_value(key[j]) - 1,
            forall|j: int, k: int| 0 <= j < k < i ==> key[j] != key[k],
            forall|d: int|
                0 <= d < 10 ==> (#[trigger] seen[d] <==> exists|j: int|
                    0 <= j < i && digit_value(#[trigger] key[j]) == d),
        decreases n - i,
    {
        let c = key[i];
        if !('1' <= c && c <= '9') {
            assert(!(is_digit(key@[i as int]) && 1 <= digit_value(key@[i as int]) <= n));
            return None;
        }
        let d: usize = (c as u32 - '0' as u32) as usize;
        if d > n {
            assert(!(is_digit(key@[i as int]) && 1 <= digit_value(key@[i as int]) <= n));
            return None;
        }
        if seen[d] {
            proof {
                let j = choose|j: int| 0 <= j < i && digit_value(#[trigger] key[j]) == d;
                assert(is_digit(key@[j]));
                assert(key@[j] == key@[i as int]);
            }
            return None;
        }
        let ghost before = seen@;
        seen.set(d, true);
        columns.push(d - 1);
        assert forall|e: int| 0 <= e < 10 implies (#[trigger] seen[e] <==> exists|j: int|
            0 <= j < i + 1 && digit_value(#[trigger] key[j]) == e) by {
            if e == d {
                assert(digit_value(key[i as int]) == d);
            } else {
                assert(seen[e] == before[e]);
                if before[e] {
                    let j = choose|j: int| 0 <= j < i && digit_value(#[trigger] key[j]) == e;
                    assert(0 <= j < i + 1 && digit_value(key[j]) == e);
                }
            }
        }
        assert forall|j: int, k: int| 0 <= j < k < i + 1 implies key[j] != key[k] by {
            if k == i && key[j] == key[k] {
                assert(digit_value(key[j]) == d);
                assert(before[d as int]);
            }
        }
        i += 1;
    }
    assert(as_ints(columns@) =~= columns_of(key@));
    Some(columns)
}

/// The arrangement that undoes `columns`: entry `c` is the place at which `columns`
/// names `c`.
fn inverse_of(columns: &Vec<usize>) -> (order: Vec<usize>)
    requires
        is_arrangement(as_ints(columns@)),
    ensures
        order@.len() == columns@.len(),
        forall|c: int|
            0 <= c < order@.len() ==> #[trigger] order@[c] as int == slot_of(as_ints(columns@), c),
{
    let n = columns.len();
    let ghost cols = as_ints(columns@);
    let mut order: Vec<usize> = vec![0usize; n];
    let mut i: usize = 0;
    while i < n
        invariant
            i <= n,
            n == columns.len(),
            order.len() == n,
            cols == as_ints(columns@),
            is_arrangement(cols),
            forall|j: int| 0 <= j < i ==> order@[#[trigger] cols[j]] == j,
        decreases n - i,
    {
        let c = columns[i];
        assert(cols[i as int] == c);
        order.set(c, i);
        i += 1;
    }
    assert forall|c: int| 0 <= c < n implies #[trigger] order@[c] as int == slot_of(cols, c) by {
        let k = slot_of(cols, c);
        assert(cols[k] == c);
    }
    order
}

/// The place of `order` that holds `i`.
fn place_of(order: &Vec<usize>, i: usize) -> (c: usize)
    requires
        exists|c: int| 0 <= c < order@.len() && order@[c] == i,
    ensures
        c < order@.len(),
        order@[c as int] == i,
{
    let mut c: usize = 0;
    while c < order.len() && order[c] != i
        invariant
            c <= order@.len(),
            forall|j: int| 0 <= j < c ==> order@[j] != i,
        decreases order@.len() - c,
    {
        c += 1;
    }
    c
}

/// Appends to `out` what column `c` of the grid of `text` holds, top to bottom,
/// without padding. The grid has `n` columns; its padding is not built, since a place
/// of the grid beyond the text can only hold padding.
fn read_column(text: &Vec<char>, n: usize, c: usize, out: &mut Vec<char>)
    requires
        c < n,
    ensures
        final(out)@ == old(out)@ + without_padding(
            column(padded(text@, n as int), n as int, c as int),
        ),
{
    let len = text.len();
    proof {
        lemma_rows(len as int, n as int);
        assert(len % n > 0 ==> len / n < len) by (nonlinear_arith)
            requires
                len == (len / n) * n + len % n,
                0 <= len / n,
                n > 0,
        ;
    }
    let rows = if len % n > 0 {
        len / n + 1
    } else {
        len / n
    };
    let ghost grid = padded(text@, n as int);
    let ghost col = column(grid, n as int, c as int);
    let ghost done = out@;
    let mut r: usize = 0;
    while r < rows
        invariant
            r <= rows,
            c < n,
            len == text@.len(),
            grid == padded(text@, n as int),
            grid.len() == rows * n,
            rows == len / n + if len % n > 0 { 1int } else { 0int },
            col == column(grid, n as int, c as int),
            col.len() == rows,
            out@ == done + without_padding(col.take(r as int)),
        decreases rows - r,
    {
        proof {
            lemma_rows(len as int, n as int);
            lemma_column_len(len as int, n as int, c as int, r as int);
            assert(r * n <= len) by (nonlinear_arith)
                requires
                    r < rows,
                    rows == len / n + if len % n > 0 { 1int } else { 0int },
                    len == (len / n) * n + len % n,
                    0 <= len % n < n,
                    0 <= r,
            ;
            assert(r * n + c < rows * n) by (nonlinear_arith)
                requires
                    r < rows,
                    c < n,
                    0 <= r,
            ;
            assert(col.take(r as int + 1) =~= col.take(r as int).push(col[r as int]));
            lemma_without_padding_push(col.take(r as int), col[r as int]);
        }
        let base = r * n;
        if c < len - base {
            let ch = text[base + c];
            assert(col[r as int] == ch);
            if ch != PADDING {
                out.push(ch);
            }
        } else {
            assert(col[r as int] == PADDING);
        }
        r += 1;
        assert(out@ =~= done + without_padding(col.take(r as int)));
    }
    assert(col.take(rows as int) =~= col);
}

/// For each column of the grid, where it begins in a ciphertext of `len` characters.
fn column_starts(len: usize, columns: &Vec<usize>) -> (starts: Vec<usize>)
    requires
        columns@.len() > 0,
        is_arrangement(as_ints(columns@)),
    ensures
        starts@.len() == columns@.len(),
        forall|c: int|
            0 <= c < columns@.len() ==> #[trigger] starts@[c] == slot_start(
                len as int,
                as_ints(columns@),
                slot_of(as_ints(columns@), c),
            ),
{
    let n = columns.len();
    let full_rows = len / n;
    let remainder = len % n;
    let ghost cols = as_ints(columns@);
    let mut starts: Vec<usize> = vec![0usize; n];
    let mut count: usize = 0;
    let mut k: usize = 0;
    while k < n
        invariant
            k <= n,
            0 < n == columns@.len(),
            starts@.len() == n,
            cols == as_ints(columns@),
            is_arrangement(cols),
            full_rows == len as int / n as int,
            remainder == len as int % n as int,
            count == slot_start(len as int, cols, k as int),
            count <= len,
            forall|j: int| 0 <= j < k ==> starts@[#[trigger] cols[j]] == slot_start(len as int, cols, j),
        decreases n - k,
    {
        let c = columns[k];
        proof {
            assert(cols[k as int] == c);
            lemma_rows(len as int, n as int);
            lemma_slots_fill_text(len as int, cols, k as int);
        }
        starts.set(c, count);
        count += if c < remainder {
            full_rows + 1
        } else {
            full_rows
        };
        k += 1;
    }
    assert forall|c: int| 0 <= c < n implies #[trigger] starts@[c] == slot_start(
        len as int,
        cols,
        slot_of(cols, c),
    ) by {
        let j = slot_of(cols, c);
        assert(cols[j] == c);
    }
    starts
}

/// Whether `columns` names each of the columns 0 to `n - 1` exactly once, `n` being
/// its length.
spec fn is_arrangement(columns: Seq<int>) -> bool {
    &&& forall|i: int| 0 <= i < columns.len() ==> 0 <= #[trigger] columns[i] < columns.len()
    &&& forall|i: int, j: int| 0 <= i < j < columns.len() ==> columns[i] != columns[j]
    &&& forall|c: int|
        0 <= c < columns.len() ==> 0 <= #[trigger] slot_of(columns, c) < columns.len()
            && columns[slot_of(columns, c)] == c
}

/// The columns that a valid key names are an arrangement: every column is named, and
/// none twice.
proof fn lemma_valid_key_names_every_column(key: Seq<char>)
    requires
        valid_key(key),
    ensures
        is_arrangement(columns_of(key)),
{
    let columns = columns_of(key);
    let n = key.len() as int;
    assert forall|i: int, j: int| 0 <= i < j < n implies columns[i] != columns[j] by {
        assert(key[i] != key[j]);
    }
    assert(columns.no_duplicates());
    columns.unique_seq_to_set();
    lemma_int_range(0, n);
    let named = columns.to_set();
    let all = set_int_range(0, n);
    assert(named.subset_of(all)) by {
        assert forall|c: int| named.contains(c) implies all.contains(c) by {
            let i = choose|i: int| 0 <= i < columns.len() && columns[i] == c;
            assert(is_digit(key[i]));
        }
    }
    lemma_len_subset(named, all);
    lemma_subset_equality(named, all);
    assert forall|c: int| 0 <= c < n implies 0 <= #[trigger] slot_of(columns, c) < n
        && columns[slot_of(columns, c)] == c by {
        assert(all.contains(c));
        assert(named.contains(c));
    }
    assert forall|i: int| 0 <= i < n implies 0 <= #[trigger] columns[i] < n by {
        assert(is_digit(key[i]));
    }
}

/// How a length splits into whole rows of `n` and a rest, and how many rows the
/// padded grid has.
proof fn lemma_rows(len: int, n: int)
    requires
        len >= 0,
        n > 0,
    ensures
        len == (len / n) * n + len % n,
        0 <= len % n < n,
        0 <= len / n,
        (len + padding_len(len, n)) == (len / n + if len % n > 0 {
            1int
        } else {
            0int
        }) * n,
        (len + padding_len(len, n)) / n == len / n + if len % n > 0 {
            1int
        } else {
            0int
        },
        0 <= padding_len(len, n) < n,
{
    let q = len / n;
    let m = len % n;
    assert(len == q * n + m && 0 <= m < n && 0 <= q) by (nonlinear_arith)
        requires
            len >= 0,
            n > 0,
            q == len / n,
            m == len % n,
    ;
    let pad = padding_len(len, n);
    if m == 0 {
        assert(n % n == 0) by (nonlinear_arith)
            requires
                n > 0,
        ;
        assert(pad == 0);
        assert((q * n) / n == q) by (nonlinear_arith)
            requires
                n > 0,
        ;
    } else {
        assert((n - m) % n == n - m) by (nonlinear_arith)
            requires
                0 < m < n,
        ;
        assert(pad == n - m);
        assert(q * n + n == (q + 1) * n) by (nonlinear_arith);
        assert(((q + 1) * n) / n == q + 1) by (nonlinear_arith)
            requires
                n > 0,
        ;
    }
}

/// Row `r` of column `c` holds a character of the text just when `r` is less than the
/// length of that column.
proof fn lemma_column_len(len: int, n: int, c: int, r: int)
    requires
        len >= 0,
        n > 0,
        0 <= c < n,
        0 <= r,
    ensures
        (r * n + c < len) <==> (r < column_len(len, n, c)),
        0 <= r * n,
{
    lemma_rows(len, n);
    let q = len / n;
    assert(0 <= r * n) by (nonlinear_arith)
        requires
            0 <= r,
            n > 0,
    ;
    if r < q {
        assert(r * n + n <= q * n) by (nonlinear_arith)
            requires
                r + 1 <= q,
                n > 0,
        ;
    } else if r > q {
        assert(r * n >= q * n + n) by (nonlinear_arith)
            requires
                r >= q + 1,
                n > 0,
        ;
    }
}

/// Taking the padding out of a sequence with one more character at its end.
proof fn lemma_without_padding_push(s: Seq<char>, c: char)
    ensures
        without_padding(s.push(c)) == if c == PADDING {
            without_padding(s)
        } else {
            without_padding(s).push(c)
        },
{
    assert(s.push(c).drop_last() =~= s);
}

/// How many of the first `k` places of `columns` name a column below `m`.
spec fn count_below(columns: Seq<int>, k: int, m: int) -> int
    decreases k,
{
    if k <= 0 {
        0
    } else {
        count_below(columns, k - 1, m) + if columns[k - 1] < m {
            1int
        } else {
            0int
        }
    }
}

/// The column read at place `k` begins after `k` times the length of a short column
/// and one more character for each long column read before it.
proof fn lemma_slot_start(len: int, columns: Seq<int>, k: int)
    requires
        len >= 0,
        0 <= k <= columns.len(),
    ensures
        slot_start(len, columns, k) == k * (len / (columns.len() as int)) + count_below(
            columns,
            k,
            len % (columns.len() as int),
        ),
    decreases k,
{
    let q = len / (columns.len() as int);
    if k > 0 {
        lemma_slot_start(len, columns, k - 1);
        assert(k * q == (k - 1) * q + q) by (nonlinear_arith);
    } else {
        assert(0 * q == 0);
    }
}

/// Raising the bound by one counts one place more: the place that names column `m`,
/// if it is among the first `k`.
proof fn lemma_count_below_step(columns: Seq<int>, k: int, m: int)
    requires
        is_arrangement(columns),
        0 <= k <= columns.len(),
        0 <= m < columns.len(),
    ensures
        count_below(columns, k, m + 1) == count_below(columns, k, m) + if slot_of(columns, m) < k {
            1int
        } else {
            0int
        },
    decreases k,
{
    if k > 0 {
        lemma_count_below_step(columns, k - 1, m);
        let s = slot_of(columns, m);
        assert(columns[s] == m);
        if columns[k - 1] == m {
            assert(s == k - 1);
        }
    }
}

/// No place names a column below 0.
proof fn lemma_count_below_zero(columns: Seq<int>, k: int)
    requires
        is_arrangement(columns),
        0 <= k <= columns.len(),
    ensures
        count_below(columns, k, 0) == 0,
    decreases k,
{
    if k > 0 {
        lemma_count_below_zero(columns, k - 1);
        assert(0 <= columns[k - 1]);
    }
}

/// An arrangement names exactly `m` columns below `m`.
proof fn lemma_count_below_all(columns: Seq<int>, m: int)
    requires
        is_arrangement(columns),
        0 <= m <= columns.len(),
    ensures
        count_below(columns, columns.len() as int, m) == m,
    decreases m,
{
    if m == 0 {
        lemma_count_below_zero(columns, columns.len() as int);
    } else {
        lemma_count_below_all(columns, m - 1);
        lemma_count_below_step(columns, columns.len() as int, m - 1);
    }
}

/// A column begins no later than the columns read after it.
proof fn lemma_slot_start_grows(len: int, columns: Seq<int>, j: int, k: int)
    requires
        len >= 0,
        columns.len() > 0,
        0 <= j <= k <= columns.len(),
    ensures
        0 <= slot_start(len, columns, j) <= slot_start(len, columns, k),
    decreases k,
{
    lemma_rows(len, columns.len() as int);
    if k > j {
        lemma_slot_start_grows(len, columns, j, k - 1);
    } else if k > 0 {
        lemma_slot_start_grows(len, columns, j - 1, k - 1);
    }
}

/// The columns of an arrangement take up the whole text between them, so each of them
/// lies inside it.
proof fn lemma_slots_fill_text(len: int, columns: Seq<int>, k: int)
    requires
        len >= 0,
        columns.len() > 0,
        is_arrangement(columns),
        0 <= k < columns.len(),
    ensures
        slot_start(len, columns, columns.len() as int) == len,
        0 <= slot_start(len, columns, k),
        slot_start(len, columns, k) + column_len(len, columns.len() as int, columns[k]) <= len,
{
    let n = columns.len() as int;
    lemma_rows(len, n);
    lemma_slot_start(len, columns, n);
    lemma_count_below_all(columns, len % n);
    assert(n * (len / n) == (len / n) * n) by (nonlinear_arith);
    lemma_slot_start_grows(len, columns, k + 1, n);
    lemma_slot_start_grows(len, columns, k, k + 1);
}

/// The characters of `text` that stand in column `c` of a grid of `n` columns, top to
/// bottom.
spec fn text_column(text: Seq<char>, n: int, c: int) -> Seq<char> {
    Seq::new(column_len(text.len() as int, n, c) as nat, |r: int| text[r * n + c])
}

/// The first `j` rows of a column of the padded grid hold, padding apart, the first
/// characters of that column of the text.
proof fn lemma_column_prefix(text: Seq<char>, n: int, c: int, j: int)
    requires
        free_of_padding(text),
        n > 0,
        0 <= c < n,
        0 <= j <= column(padded(text, n), n, c).len(),
    ensures
        column_len(text.len() as int, n, c) <= column(padded(text, n), n, c).len(),
        without_padding(column(padded(text, n), n, c).take(j)) == text_column(text, n, c).take(
            if j < column_len(text.len() as int, n, c) {
                j
            } else {
                column_len(text.len() as int, n, c)
            },
        ),
    decreases j,
{
    let len = text.len() as int;
    let grid = padded(text, n);
    let col = column(grid, n, c);
    let tc = text_column(text, n, c);
    let m = column_len(len, n, c);
    lemma_rows(len, n);
    assert(col.len() == grid.len() as int / n);
    if j == 0 {
        assert(col.take(0) =~= Seq::<char>::empty());
        assert(tc.take(0) =~= Seq::<char>::empty());
    } else {
        lemma_column_prefix(text, n, c, j - 1);
        lemma_column_len(len, n, c, j - 1);
        assert((j - 1) * n + c < grid.len()) by (nonlinear_arith)
            requires
                j - 1 < col.len(),
                grid.len() == col.len() * n,
                0 <= c < n,
        ;
        assert(col.take(j) =~= col.take(j - 1).push(col[j - 1]));
        lemma_without_padding_push(col.take(j - 1), col[j - 1]);
        if j - 1 < m {
            assert(col[j - 1] == text[(j - 1) * n + c]);
            assert(tc.take(j) =~= tc.take(j - 1).push(tc[j - 1]));
        } else {
            assert(col[j - 1] == PADDING);
        }
    }
}

/// What the first `k` places read from the padded grid of a text that holds no
/// padding character: the columns of the text that they name, one after the other.
proof fn lemma_columns_of_text(text: Seq<char>, columns: Seq<int>, k: int)
    requires
        free_of_padding(text),
        is_arrangement(columns),
        0 <= k <= columns.len(),
        columns.len() > 0,
    ensures
        columns_read(padded(text, columns.len() as int), columns, k).len() == slot_start(
            text.len() as int,
            columns,
            k,
        ),
        forall|i: int, r: int|
            0 <= i < k && 0 <= r < column_len(text.len() as int, columns.len() as int, columns[i])
                ==> #[trigger] columns_read(padded(text, columns.len() as int), columns, k)[slot_start(
                text.len() as int,
                columns,
                i,
            ) + r] == text[r * (columns.len() as int) + #[trigger] columns[i]],
    decreases k,
{
    let n = columns.len() as int;
    let len = text.len() as int;
    let grid = padded(text, n);
    if k > 0 {
        lemma_columns_of_text(text, columns, k - 1);
        let before = columns_read(grid, columns, k - 1);
        let c = columns[k - 1];
        let col = column(grid, n, c);
        lemma_column_prefix(text, n, c, col.len() as int);
        assert(col.take(col.len() as int) =~= col);
        let tc = text_column(text, n, c);
        assert(tc.take(tc.len() as int) =~= tc);
        lemma_rows(len, n);
        assert(without_padding(col) == tc);
        let now = columns_read(grid, columns, k);
        assert(now == before + tc);
        assert forall|i: int, r: int|
            0 <= i < k && 0 <= r < column_len(len, n, columns[i]) implies #[trigger] now[slot_start(
            len,
            columns,
            i,
        ) + r] == text[r * n + #[trigger] columns[i]] by {
            lemma_slot_start_grows(len, columns, i, i + 1);
            if i < k - 1 {
                lemma_slot_start_grows(len, columns, i + 1, k - 1);
                assert(before[slot_start(len, columns, i) + r] == text[r * n + columns[i]]);
            } else {
                assert(now[before.len() + r] == tc[r]);
            }
        }
    }
}

} // verus!
