//! Reading a board from UTF-8 text: one row per line, decimal numbers separated by
//! whitespace. Words that are not numbers are skipped.

use crate::grid::{rejection, well_formed, Grid, GridError};
use vstd::prelude::*;

verus! {

/// ASCII whitespace: space, tab, line feed, vertical tab, form feed, carriage return.
pub open spec fn is_ascii_space(b: u8) -> bool {
    b == 0x20 || b == 0x09 || b == 0x0a || b == 0x0b || b == 0x0c || b == 0x0d
}

/// The length in bytes of the whitespace character that `t` begins with, or 0 when it
/// begins with none. Whitespace is every character of Unicode's White_Space property:
/// the ASCII ones, U+0085, U+00A0, U+1680, U+2000 to U+200A, U+2028, U+2029, U+202F,
/// U+205F and U+3000, in their UTF-8 encodings.
pub open spec fn space_len(t: Seq<u8>) -> nat {
    if t.len() >= 1 && is_ascii_space(t[0]) {
        1
    } else if t.len() >= 2 && t[0] == 0xc2 && (t[1] == 0x85 || t[1] == 0xa0) {
        2
    } else if t.len() >= 3 && ((t[0] == 0xe1 && t[1] == 0x9a && t[2] == 0x80) || (t[0] == 0xe2
        && t[1] == 0x80 && (0x80 <= t[2] <= 0x8a || t[2] == 0xa8 || t[2] == 0xa9 || t[2]
        == 0xaf)) || (t[0] == 0xe2 && t[1] == 0x81 && t[2] == 0x9f) || (t[0] == 0xe3 && t[1]
        == 0x80 && t[2] == 0x80)) {
        3
    } else {
        0
    }
}

/// An ASCII decimal digit.
pub open spec fn is_digit(b: u8) -> bool {
    0x30 <= b <= 0x39
}

/// Whether every byte of `d` is a digit.
pub open spec fn all_digits(d: Seq<u8>) -> bool {
    forall|i: int| 0 <= i < d.len() ==> is_digit(#[trigger] d[i])
}

/// The value of the decimal digits `d`, most significant first.
pub open spec fn digits_value(d: Seq<u8>) -> int
    decreases d.len(),
{
    if d.len() == 0 {
        0
    } else {
        digits_value(d.drop_last()) * 10 + (d.last() - 0x30)
    }
}

/// The number a word denotes: one or more digits after an optional `+`, with a value that
/// fits in a `usize`.
pub open spec fn numeral(w: Seq<u8>) -> Option<usize> {
    let d = if w.len() > 0 && w[0] == 0x2b { w.drop_first() } else { w };
    if d.len() > 0 && all_digits(d) && digits_value(d) <= usize::MAX {
        Some(digits_value(d) as usize)
    } else {
        None
    }
}

/// Digits never lower the value they extend.
proof fn lemma_digits_value_grows(d: Seq<u8>, k: int)
    requires
        0 <= k <= d.len(),
        all_digits(d),
    ensures
        0 <= digits_value(d.take(k)) <= digits_value(d),
    decreases d.len(),
{
    if k < d.len() {
        assert(d.drop_last().take(k) =~= d.take(k));
        assert(all_digits(d.drop_last()));
        lemma_digits_value_grows(d.drop_last(), k);
    } else {
        assert(d.take(k) =~= d);
        if d.len() > 0 {
            assert(all_digits(d.drop_last()));
            lemma_digits_value_grows(d.drop_last(), k - 1);
            assert(d.drop_last().take(k - 1) =~= d.drop_last());
        }
    }
}

/// The number that `s[lo..hi]` denotes, if it is one.
fn parse_numeral(s: &[u8], lo: usize, hi: usize) -> (r: Option<usize>)
    requires
        lo <= hi <= s@.len(),
    ensures
        r == numeral(s@.subrange(lo as int, hi as int)),
{
    let ghost w = s@.subrange(lo as int, hi as int);
    let start = if lo < hi && s[lo] == 0x2b {
        lo + 1
    } else {
        lo
    };
    let ghost d = s@.subrange(start as int, hi as int);
    assert(d =~= (if w.len() > 0 && w[0] == 0x2b { w.drop_first() } else { w }));
    if start == hi {
        return None;
    }
    let mut value: usize = 0;
    let mut i: usize = start;
    while i < hi
        invariant
            lo <= start <= i <= hi <= s@.len(),
            d == s@.subrange(start as int, hi as int),
            w == s@.subrange(lo as int, hi as int),
            d == (if w.len() > 0 && w[0] == 0x2b { w.drop_first() } else { w }),
            forall|j: int| 0 <= j < i - start ==> is_digit(#[trigger] d[j]),
            value == digits_value(d.take(i - start)),
        decreases hi - i,
    {
        let b = s[i];
        if b < 0x30 || b > 0x39 {
            assert(!is_digit(d[i - start]));
            assert(!all_digits(d));
            return None;
        }
        assert(d.take(i - start + 1).drop_last() =~= d.take(i - start));
        match value.checked_mul(10) {
            Some(v) => match v.checked_add((b - 0x30) as usize) {
                Some(v) => value = v,
                None => {
                    proof {
                        no_numeral_past_max(d, (i - start + 1) as int);
                    }
                    return None;
                },
            },
            None => {
                proof {
                    no_numeral_past_max(d, (i - start + 1) as int);
                }
                return None;
            },
        }
        i = i + 1;
    }
    assert(d.take(hi - start) =~= d);
    Some(value)
}

/// Digits whose prefix of length `k` already exceeds `usize::MAX` denote no number.
proof fn no_numeral_past_max(d: Seq<u8>, k: int)
    requires
        0 < k <= d.len(),
        forall|j: int| 0 <= j < k - 1 ==> is_digit(#[trigger] d[j]),
        is_digit(d[k - 1]),
        digits_value(d.take(k)) > usize::MAX,
    ensures
        !(all_digits(d) && digits_value(d) <= usize::MAX),
{
    if all_digits(d) {
        lemma_digits_value_grows(d, k);
    }
}

/// The length of the word that starts `t`: the bytes before the first whitespace.
pub open spec fn word_len(t: Seq<u8>) -> nat
    decreases t.len(),
{
    if t.len() == 0 || space_len(t) > 0 {
        0
    } else {
        1 + word_len(t.drop_first())
    }
}

/// A word never runs past the end of the text.
proof fn lemma_word_len_bound(t: Seq<u8>)
    ensures
        word_len(t) <= t.len(),
    decreases t.len(),
{
    if t.len() > 0 && space_len(t) == 0 {
        lemma_word_len_bound(t.drop_first());
    }
}

/// A run of `k` bytes where no whitespace begins, followed by whitespace or the end, is the
/// first word.
proof fn lemma_word_len_is(t: Seq<u8>, k: int)
    requires
        0 <= k <= t.len(),
        forall|i: int| 0 <= i < k ==> #[trigger] space_len(t.skip(i)) == 0,
        k == t.len() || space_len(t.skip(k)) > 0,
    ensures
        word_len(t) == k,
    decreases k,
{
    assert(t.skip(0) =~= t);
    if k > 0 {
        assert forall|i: int| 0 <= i < k - 1 implies #[trigger] space_len(
            t.drop_first().skip(i),
        ) == 0 by {
            assert(t.drop_first().skip(i) =~= t.skip(i + 1));
        }
        assert(t.drop_first().skip(k - 1) =~= t.skip(k));
        lemma_word_len_is(t.drop_first(), k - 1);
    }
}

/// The numbers among the words of `t`, in order; other words are skipped.
pub open spec fn numbers(t: Seq<u8>) -> Seq<usize>
    decreases t.len(),
    via numbers_decreases
{
    if t.len() == 0 {
        seq![]
    } else if space_len(t) > 0 {
        numbers(t.skip(space_len(t) as int))
    } else {
        let k = word_len(t) as int;
        let rest = numbers(t.skip(k));
        match numeral(t.take(k)) {
            Some(v) => seq![v] + rest,
            None => rest,
        }
    }
}

#[via_fn]
proof fn numbers_decreases(t: Seq<u8>) {
    lemma_word_len_bound(t);
}

/// Appends to `out` the numbers among the words of `s[lo..hi]`.
fn collect_numbers(s: &[u8], lo: usize, hi: usize, out: &mut Vec<usize>)
    requires
        lo <= hi <= s@.len(),
    ensures
        final(out)@ == old(out)@ + numbers(s@.subrange(lo as int, hi as int)),
{
    let ghost start = out@;
    let mut i: usize = lo;
    while i < hi
        invariant
            lo <= i <= hi <= s@.len(),
            start + numbers(s@.subrange(lo as int, hi as int)) == out@ + numbers(
                s@.subrange(i as int, hi as int),
            ),
        decreases hi - i,
    {
        let ghost t = s@.subrange(i as int, hi as int);
        let gap = space_len_at(s, i, hi);
        if gap > 0 {
            assert(t.skip(gap as int) =~= s@.subrange(i + gap, hi as int));
            i = i + gap;
        } else {
            let mut j: usize = i + 1;
            proof {
                assert(t.skip(0) =~= t);
            }
            while j < hi && space_len_at(s, j, hi) == 0
                invariant
                    i < j <= hi <= s@.len(),
                    t == s@.subrange(i as int, hi as int),
                    forall|m: int| 0 <= m < j - i ==> #[trigger] space_len(t.skip(m)) == 0,
                decreases hi - j,
            {
                assert(t.skip(j - i) =~= s@.subrange(j as int, hi as int));
                j = j + 1;
            }
            proof {
                if j < hi {
                    assert(t.skip(j - i) =~= s@.subrange(j as int, hi as int));
                }
                lemma_word_len_is(t, j - i);
                assert(t.take(j - i) =~= s@.subrange(i as int, j as int));
                assert(t.skip(j - i) =~= s@.subrange(j as int, hi as int));
            }
            match parse_numeral(s, i, j) {
                Some(v) => {
                    let ghost before = out@;
                    out.push(v);
                    assert(before + (seq![v] + numbers(s@.subrange(j as int, hi as int))) =~= out@
                        + numbers(s@.subrange(j as int, hi as int)));
                },
                None => {},
            }
            i = j;
        }
    }
    assert(s@.subrange(hi as int, hi as int).len() == 0);
    assert(out@ + numbers(s@.subrange(hi as int, hi as int)) =~= out@);
}

/// The length of the whitespace character that begins `s[i..hi]`, or 0.
fn space_len_at(s: &[u8], i: usize, hi: usize) -> (r: usize)
    requires
        i < hi <= s@.len(),
    ensures
        r == space_len(s@.subrange(i as int, hi as int)),
{
    let ghost t = s@.subrange(i as int, hi as int);
    let b = s[i];
    if b == 0x20 || b == 0x09 || b == 0x0a || b == 0x0b || b == 0x0c || b == 0x0d {
        return 1;
    }
    if hi - i >= 2 && b == 0xc2 && (s[i + 1] == 0x85 || s[i + 1] == 0xa0) {
        return 2;
    }
    if hi - i >= 3 {
        let b1 = s[i + 1];
        let b2 = s[i + 2];
        if (b == 0xe1 && b1 == 0x9a && b2 == 0x80) || (b == 0xe2 && b1 == 0x80 && ((0x80 <= b2
            && b2 <= 0x8a) || b2 == 0xa8 || b2 == 0xa9 || b2 == 0xaf)) || (b == 0xe2 && b1 == 0x81
            && b2 == 0x9f) || (b == 0xe3 && b1 == 0x80 && b2 == 0x80) {
            return 3;
        }
    }
    0
}

/// The length of the first line of `t`: the bytes before the first line feed.
pub open spec fn line_len(t: Seq<u8>) -> nat
    decreases t.len(),
{
    if t.len() == 0 || t[0] == 0x0a {
        0
    } else {
        1 + line_len(t.drop_first())
    }
}

/// A run of `k` bytes without a line feed that ends at one, or at the end, is the first
/// line.
proof fn lemma_line_len_is(t: Seq<u8>, k: int)
    requires
        0 <= k <= t.len(),
        forall|i: int| 0 <= i < k ==> #[trigger] t[i] != 0x0a,
        k == t.len() || t[k] == 0x0a,
    ensures
        line_len(t) == k,
    decreases k,
{
    if k > 0 {
        assert forall|i: int| 0 <= i < k - 1 implies #[trigger] t.drop_first()[i] != 0x0a by {
            assert(t.drop_first()[i] == t[i + 1]);
        }
        lemma_line_len_is(t.drop_first(), k - 1);
    }
}

/// The first line never runs past the end of the text.
proof fn lemma_line_len_bound(t: Seq<u8>)
    ensures
        line_len(t) <= t.len(),
    decreases t.len(),
{
    if t.len() > 0 && t[0] != 0x0a {
        lemma_line_len_bound(t.drop_first());
    }
}

/// The numbers of every line of `t`, line after line: the cells of the board it describes.
pub open spec fn text_cells(t: Seq<u8>) -> Seq<usize>
    decreases t.len(),
    via text_cells_decreases
{
    let e = line_len(t) as int;
    numbers(t.take(e)) + if e < t.len() {
        text_cells(t.skip(e + 1))
    } else {
        seq![]
    }
}

#[via_fn]
proof fn text_cells_decreases(t: Seq<u8>) {
    lemma_line_len_bound(t);
}

/// Whether every line of `t` holds either no number or exactly `k` of them.
pub open spec fn rows_match(t: Seq<u8>, k: int) -> bool
    decreases t.len(),
    via rows_match_decreases
{
    let e = line_len(t) as int;
    let count = numbers(t.take(e)).len();
    (count == 0 || count == k) && (e < t.len() ==> rows_match(t.skip(e + 1), k))
}

#[via_fn]
proof fn rows_match_decreases(t: Seq<u8>, k: int) {
    lemma_line_len_bound(t);
}

/// The column count of the board that `t` describes: how many numbers its first line holds.
pub open spec fn text_cols(t: Seq<u8>) -> int {
    numbers(t.take(line_len(t) as int)).len() as int
}

/// Why the text `t` does not describe a board, when it does not.
pub open spec fn text_rejection(t: Seq<u8>) -> GridError {
    if text_cols(t) > 0 && !rows_match(t, text_cols(t)) {
        GridError::RaggedRows
    } else {
        rejection(text_cells(t), text_cols(t))
    }
}

/// Where the line that starts at `i` ends: at its line feed, or at the end of `s`.
fn line_end(s: &[u8], i: usize) -> (e: usize)
    requires
        i <= s@.len(),
    ensures
        i <= e <= s@.len(),
        line_len(s@.skip(i as int)) == e - i,
        e < s@.len() ==> s@[e as int] == 0x0a,
{
    let mut e: usize = i;
    while e < s.len() && s[e] != 0x0a
        invariant
            i <= e <= s@.len(),
            forall|m: int| i <= m < e ==> #[trigger] s@[m] != 0x0a,
        decreases s@.len() - e,
    {
        e = e + 1;
    }
    proof {
        let u = s@.skip(i as int);
        assert forall|m: int| 0 <= m < e - i implies #[trigger] u[m] != 0x0a by {
            assert(u[m] == s@[i + m]);
        }
        lemma_line_len_is(u, e - i);
    }
    e
}

/// Reads a board from `text`: one row per line, numbers separated by whitespace. Words that
/// are not numbers are skipped. The first line's count of numbers gives the column count;
/// every other line must hold that many numbers, or none.
pub fn parse_grid(text: &[u8]) -> (r: Result<Grid, GridError>)
    ensures
        r is Ok <==> text_cols(text@) > 0 && rows_match(text@, text_cols(text@)) && well_formed(
            text_cells(text@),
            text_cols(text@),
        ),
        r matches Ok(g) ==> g.cells() == text_cells(text@) && g.width() == text_cols(text@),
        r matches Err(e) ==> e == text_rejection(text@),
{
    let ghost t = text@;
    let n = text.len();
    let mut cells: Vec<usize> = Vec::new();
    let first = line_end(text, 0);
    collect_numbers(text, 0, first, &mut cells);
    let cols = cells.len();
    proof {
        assert(t.skip(0) =~= t);
        assert(t.take(first as int) =~= t.subrange(0, first as int));
    }
    let mut fits = true;
    let mut e = first;
    while e < n
        invariant
            n == t.len(),
            t == text@,
            cols == text_cols(t),
            e <= n,
            text_cells(t) == cells@ + if e < n {
                text_cells(t.skip(e + 1))
            } else {
                seq![]
            },
            rows_match(t, cols as int) == (fits && (e < n ==> rows_match(t.skip(e + 1), cols as int))),
        decreases n - e,
    {
        let ghost u = t.skip(e + 1);
        let start = e + 1;
        let end = line_end(text, start);
        let before = cells.len();
        let ghost prev = cells@;
        collect_numbers(text, start, end, &mut cells);
        let count = cells.len() - before;
        proof {
            assert(t.skip(start as int) =~= u);
            assert(u.take(end - start) =~= t.subrange(start as int, end as int));
            if end < n {
                assert(u.skip(end - start + 1) =~= t.skip(end + 1));
            }
            let rest = if end < n {
                text_cells(t.skip(end + 1))
            } else {
                seq![]
            };
            assert(prev + (numbers(t.subrange(start as int, end as int)) + rest) =~= cells@ + rest);
        }
        if count != 0 && count != cols {
            fits = false;
        }
        e = end;
    }
    if cols > 0 && !fits {
        return Err(GridError::RaggedRows);
    }
    assert(cells@ =~= text_cells(t));
    Grid::new(cells, cols)
}

} // verus!
