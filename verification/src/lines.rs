//! Lines of a text, and which of them are blank.
//!
//! A text is taken as its UTF-8 bytes. A line ends with a line feed, or with
//! a carriage return and a line feed; neither belongs to the line. What
//! follows the last line feed is a line of its own unless it is empty.

use vstd::prelude::*;

verus! {

pub const LINE_FEED: u8 = 0x0a;

pub const CARRIAGE_RETURN: u8 = 0x0d;

pub const SPACE: u8 = 0x20;

/// The index of the first `b` in `s`, or the length of `s` where it holds none.
pub open spec fn find_byte(s: Seq<u8>, b: u8) -> int
    decreases s.len(),
{
    if s.len() == 0 || s[0] == b {
        0
    } else {
        1 + find_byte(s.drop_first(), b)
    }
}

/// An index that no `b` stands before, and that a `b` stands at unless it is
/// the length, is what `find_byte` returns.
pub proof fn lemma_find_byte_is(s: Seq<u8>, b: u8, k: int)
    requires
        0 <= k <= s.len(),
        forall|i: int| 0 <= i < k ==> s[i] != b,
        k < s.len() ==> s[k] == b,
    ensures
        find_byte(s, b) == k,
    decreases s.len(),
{
    if k > 0 {
        lemma_find_byte_is(s.drop_first(), b, k - 1);
    }
}

/// Finds the first `b` in `s`.
pub fn position_of(s: &[u8], b: u8) -> (k: usize)
    ensures
        k == find_byte(s@, b),
        k <= s@.len(),
        k < s@.len() ==> s@[k as int] == b,
{
    let mut k: usize = 0;
    while k < s.len() && s[k] != b
        invariant
            k <= s@.len(),
            forall|i: int| 0 <= i < k ==> s@[i] != b,
        decreases s@.len() - k,
    {
        k += 1;
    }
    proof {
        lemma_find_byte_is(s@, b, k as int);
    }
    k
}

/// A line without the carriage return that may end it.
pub open spec fn strip_return(line: Seq<u8>) -> Seq<u8> {
    if line.len() > 0 && line.last() == CARRIAGE_RETURN {
        line.drop_last()
    } else {
        line
    }
}

/// The lines of a text.
pub open spec fn split_lines(text: Seq<u8>) -> Seq<Seq<u8>>
    decreases text.len(),
{
    if text.len() == 0 {
        Seq::empty()
    } else {
        let k = find_byte(text, LINE_FEED);
        if 0 <= k < text.len() {
            seq![strip_return(text.take(k))] + split_lines(text.skip(k + 1))
        } else {
            seq![text]
        }
    }
}

/// A text that begins with a line and its line feed has that line first,
/// and then the lines of the rest.
pub proof fn lemma_split_first_line(line: Seq<u8>, rest: Seq<u8>)
    requires
        forall|i: int| 0 <= i < line.len() ==> line[i] != LINE_FEED,
    ensures
        split_lines(line + seq![LINE_FEED] + rest) == seq![strip_return(line)] + split_lines(rest),
{
    let text = line + seq![LINE_FEED] + rest;
    let k = line.len() as int;
    lemma_find_byte_is(text, LINE_FEED, k);
    assert(text.take(k) =~= line);
    assert(text.skip(k + 1) =~= rest);
}

/// Where the line that begins at `pos` ends, and where the next one begins:
/// behind the first line feed from `pos` on, or at the end of the text.
pub fn next_line(text: &[u8], pos: usize) -> (r: (usize, usize))
    requires
        pos < text@.len(),
    ensures
        pos <= r.0 <= r.1 <= text@.len(),
        r.1 == if pos + find_byte(text@.skip(pos as int), LINE_FEED) < text@.len() {
            pos + find_byte(text@.skip(pos as int), LINE_FEED) + 1
        } else {
            text@.len() as int
        },
        r.0 == text@.len() || text@[r.0 as int] == LINE_FEED || text@[r.0 as int] == CARRIAGE_RETURN,
        split_lines(text@.skip(pos as int)).len() > 0,
        split_lines(text@.skip(pos as int))[0] == text@.subrange(pos as int, r.0 as int),
        split_lines(text@.skip(pos as int)).drop_first() == split_lines(text@.skip(r.1 as int)),
{
    let ghost tail = text@.skip(pos as int);
    let mut stop: usize = pos;
    while stop < text.len() && text[stop] != LINE_FEED
        invariant
            pos <= stop <= text@.len(),
            forall|i: int| pos <= i < stop ==> text@[i] != LINE_FEED,
        decreases text@.len() - stop,
    {
        stop += 1;
    }
    proof {
        lemma_find_byte_is(tail, LINE_FEED, stop - pos);
    }
    if stop == text.len() {
        (stop, stop)
    } else {
        let end = if stop > pos && text[stop - 1] == CARRIAGE_RETURN {
            stop - 1
        } else {
            stop
        };
        assert(tail.skip(stop - pos + 1) =~= text@.skip(stop + 1));
        (end, stop + 1)
    }
}

/// The number of bytes that the white-space character at the start of `s`
/// takes, or zero where `s` does not begin with one.
///
/// White space is what Unicode gives the property `White_Space`: the
/// characters U+0009 to U+000D, U+0020, U+0085, U+00A0, U+1680, U+2000 to
/// U+200A, U+2028, U+2029, U+202F, U+205F and U+3000.
pub open spec fn space_width(s: Seq<u8>) -> int {
    if s.len() >= 1 && (0x09 <= s[0] <= 0x0d || s[0] == 0x20) {
        1
    } else if s.len() >= 2 && s[0] == 0xc2 && (s[1] == 0x85 || s[1] == 0xa0) {
        2
    } else if s.len() >= 3 && wide_space(s[0], s[1], s[2]) {
        3
    } else {
        0
    }
}

/// The three bytes encode a white-space character.
pub open spec fn wide_space(a: u8, b: u8, c: u8) -> bool {
    ||| a == 0xe1 && b == 0x9a && c == 0x80
    ||| a == 0xe2 && b == 0x80 && (0x80 <= c <= 0x8a || c == 0xa8 || c == 0xa9 || c == 0xaf)
    ||| a == 0xe2 && b == 0x81 && c == 0x9f
    ||| a == 0xe3 && b == 0x80 && c == 0x80
}

/// The line holds white space only.
pub open spec fn is_blank(line: Seq<u8>) -> bool
    decreases line.len(),
{
    line.len() == 0 || (0 < space_width(line) <= line.len() && is_blank(line.skip(space_width(line))))
}

/// Tells whether a line holds white space only.
pub fn blank(line: &[u8]) -> (r: bool)
    ensures
        r == is_blank(line@),
{
    let n = line.len();
    let mut i: usize = 0;
    assert(line@.skip(0) =~= line@);
    while i < n
        invariant
            n == line@.len(),
            i <= n,
            is_blank(line@) == is_blank(line@.skip(i as int)),
        decreases n - i,
    {
        let ghost tail = line@.skip(i as int);
        let a = line[i];
        let width: usize = if (0x09 <= a && a <= 0x0d) || a == 0x20 {
            1
        } else if n - i >= 2 && a == 0xc2 && (line[i + 1] == 0x85 || line[i + 1] == 0xa0) {
            2
        } else if n - i >= 3 && is_wide_space(a, line[i + 1], line[i + 2]) {
            3
        } else {
            0
        };
        if width == 0 {
            return false;
        }
        assert(tail.skip(width as int) =~= line@.skip(i + width));
        i += width;
    }
    true
}

/// Tells whether three bytes encode a white-space character.
fn is_wide_space(a: u8, b: u8, c: u8) -> (r: bool)
    ensures
        r == wide_space(a, b, c),
{
    (a == 0xe1 && b == 0x9a && c == 0x80)
        || (a == 0xe2 && b == 0x80 && ((0x80 <= c && c <= 0x8a) || c == 0xa8 || c == 0xa9 || c == 0xaf))
        || (a == 0xe2 && b == 0x81 && c == 0x9f)
        || (a == 0xe3 && b == 0x80 && c == 0x80)
}

} // verus!
