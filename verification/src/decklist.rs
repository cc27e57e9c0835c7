//! The decklist format: two blocks of lines, the maindeck and the sideboard,
//! with a blank line between them. Each line of a block is a count, one
//! space and a card name.

use crate::decimal::{count_in, decimal, lemma_count_in_decimal, lemma_decimal};
use crate::holdings::{holdings_wf, lemma_rank_is, put, Holdings};
use crate::lines::{
    find_byte, is_blank, lemma_find_byte_is, lemma_split_first_line, split_lines, strip_return,
    CARRIAGE_RETURN, LINE_FEED, SPACE,
};
use vstd::prelude::*;

verus! {

/// What a line says: the count that stands before its first space, and the
/// name, which is all that follows that space. A line without a space, or
/// with no count before it, says nothing.
pub open spec fn entry_in(line: Seq<u8>) -> Option<(Seq<u8>, nat)> {
    let k = find_byte(line, SPACE);
    if 0 <= k < line.len() {
        match count_in(line.take(k)) {
            Some(count) => Some((line.skip(k + 1), count)),
            None => None,
        }
    } else {
        None
    }
}

/// The lines from the first that is not blank.
pub open spec fn skip_blank(lines: Seq<Seq<u8>>) -> Seq<Seq<u8>>
    decreases lines.len(),
{
    if lines.len() > 0 && is_blank(lines[0]) {
        skip_blank(lines.drop_first())
    } else {
        lines
    }
}

/// Reads a block into `seen`: the lines up to the first blank one or to the
/// end, each of which sets the count of its name. Gives the mapping and the
/// lines that follow the blank line, or nothing where a line of the block
/// says nothing.
pub open spec fn read_block(lines: Seq<Seq<u8>>, seen: Holdings) -> Option<(Holdings, Seq<Seq<u8>>)>
    decreases lines.len(),
{
    if lines.len() == 0 {
        Some((seen, lines))
    } else if is_blank(lines[0]) {
        Some((seen, lines.drop_first()))
    } else {
        match entry_in(lines[0]) {
            Some((name, count)) => read_block(lines.drop_first(), put(seen, name, count)),
            None => None,
        }
    }
}

/// The maindeck and the sideboard that a text describes. Blank lines before
/// the first block are passed over; what follows the second block is not
/// read.
pub open spec fn parse_decklist(text: Seq<u8>) -> Option<(Holdings, Holdings)> {
    match read_block(skip_blank(split_lines(text)), Seq::empty()) {
        Some((main, rest)) => match read_block(rest, Seq::empty()) {
            Some((side, _)) => Some((main, side)),
            None => None,
        },
        None => None,
    }
}

/// The line of an entry, without the line feed.
pub open spec fn bare_line(entry: (Seq<u8>, nat)) -> Seq<u8> {
    decimal(entry.1) + seq![SPACE] + entry.0
}

/// The lines of a mapping, each with its line feed.
pub open spec fn block_text(h: Holdings) -> Seq<u8>
    decreases h.len(),
{
    if h.len() == 0 {
        Seq::empty()
    } else {
        block_text(h.drop_last()) + bare_line(h.last()) + seq![LINE_FEED]
    }
}

/// The text of a deck: the maindeck, a blank line, the sideboard.
pub open spec fn decklist_text(main: Holdings, side: Holdings) -> Seq<u8> {
    block_text(main) + seq![LINE_FEED] + block_text(side)
}

/// A name that a line can carry: it holds no line feed and does not end in
/// a carriage return.
pub open spec fn plain_name(name: Seq<u8>) -> bool {
    &&& forall|i: int| 0 <= i < name.len() ==> name[i] != LINE_FEED
    &&& name.len() > 0 ==> name.last() != CARRIAGE_RETURN
}

/// A mapping that can be written and read again: it meets the invariant, its
/// names are plain and its counts fit a `usize`.
pub open spec fn writable(h: Holdings) -> bool {
    &&& holdings_wf(h)
    &&& forall|i: int| 0 <= i < h.len() ==> plain_name(#[trigger] h[i].0)
    &&& forall|i: int| 0 <= i < h.len() ==> (#[trigger] h[i]).1 <= usize::MAX
}

/// The bare lines of a mapping.
pub open spec fn block_lines(h: Holdings) -> Seq<Seq<u8>> {
    Seq::new(h.len(), |i: int| bare_line(h[i]))
}

/// The text of a mapping is the line of its first entry and the text of the rest.
proof fn lemma_block_text_front(h: Holdings)
    requires
        h.len() > 0,
    ensures
        block_text(h) == bare_line(h[0]) + seq![LINE_FEED] + block_text(h.drop_first()),
    decreases h.len(),
{
    if h.len() == 1 {
        assert(h.drop_last() =~= Holdings::empty());
        assert(h.drop_first() =~= Holdings::empty());
    } else {
        let t = h.drop_last();
        lemma_block_text_front(t);
        assert(h.drop_first().drop_last() =~= t.drop_first());
    }
}

/// The line of an entry with a plain name and a count that fits says that
/// entry, is not blank, holds no line feed and ends in no carriage return.
proof fn lemma_bare_line(entry: (Seq<u8>, nat))
    requires
        plain_name(entry.0),
        0 < entry.1 <= usize::MAX,
    ensures
        entry_in(bare_line(entry)) == Some(entry),
        !is_blank(bare_line(entry)),
        strip_return(bare_line(entry)) == bare_line(entry),
        forall|i: int| 0 <= i < bare_line(entry).len() ==> bare_line(entry)[i] != LINE_FEED,
{
    let digits = decimal(entry.1);
    let line = bare_line(entry);
    let k = digits.len() as int;
    lemma_decimal(entry.1);
    lemma_count_in_decimal(entry.1);
    // The digits hold no space, so the first one is the one that follows them.
    lemma_find_byte_is(line, SPACE, k);
    assert(line.take(k) =~= digits);
}

/// The lines of a text that begins with the text of a mapping are the bare
/// lines of the mapping and then the lines of what follows.
proof fn lemma_lines_of_block(h: Holdings, rest: Seq<u8>)
    requires
        writable(h),
    ensures
        split_lines(block_text(h) + rest) == block_lines(h) + split_lines(rest),
    decreases h.len(),
{
    if h.len() > 0 {
        let t = h.drop_first();
        lemma_block_text_front(h);
        lemma_bare_line(h[0]);
        lemma_lines_of_block(t, rest);
        assert(block_text(h) + rest =~= bare_line(h[0]) + seq![LINE_FEED] + (block_text(t) + rest));
        lemma_split_first_line(bare_line(h[0]), block_text(t) + rest);
    }
}

/// Reading the bare lines of a mapping from its entry `i` on, with the
/// entries before it seen already, leaves the whole mapping seen and goes on
/// with the lines that follow.
proof fn lemma_read_lines_of_block(h: Holdings, i: int, tail: Seq<Seq<u8>>)
    requires
        writable(h),
        0 <= i <= h.len(),
    ensures
        read_block(block_lines(h).skip(i) + tail, h.take(i)) == read_block(tail, h),
    decreases h.len() - i,
{
    let lines = block_lines(h).skip(i) + tail;
    if i == h.len() {
        assert(h.take(i) =~= h);
    } else {
        let seen = h.take(i);
        let name = h[i].0;
        lemma_bare_line(h[i]);
        assert(lines.drop_first() =~= block_lines(h).skip(i + 1) + tail);
        // The name sorts after every name seen, so its entry goes to the end.
        lemma_rank_is(seen, name, i);
        assert(put(seen, name, h[i].1) =~= h.take(i + 1));
        lemma_read_lines_of_block(h, i + 1, tail);
    }
}

/// A deck that is written as text and read back is the deck there was: the
/// same names with the same counts, in the maindeck and in the sideboard.
///
/// This holds of names that a line can carry, and of a deck that has a
/// maindeck or else no sideboard either: a sideboard alone would be read as
/// the maindeck.
pub proof fn lemma_write_then_read(main: Holdings, side: Holdings)
    requires
        writable(main),
        writable(side),
        main.len() > 0 || side.len() == 0,
    ensures
        parse_decklist(decklist_text(main, side)) == Some((main, side)),
{
    let none = Holdings::empty();
    let gap = Seq::<u8>::empty();
    let text = decklist_text(main, side);
    let after = seq![gap] + block_lines(side);
    let lines = block_lines(main) + after;

    assert(split_lines(text) == lines) by {
        lemma_lines_of_block(side, gap);
        lemma_split_first_line(gap, block_text(side));
        lemma_lines_of_block(main, seq![LINE_FEED] + block_text(side));
        assert(text =~= block_text(main) + (seq![LINE_FEED] + block_text(side)));
    }
    assert(after.drop_first() =~= block_lines(side));
    assert(side.take(0) =~= none);
    assert(block_lines(side).skip(0) + Seq::<Seq<u8>>::empty() =~= block_lines(side));
    lemma_read_lines_of_block(side, 0, Seq::<Seq<u8>>::empty());

    if main.len() == 0 {
        assert(skip_blank(lines) == skip_blank(lines.drop_first()));
    } else {
        lemma_bare_line(main[0]);
        assert(main.take(0) =~= none);
        assert(block_lines(main).skip(0) + after =~= lines);
        lemma_read_lines_of_block(main, 0, after);
    }
}

} // verus!
