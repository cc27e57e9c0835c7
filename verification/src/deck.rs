//! A deck: a maindeck that never changes and a sideboard that the search
//! changes, both as counts by card name.

use crate::canonical::{append_bytes, append_sideboard, canonical_maindeck, hash_input, maindeck_bytes};
use crate::decimal::{parse_count, push_decimal};
use crate::decklist::{
    block_text, decklist_text, entry_in, lemma_write_then_read, parse_decklist, plain_name, read_block,
    skip_blank,
};
use crate::digest::{digest_of, sha1_digest};
use crate::encoding::{push_text, substring};
use crate::holdings::{
    count_of, holdings_wf, lemma_put_one, lemma_rank_of_entry, lemma_take_one, put_one, take_one, Holdings,
};
use crate::lines::{blank, next_line, position_of, split_lines, SPACE};
use crate::tally::Tally;
use crate::vanity::{in_alphabet, vanity, vanity_string};
use std::sync::Arc;
use vstd::prelude::*;
use vstd::slice::slice_subrange;
use vstd::string::StringSliceAdditionalSpecFns;
use vstd::utf8::encode_utf8;

verus! {

/// A maindeck and a sideboard.
///
/// The card names are borrowed from the text that the deck was read from,
/// and from what is handed to `insert_sideboard`. The maindeck and its
/// canonical bytes are shared by every clone.
#[derive(Debug)]
pub struct Deck<'s> {
    cached_maindeck: Arc<Vec<u8>>,
    maindeck: Arc<Tally<'s>>,
    sideboard: Tally<'s>,
}

/// The eight symbols of a deck with the sideboard `side`, the scratch bytes
/// `scratch` and the canonical maindeck bytes `main_bytes`.
pub open spec fn vanity_of(side: Holdings, scratch: Seq<u8>, main_bytes: Seq<u8>) -> Seq<u8> {
    vanity(sha1_digest(hash_input(side, scratch, main_bytes)))
}

/// Gives a second handle on a shared value, with `Arc::clone` of std. The
/// contract is not proved: it says that the new handle holds the value that
/// the old one holds.
#[verifier::external_body]
fn share<T>(handle: &Arc<T>) -> (second: Arc<T>)
    ensures
        second == *handle,
{
    Arc::clone(handle)
}

/// Reads a block of lines that begins at byte `pos` of `buf` into `seen`,
/// and says where the lines after the block begin.
fn read_block_at<'s>(buf: &'s str, pos: usize, seen: &mut Tally<'s>) -> (after: Option<usize>)
    requires
        pos <= buf.spec_bytes().len(),
        old(seen).wf(),
    ensures
        match read_block(split_lines(buf.spec_bytes().skip(pos as int)), old(seen)@) {
            Some((h, rest)) => {
                &&& after matches Some(next)
                &&& pos <= next <= buf.spec_bytes().len()
                &&& rest == split_lines(buf.spec_bytes().skip(next as int))
                &&& final(seen)@ == h
                &&& final(seen).wf()
            },
            None => after is None,
        },
{
    let text = buf.as_bytes();
    let n = text.len();
    let mut at: usize = pos;
    while at < n
        invariant
            text@ == buf.spec_bytes(),
            n == text@.len(),
            pos <= at <= n,
            seen.wf(),
            read_block(split_lines(text@.skip(pos as int)), old(seen)@) == read_block(
                split_lines(text@.skip(at as int)),
                seen@,
            ),
        decreases n - at,
    {
        let (end, next) = next_line(text, at);
        let line = slice_subrange(text, at, end);
        if blank(line) {
            return Some(next);
        }
        let k = position_of(line, SPACE);
        if k == line.len() {
            return None;
        }
        let count = match parse_count(slice_subrange(line, 0, k)) {
            Some(count) => count,
            None => {
                return None;
            },
        };
        let name = substring(buf, at + k + 1, end);
        assert(entry_in(line@) == Some((name.spec_bytes(), count as nat)));
        seen.set(name, count);
        at = next;
    }
    Some(at)
}

/// Appends the lines of `block` to `out`.
fn push_block(out: &mut String, block: &Tally<'_>)
    ensures
        encode_utf8(final(out)@) == encode_utf8(old(out)@) + block_text(block@),
{
    let n = block.len();
    let mut i: usize = 0;
    assert(block@.take(0) =~= Holdings::empty());
    while i < n
        invariant
            n == block@.len(),
            i <= n,
            encode_utf8(out@) == encode_utf8(old(out)@) + block_text(block@.take(i as int)),
        decreases n - i,
    {
        push_decimal(out, block.count_at(i));
        push_text(out, " ");
        push_text(out, block.name_at(i));
        push_text(out, "\n");
        proof {
            reveal_strlit(" ");
            reveal_strlit("\n");
            vstd::string::is_ascii_spec_bytes(" ");
            vstd::string::is_ascii_spec_bytes("\n");
            assert(block@.take(i + 1).drop_last() =~= block@.take(i as int));
        }
        i += 1;
    }
    assert(block@.take(n as int) =~= block@);
}

impl<'s> Deck<'s> {
    /// The maindeck.
    pub closed spec fn maindeck(&self) -> Holdings {
        self.maindeck@
    }

    /// The sideboard.
    pub closed spec fn sideboard(&self) -> Holdings {
        self.sideboard@
    }

    /// The bytes that are kept for the maindeck.
    pub closed spec fn maindeck_bytes(&self) -> Seq<u8> {
        self.cached_maindeck@
    }

    /// The invariant of a deck: both mappings meet theirs, and the bytes kept
    /// for the maindeck are its canonical bytes.
    pub open spec fn wf(&self) -> bool {
        &&& holdings_wf(self.maindeck())
        &&& holdings_wf(self.sideboard())
        &&& self.maindeck_bytes() == canonical_maindeck(self.maindeck())
    }

    /// `decks` are the reductions of this deck: one for each card of the
    /// sideboard, in the order of the names, with one unit of that card less
    /// and with the same maindeck.
    pub open spec fn reduces_to(&self, decks: Seq<Deck<'_>>) -> bool {
        &&& decks.len() == self.sideboard().len()
        &&& forall|i: int|
            0 <= i < decks.len() ==> {
                &&& (#[trigger] decks[i]).wf()
                &&& decks[i].maindeck() == self.maindeck()
                &&& decks[i].maindeck_bytes() == self.maindeck_bytes()
                &&& decks[i].sideboard() == take_one(self.sideboard(), self.sideboard()[i].0)
            }
    }

    /// The eight symbols of this deck with the scratch bytes `scratch`.
    pub open spec fn symbols(&self, scratch: Seq<u8>) -> Seq<u8> {
        vanity_of(self.sideboard(), scratch, self.maindeck_bytes())
    }

    /// Every count of a deck fits the machine word it is kept in.
    pub proof fn lemma_counts_fit(&self)
        ensures
            forall|i: int| 0 <= i < self.maindeck().len() ==> (#[trigger] self.maindeck()[i]).1 <= usize::MAX,
            forall|i: int| 0 <= i < self.sideboard().len() ==> (#[trigger] self.sideboard()[i]).1 <= usize::MAX,
            forall|name: Seq<u8>| #[trigger] count_of(self.sideboard(), name) <= usize::MAX,
    {
        self.maindeck.lemma_counts_fit();
        self.sideboard.lemma_counts_fit();
    }

    /// The symbols of a deck depend on its sideboard, on the scratch bytes
    /// and on the bytes kept for its maindeck, and on nothing else: hashed
    /// twice, or in two decks that agree in these, they are the same.
    pub proof fn lemma_same_input_same_symbols(&self, other: &Deck<'_>, scratch: Seq<u8>)
        requires
            self.sideboard() == other.sideboard(),
            self.maindeck_bytes() == other.maindeck_bytes(),
        ensures
            self.symbols(scratch) == other.symbols(scratch),
    {
    }

    /// The decklist of a deck describes that deck: read again, it gives the
    /// same names with the same counts, in the maindeck and in the sideboard.
    ///
    /// This holds where no name holds a line feed or ends in a carriage
    /// return, and the deck has a maindeck or else no sideboard either.
    pub proof fn lemma_decklist_reads_back(&self)
        requires
            self.wf(),
            forall|i: int| 0 <= i < self.maindeck().len() ==> plain_name(#[trigger] self.maindeck()[i].0),
            forall|i: int| 0 <= i < self.sideboard().len() ==> plain_name(#[trigger] self.sideboard()[i].0),
            self.maindeck().len() > 0 || self.sideboard().len() == 0,
        ensures
            parse_decklist(decklist_text(self.maindeck(), self.sideboard())) == Some(
                (self.maindeck(), self.sideboard()),
            ),
    {
        self.lemma_counts_fit();
        lemma_write_then_read(self.maindeck(), self.sideboard());
    }

    /// Reads a deck from a decklist: the lines of the maindeck, a blank
    /// line, the lines of the sideboard. There is a deck exactly if the
    /// text describes one.
    pub fn import(buf: &'s str) -> (deck: Option<Self>)
        ensures
            match parse_decklist(buf.spec_bytes()) {
                Some((main, side)) => {
                    &&& deck matches Some(d)
                    &&& d.wf()
                    &&& d.maindeck() == main
                    &&& d.sideboard() == side
                },
                None => deck is None,
            },
    {
        let text = buf.as_bytes();
        let n = text.len();
        let mut pos: usize = 0;
        assert(text@.skip(0) =~= text@);
        while pos < n
            invariant
                text@ == buf.spec_bytes(),
                n == text@.len(),
                pos <= n,
                skip_blank(split_lines(text@)) == skip_blank(split_lines(text@.skip(pos as int))),
            ensures
                pos <= n,
                skip_blank(split_lines(text@)) == split_lines(text@.skip(pos as int)),
            decreases n - pos,
        {
            let (end, next) = next_line(text, pos);
            if !blank(slice_subrange(text, pos, end)) {
                break;
            }
            pos = next;
        }
        let mut maindeck = Tally::new();
        let pos = match read_block_at(buf, pos, &mut maindeck) {
            Some(pos) => pos,
            None => {
                return None;
            },
        };
        let mut sideboard = Tally::new();
        if read_block_at(buf, pos, &mut sideboard).is_none() {
            return None;
        }
        let cached_maindeck = maindeck_bytes(&maindeck);
        Some(Deck { cached_maindeck: Arc::new(cached_maindeck), maindeck: Arc::new(maindeck), sideboard })
    }

    /// The eight symbols of the deck: the hash input is digested, and the
    /// digest's first forty bits are written in base 32. `buffer` holds the
    /// scratch bytes and is left as it is.
    pub fn base32(&self, buffer: &mut String) -> (out: [u8; 8])
        ensures
            out@ == self.symbols(encode_utf8(old(buffer)@)),
            forall|i: int| 0 <= i < 8 ==> in_alphabet(#[trigger] out@[i]),
            final(buffer)@ == old(buffer)@,
    {
        let mut input: Vec<u8> = Vec::new();
        append_sideboard(&mut input, &self.sideboard);
        append_bytes(&mut input, buffer.as_str().as_bytes());
        append_bytes(&mut input, self.cached_maindeck.as_slice());
        let digest = digest_of(input.as_slice());
        vanity_string(&digest)
    }

    /// Gives the reductions of the deck: for each card of the sideboard, in
    /// the order of the names, the deck with one unit of that card less.
    pub fn enumerate_reductions(&self) -> (decks: Vec<Deck<'s>>)
        requires
            self.wf(),
        ensures
            self.reduces_to(decks@),
    {
        let n = self.sideboard.len();
        let mut decks: Vec<Deck<'s>> = Vec::new();
        let mut i: usize = 0;
        while i < n
            invariant
                self.wf(),
                n == self.sideboard().len(),
                i <= n,
                decks@.len() == i,
                forall|j: int|
                    0 <= j < i ==> {
                        &&& (#[trigger] decks@[j]).wf()
                        &&& decks@[j].maindeck() == self.maindeck()
                        &&& decks@[j].maindeck_bytes() == self.maindeck_bytes()
                        &&& decks@[j].sideboard() == take_one(self.sideboard(), self.sideboard()[j].0)
                    },
            decreases n - i,
        {
            let name = self.sideboard.name_at(i);
            let mut deck = self.clone();
            proof {
                lemma_rank_of_entry(self.sideboard(), i as int);
            }
            deck.sideboard.remove_one(name);
            decks.push(deck);
            i += 1;
        }
        decks
    }

    /// Gives the reductions of a deck that is given up for them.
    pub fn removed(self) -> (decks: Vec<Deck<'s>>)
        requires
            self.wf(),
        ensures
            self.reduces_to(decks@),
    {
        self.enumerate_reductions()
    }

    /// Adds one unit of `card` to the sideboard.
    pub fn insert_sideboard(&mut self, card: &'s str)
        requires
            old(self).wf(),
            count_of(old(self).sideboard(), card.spec_bytes()) < usize::MAX,
        ensures
            final(self).wf(),
            final(self).maindeck() == old(self).maindeck(),
            final(self).maindeck_bytes() == old(self).maindeck_bytes(),
            final(self).sideboard() == put_one(old(self).sideboard(), card.spec_bytes()),
            count_of(final(self).sideboard(), card.spec_bytes()) == count_of(
                old(self).sideboard(),
                card.spec_bytes(),
            ) + 1,
            forall|other: Seq<u8>|
                other != card.spec_bytes() ==> #[trigger] count_of(final(self).sideboard(), other) == count_of(
                    old(self).sideboard(),
                    other,
                ),
    {
        proof {
            lemma_put_one(self.sideboard(), card.spec_bytes());
        }
        self.sideboard.add_one(card);
    }

    /// Takes one unit of `card` from the sideboard; a card leaves it with
    /// its last unit. The sideboard must hold the card.
    pub fn remove_sideboard(&mut self, card: &'s str)
        requires
            old(self).wf(),
            count_of(old(self).sideboard(), card.spec_bytes()) > 0,
        ensures
            final(self).wf(),
            final(self).maindeck() == old(self).maindeck(),
            final(self).maindeck_bytes() == old(self).maindeck_bytes(),
            final(self).sideboard() == take_one(old(self).sideboard(), card.spec_bytes()),
            count_of(final(self).sideboard(), card.spec_bytes()) == count_of(
                old(self).sideboard(),
                card.spec_bytes(),
            ) - 1,
            forall|other: Seq<u8>|
                other != card.spec_bytes() ==> #[trigger] count_of(final(self).sideboard(), other) == count_of(
                    old(self).sideboard(),
                    other,
                ),
    {
        proof {
            lemma_take_one(self.sideboard(), card.spec_bytes());
        }
        self.sideboard.remove_one(card);
    }

    /// How many units of `card` the maindeck holds.
    pub fn maindeck_count(&self, card: &str) -> (count: usize)
        requires
            self.wf(),
        ensures
            count == count_of(self.maindeck(), card.spec_bytes()),
    {
        self.maindeck.count(card)
    }

    /// How many units of `card` the sideboard holds.
    pub fn sideboard_count(&self, card: &str) -> (count: usize)
        requires
            self.wf(),
        ensures
            count == count_of(self.sideboard(), card.spec_bytes()),
    {
        self.sideboard.count(card)
    }

    /// The decklist of the deck: a line for each card of the maindeck, a
    /// blank line, a line for each card of the sideboard.
    pub fn to_string(&self) -> (text: String)
        ensures
            encode_utf8(text@) == decklist_text(self.maindeck(), self.sideboard()),
    {
        let mut text = String::new();
        push_block(&mut text, &self.maindeck);
        push_text(&mut text, "\n");
        proof {
            reveal_strlit("\n");
            vstd::string::is_ascii_spec_bytes("\n");
        }
        push_block(&mut text, &self.sideboard);
        text
    }
}

impl<'s> Clone for Deck<'s> {
    /// A deck with the same maindeck, which it shares, and a sideboard of
    /// its own with the same counts.
    fn clone(&self) -> (deck: Self)
        ensures
            deck.maindeck() == self.maindeck(),
            deck.maindeck_bytes() == self.maindeck_bytes(),
            deck.sideboard() == self.sideboard(),
            self.wf() ==> deck.wf(),
    {
        Deck {
            cached_maindeck: share(&self.cached_maindeck),
            maindeck: share(&self.maindeck),
            sideboard: self.sideboard.clone(),
        }
    }
}

impl<'s> Default for Deck<'s> {
    /// The deck without a card.
    fn default() -> (deck: Self)
        ensures
            deck.wf(),
            deck.maindeck() == Holdings::empty(),
            deck.sideboard() == Holdings::empty(),
    {
        let maindeck = Tally::new();
        let cached_maindeck = maindeck_bytes(&maindeck);
        Deck { cached_maindeck: Arc::new(cached_maindeck), maindeck: Arc::new(maindeck), sideboard: Tally::new() }
    }
}

} // verus!
