//! The candidates for a deck, and the search among them for one whose eight
//! symbols begin with a chosen prefix.

use crate::deck::{vanity_of, Deck};
use crate::holdings::{count_of, holdings_wf, lemma_put_then_take, lemma_take_one, put_one, take_one, Holdings};
use crate::vanity::{begins_with, in_alphabet, lemma_never_begins, starts_with};
use rayon::iter::{IntoParallelIterator, ParallelIterator};
use vstd::prelude::*;
use vstd::string::StringSliceAdditionalSpecFns;

verus! {

/// The card names of a pool as bytes.
pub open spec fn names(pool: Seq<&str>) -> Seq<Seq<u8>> {
    Seq::new(pool.len(), |j: int| pool[j].spec_bytes())
}

/// The sideboards of some decks.
pub open spec fn sideboards(decks: Seq<Deck<'_>>) -> Seq<Holdings> {
    Seq::new(decks.len(), |i: int| decks[i].sideboard())
}

/// Every deck meets its invariant and has the maindeck of `origin`.
pub open spec fn descend_from(decks: Seq<Deck<'_>>, origin: Deck<'_>) -> bool {
    forall|i: int|
        0 <= i < decks.len() ==> {
            &&& (#[trigger] decks[i]).wf()
            &&& decks[i].maindeck() == origin.maindeck()
            &&& decks[i].maindeck_bytes() == origin.maindeck_bytes()
        }
}

/// Every deck meets its invariant.
pub open spec fn all_wf(decks: Seq<Deck<'_>>) -> bool {
    forall|i: int| 0 <= i < decks.len() ==> (#[trigger] decks[i]).wf()
}

/// For each card of `h`, in order, `h` with one unit of it less.
pub open spec fn drop_one(h: Holdings) -> Seq<Holdings> {
    Seq::new(h.len(), |i: int| take_one(h, h[i].0))
}

/// What `drop_one` gives for each of `hs`, in a row.
pub open spec fn drop_one_of_each(hs: Seq<Holdings>) -> Seq<Holdings>
    decreases hs.len(),
{
    if hs.len() == 0 {
        Seq::empty()
    } else {
        drop_one_of_each(hs.drop_last()) + drop_one(hs.last())
    }
}

/// For each name of the pool, in order, `h` with one unit of it more.
pub open spec fn with_one(h: Holdings, pool: Seq<Seq<u8>>) -> Seq<Holdings> {
    Seq::new(pool.len(), |j: int| put_one(h, pool[j]))
}

/// What `with_one` gives for each of `hs`, in a row.
pub open spec fn with_one_of_each(hs: Seq<Holdings>, pool: Seq<Seq<u8>>) -> Seq<Holdings>
    decreases hs.len(),
{
    if hs.len() == 0 {
        Seq::empty()
    } else {
        with_one_of_each(hs.drop_last(), pool) + with_one(hs.last(), pool)
    }
}

/// The sideboards of the candidates for a deck with the sideboard `h`: two
/// units are dropped, of one card or of two, and one unit of a pool card is
/// added.
pub open spec fn candidate_sideboards(h: Holdings, pool: Seq<Seq<u8>>) -> Seq<Holdings> {
    with_one_of_each(drop_one_of_each(drop_one(h)), pool)
}

/// No count of `h` is above what `origin` has for the same name.
pub open spec fn no_more(h: Holdings, origin: Holdings) -> bool {
    forall|name: Seq<u8>| #[trigger] count_of(h, name) <= count_of(origin, name)
}

/// No count of `h` is more than one above what `origin` has for the same
/// name.
pub open spec fn one_more_at_most(h: Holdings, origin: Holdings) -> bool {
    forall|name: Seq<u8>| #[trigger] count_of(h, name) <= count_of(origin, name) + 1
}

/// One more unit of any pool card fits each of the sideboards.
pub open spec fn room(decks: Seq<Deck<'_>>, pool: Seq<Seq<u8>>) -> bool {
    forall|i: int, j: int|
        0 <= i < decks.len() && 0 <= j < pool.len() ==> #[trigger] count_of(decks[i].sideboard(), pool[j])
            < usize::MAX
}

/// With one unit of `card` more, the deck's symbols begin with `prefix`.
/// The scratch bytes are empty.
pub open spec fn hits(side: Holdings, main_bytes: Seq<u8>, card: Seq<u8>, prefix: Seq<u8>) -> bool {
    begins_with(vanity_of(put_one(side, card), Seq::empty(), main_bytes), prefix)
}

/// `j` is the first card of the pool that hits.
pub open spec fn first_hit(side: Holdings, main_bytes: Seq<u8>, pool: Seq<Seq<u8>>, prefix: Seq<u8>, j: int) -> bool {
    &&& 0 <= j < pool.len()
    &&& hits(side, main_bytes, pool[j], prefix)
    &&& forall|i: int| 0 <= i < j ==> !hits(side, main_bytes, #[trigger] pool[i], prefix)
}

/// No card of the pool hits.
pub open spec fn misses(side: Holdings, main_bytes: Seq<u8>, pool: Seq<Seq<u8>>, prefix: Seq<u8>) -> bool {
    forall|j: int| 0 <= j < pool.len() ==> !hits(side, main_bytes, #[trigger] pool[j], prefix)
}

/// What trying one candidate gives: the candidate with one unit more of the
/// first pool card that hits, or nothing where no pool card hits.
pub open spec fn outcome(candidate: Deck<'_>, pool: Seq<Seq<u8>>, prefix: Seq<u8>, found: Option<Deck<'_>>) -> bool {
    match found {
        Some(deck) => {
            &&& deck.wf()
            &&& deck.maindeck() == candidate.maindeck()
            &&& deck.maindeck_bytes() == candidate.maindeck_bytes()
            &&& exists|j: int|
                first_hit(candidate.sideboard(), candidate.maindeck_bytes(), pool, prefix, j)
                    && deck.sideboard() == put_one(candidate.sideboard(), #[trigger] pool[j])
        },
        None => misses(candidate.sideboard(), candidate.maindeck_bytes(), pool, prefix),
    }
}

/// A prefix that nothing can begin with: it is longer than eight bytes, or
/// one of its bytes is none of `0` to `9` and `a` to `v`.
pub open spec fn unmatchable(prefix: Seq<u8>) -> bool {
    prefix.len() > 8 || exists|i: int| 0 <= i < prefix.len() && !in_alphabet(prefix[i])
}

/// With an unmatchable prefix no card hits, whatever the deck.
pub proof fn lemma_unmatchable_misses(side: Holdings, main_bytes: Seq<u8>, pool: Seq<Seq<u8>>, prefix: Seq<u8>)
    requires
        unmatchable(prefix),
    ensures
        misses(side, main_bytes, pool, prefix),
{
    assert forall|j: int| 0 <= j < pool.len() implies !hits(side, main_bytes, #[trigger] pool[j], prefix) by {
        lemma_never_begins(
            crate::digest::sha1_digest(
                crate::canonical::hash_input(put_one(side, pool[j]), Seq::empty(), main_bytes),
            ),
            prefix,
        );
    }
}

/// Where the first card of the pool hits for a candidate, trying that
/// candidate gives it with one unit more of that card, and of no other.
pub proof fn lemma_known_card_is_found(
    candidate: Deck<'_>,
    pool: Seq<Seq<u8>>,
    prefix: Seq<u8>,
    found: Option<Deck<'_>>,
)
    requires
        pool.len() > 0,
        hits(candidate.sideboard(), candidate.maindeck_bytes(), pool[0], prefix),
        outcome(candidate, pool, prefix, found),
    ensures
        found matches Some(deck) && deck.sideboard() == put_one(candidate.sideboard(), pool[0]),
{
    if found is Some {
        let j = choose|j: int|
            first_hit(candidate.sideboard(), candidate.maindeck_bytes(), pool, prefix, j) && found->0.sideboard()
                == put_one(candidate.sideboard(), #[trigger] pool[j]);
        // No card before the first that hits does hit, so the first is the one at the front.
        assert(j == 0);
    }
}

/// Taking a unit away leaves no count higher than it was.
proof fn lemma_take_one_no_more(h: Holdings, name: Seq<u8>, origin: Holdings)
    requires
        holdings_wf(h),
        no_more(h, origin),
    ensures
        no_more(take_one(h, name), origin),
{
    lemma_take_one(h, name);
    assert forall|x: Seq<u8>| #[trigger] count_of(take_one(h, name), x) <= count_of(origin, x) by {
        assert(count_of(h, x) <= count_of(origin, x));
    }
}

/// Expands a deck into its candidates: one unit is dropped of each card of
/// the sideboard, then one again of each card that is left, and to each
/// sideboard so reached one unit of each pool card is added.
pub fn candidate_pool<'s>(deck: Deck<'s>, pool: &[&'s str]) -> (candidates: Vec<Deck<'s>>)
    requires
        deck.wf(),
        forall|j: int| 0 <= j < pool@.len() ==> count_of(deck.sideboard(), #[trigger] names(pool@)[j]) < usize::MAX,
    ensures
        sideboards(candidates@) == candidate_sideboards(deck.sideboard(), names(pool@)),
        descend_from(candidates@, deck),
        forall|k: int|
            0 <= k < candidates@.len() ==> one_more_at_most(#[trigger] candidates@[k].sideboard(), deck.sideboard()),
{
    let ghost origin = deck.sideboard();
    let ghost cards = names(pool@);
    let once = deck.enumerate_reductions();
    assert(sideboards(once@) =~= drop_one(origin));
    assert forall|i: int| 0 <= i < once@.len() implies no_more(#[trigger] once@[i].sideboard(), origin) by {
        lemma_take_one_no_more(origin, origin[i].0, origin);
    }

    let mut twice: Vec<Deck<'s>> = Vec::new();
    let mut i: usize = 0;
    while i < once.len()
        invariant
            i <= once@.len(),
            descend_from(once@, deck),
            descend_from(twice@, deck),
            forall|k: int| 0 <= k < once@.len() ==> no_more(#[trigger] once@[k].sideboard(), origin),
            forall|k: int| 0 <= k < twice@.len() ==> no_more(#[trigger] twice@[k].sideboard(), origin),
            sideboards(twice@) == drop_one_of_each(sideboards(once@).take(i as int)),
        decreases once@.len() - i,
    {
        let mut more = once[i].enumerate_reductions();
        proof {
            let from = once@[i as int].sideboard();
            assert forall|k: int| 0 <= k < more@.len() implies no_more(#[trigger] more@[k].sideboard(), origin) by {
                lemma_take_one_no_more(from, from[k].0, origin);
            }
            assert(sideboards(once@).take(i + 1).drop_last() =~= sideboards(once@).take(i as int));
        }
        twice.append(&mut more);
        i += 1;
    }
    assert(sideboards(once@).take(once@.len() as int) =~= sideboards(once@));

    let mut candidates: Vec<Deck<'s>> = Vec::new();
    let mut i: usize = 0;
    while i < twice.len()
        invariant
            i <= twice@.len(),
            cards == names(pool@),
            origin == deck.sideboard(),
            forall|j: int| 0 <= j < pool@.len() ==> count_of(origin, #[trigger] cards[j]) < usize::MAX,
            descend_from(twice@, deck),
            descend_from(candidates@, deck),
            forall|k: int| 0 <= k < twice@.len() ==> no_more(#[trigger] twice@[k].sideboard(), origin),
            forall|k: int|
                0 <= k < candidates@.len() ==> one_more_at_most(#[trigger] candidates@[k].sideboard(), origin),
            sideboards(candidates@) == with_one_of_each(sideboards(twice@).take(i as int), cards),
        decreases twice@.len() - i,
    {
        let ghost from = twice@[i as int].sideboard();
        let ghost before = sideboards(candidates@);
        let mut j: usize = 0;
        while j < pool.len()
            invariant
                i < twice@.len(),
                j <= pool@.len(),
                cards == names(pool@),
                from == twice@[i as int].sideboard(),
                forall|j: int| 0 <= j < pool@.len() ==> count_of(origin, #[trigger] cards[j]) < usize::MAX,
                no_more(from, origin),
                descend_from(twice@, deck),
                descend_from(candidates@, deck),
                forall|k: int|
                    0 <= k < candidates@.len() ==> one_more_at_most(#[trigger] candidates@[k].sideboard(), origin),
                sideboards(candidates@) == before + with_one(from, cards).take(j as int),
            decreases pool@.len() - j,
        {
            let mut candidate = twice[i].clone();
            assert(count_of(from, cards[j as int]) <= count_of(origin, cards[j as int]));
            candidate.insert_sideboard(pool[j]);
            assert(sideboards(candidates@.push(candidate)) =~= sideboards(candidates@).push(candidate.sideboard()));
            candidates.push(candidate);
            j += 1;
        }
        assert(sideboards(twice@).take(i + 1).drop_last() =~= sideboards(twice@).take(i as int));
        i += 1;
    }
    assert(sideboards(twice@).take(twice@.len() as int) =~= sideboards(twice@));
    candidates
}

/// Tries the pool cards on one candidate in order: adds one unit, compares
/// the symbols with the prefix, and takes the unit away again unless they
/// begin with it. Gives the index of the card that stays, or nothing where
/// no card hits; the sideboard is then as it was.
pub fn scan_candidate<'s>(deck: &mut Deck<'s>, pool: &[&'s str], prefix: &[u8]) -> (found: Option<usize>)
    requires
        old(deck).wf(),
        forall|j: int|
            0 <= j < pool@.len() ==> count_of(old(deck).sideboard(), #[trigger] names(pool@)[j]) < usize::MAX,
    ensures
        final(deck).wf(),
        final(deck).maindeck() == old(deck).maindeck(),
        final(deck).maindeck_bytes() == old(deck).maindeck_bytes(),
        match found {
            Some(j) => {
                &&& first_hit(old(deck).sideboard(), old(deck).maindeck_bytes(), names(pool@), prefix@, j as int)
                &&& final(deck).sideboard() == put_one(old(deck).sideboard(), names(pool@)[j as int])
            },
            None => {
                &&& misses(old(deck).sideboard(), old(deck).maindeck_bytes(), names(pool@), prefix@)
                &&& final(deck).sideboard() == old(deck).sideboard()
            },
        },
{
    let ghost cards = names(pool@);
    let ghost side = deck.sideboard();
    let ghost main_bytes = deck.maindeck_bytes();
    let mut buffer = String::new();
    let mut j: usize = 0;
    while j < pool.len()
        invariant
            j <= pool@.len(),
            cards == names(pool@),
            buffer@ == Seq::<char>::empty(),
            deck.wf(),
            deck.maindeck() == old(deck).maindeck(),
            deck.maindeck_bytes() == main_bytes,
            deck.sideboard() == side,
            side == old(deck).sideboard(),
            main_bytes == old(deck).maindeck_bytes(),
            forall|k: int| 0 <= k < pool@.len() ==> count_of(side, #[trigger] cards[k]) < usize::MAX,
            forall|k: int| 0 <= k < j ==> !hits(side, main_bytes, #[trigger] cards[k], prefix@),
        decreases pool@.len() - j,
    {
        let card = pool[j];
        assert(card.spec_bytes() == cards[j as int]);
        deck.insert_sideboard(card);
        let symbols = deck.base32(&mut buffer);
        if starts_with(&symbols, prefix) {
            return Some(j);
        }
        proof {
            lemma_put_then_take(side, cards[j as int]);
        }
        deck.remove_sideboard(card);
        j += 1;
    }
    None
}

/// Tries one candidate, and gives it back with the unit that stays, or
/// nothing where no pool card hits.
pub fn try_candidate<'s>(candidate: Deck<'s>, pool: &[&'s str], prefix: &[u8]) -> (found: Option<Deck<'s>>)
    requires
        candidate.wf(),
        forall|j: int|
            0 <= j < pool@.len() ==> count_of(candidate.sideboard(), #[trigger] names(pool@)[j]) < usize::MAX,
    ensures
        outcome(candidate, names(pool@), prefix@, found),
{
    let mut deck = candidate;
    match scan_candidate(&mut deck, pool, prefix) {
        Some(_) => Some(deck),
        None => None,
    }
}

/// Tries the candidates on the worker threads of the crate `rayon`, with
/// `find_map_any` on the parallel iterator that `into_par_iter` gives for
/// the vector; each candidate is handed to `try_candidate`.
///
/// The contract is not proved. It says what `find_map_any` is documented to
/// do: what comes back is what `try_candidate` gave for one of the
/// candidates, any of those for which it gave a deck; and nothing comes
/// back only where it gave nothing for every candidate.
#[verifier::external_body]
fn find_any<'s>(candidates: Vec<Deck<'s>>, pool: &[&'s str], prefix: &[u8]) -> (found: Option<Deck<'s>>)
    requires
        all_wf(candidates@),
        room(candidates@, names(pool@)),
    ensures
        match found {
            Some(deck) => exists|i: int|
                0 <= i < candidates@.len() && outcome(#[trigger] candidates@[i], names(pool@), prefix@, found),
            None => forall|i: int|
                0 <= i < candidates@.len() ==> outcome(#[trigger] candidates@[i], names(pool@), prefix@, found),
        },
{
    candidates.into_par_iter().find_map_any(|candidate| try_candidate(candidate, pool, prefix))
}

/// Searches the candidates for one that, with one unit more of some pool
/// card, has symbols that begin with `prefix`, and gives that deck with the
/// unit in its sideboard. The candidates are tried in no fixed order, so
/// where several would do, any of them may come back. Nothing comes back
/// exactly where no pool card hits for any candidate, as with a prefix that
/// nothing can begin with.
pub fn search<'s>(candidates: Vec<Deck<'s>>, pool: &[&'s str], prefix: &[u8]) -> (found: Option<Deck<'s>>)
    requires
        all_wf(candidates@),
        room(candidates@, names(pool@)),
    ensures
        match found {
            Some(deck) => {
                &&& deck.wf()
                &&& begins_with(deck.symbols(Seq::empty()), prefix@)
                &&& exists|i: int|
                    0 <= i < candidates@.len() && outcome(#[trigger] candidates@[i], names(pool@), prefix@, found)
            },
            None => forall|i: int|
                0 <= i < candidates@.len() ==> misses(
                    (#[trigger] candidates@[i]).sideboard(),
                    candidates@[i].maindeck_bytes(),
                    names(pool@),
                    prefix@,
                ),
        },
        unmatchable(prefix@) ==> found is None,
{
    let found = find_any(candidates, pool, prefix);
    proof {
        if found is Some {
            let i = choose|i: int|
                0 <= i < candidates@.len() && outcome(#[trigger] candidates@[i], names(pool@), prefix@, found);
            let from = candidates@[i];
            if unmatchable(prefix@) {
                lemma_unmatchable_misses(from.sideboard(), from.maindeck_bytes(), names(pool@), prefix@);
            }
        }
    }
    found
}

/// Expands a deck into its candidates and searches them: gives a deck that
/// has the maindeck of `deck`, a sideboard that is one of the candidates'
/// with one unit more of a pool card, and symbols that begin with `prefix`;
/// or nothing, exactly where no pool card hits for any candidate.
pub fn vanity_search<'s>(deck: Deck<'s>, pool: &[&'s str], prefix: &[u8]) -> (found: Option<Deck<'s>>)
    requires
        deck.wf(),
        forall|j: int|
            0 <= j < pool@.len() ==> count_of(deck.sideboard(), #[trigger] names(pool@)[j]) + 1 < usize::MAX,
    ensures
        match found {
            Some(winner) => {
                &&& winner.wf()
                &&& winner.maindeck() == deck.maindeck()
                &&& winner.maindeck_bytes() == deck.maindeck_bytes()
                &&& begins_with(winner.symbols(Seq::empty()), prefix@)
                &&& exists|k: int, j: int|
                    {
                        &&& 0 <= k < candidate_sideboards(deck.sideboard(), names(pool@)).len()
                        &&& first_hit(
                            #[trigger] candidate_sideboards(deck.sideboard(), names(pool@))[k],
                            deck.maindeck_bytes(),
                            names(pool@),
                            prefix@,
                            j,
                        )
                        &&& winner.sideboard() == put_one(
                            candidate_sideboards(deck.sideboard(), names(pool@))[k],
                            #[trigger] names(pool@)[j],
                        )
                    }
            },
            None => forall|k: int|
                0 <= k < candidate_sideboards(deck.sideboard(), names(pool@)).len() ==> misses(
                    #[trigger] candidate_sideboards(deck.sideboard(), names(pool@))[k],
                    deck.maindeck_bytes(),
                    names(pool@),
                    prefix@,
                ),
        },
        unmatchable(prefix@) ==> found is None,
{
    let ghost cards = names(pool@);
    let ghost sides = candidate_sideboards(deck.sideboard(), cards);
    let candidates = candidate_pool(deck, pool);
    let found = search(candidates, pool, prefix);
    proof {
        if found is Some {
            let i = choose|i: int|
                0 <= i < candidates@.len() && outcome(#[trigger] candidates@[i], cards, prefix@, found);
            assert(sides[i] == candidates@[i].sideboard());
        }
    }
    found
}

} // verus!
