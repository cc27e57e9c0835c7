//! The mathematical model of a count-by-name mapping.
//!
//! A mapping is a sequence of `(name, count)` pairs, strictly ascending by
//! name and with no count of zero. The sequence is the order in which the
//! mapping is walked, which the hash input depends on.

use crate::order::{lemma_precedes_asymmetric, lemma_precedes_total, lemma_precedes_transitive, precedes};
use vstd::prelude::*;

verus! {

/// Card names with their counts.
pub type Holdings = Seq<(Seq<u8>, nat)>;

/// The names ascend strictly, so none occurs twice.
pub open spec fn ascending(h: Holdings) -> bool {
    forall|i: int, j: int| 0 <= i < j < h.len() ==> #[trigger] precedes(h[i].0, h[j].0)
}

/// No entry has a count of zero.
pub open spec fn positive(h: Holdings) -> bool {
    forall|i: int| 0 <= i < h.len() ==> (#[trigger] h[i]).1 > 0
}

/// The invariant of a mapping.
pub open spec fn holdings_wf(h: Holdings) -> bool {
    ascending(h) && positive(h)
}

/// The index of the first entry whose name does not sort before `name`:
/// where `name` stands, or would have to stand.
pub open spec fn rank(h: Holdings, name: Seq<u8>) -> int
    decreases h.len(),
{
    if h.len() == 0 || !precedes(h[0].0, name) {
        0
    } else {
        1 + rank(h.drop_first(), name)
    }
}

/// `name` has an entry.
pub open spec fn holds(h: Holdings, name: Seq<u8>) -> bool {
    rank(h, name) < h.len() && h[rank(h, name)].0 == name
}

/// The count of `name`, zero where it has no entry.
pub open spec fn count_of(h: Holdings, name: Seq<u8>) -> nat {
    if holds(h, name) {
        h[rank(h, name)].1
    } else {
        0
    }
}

/// The mapping with the count of `name` set to `count`.
pub open spec fn put(h: Holdings, name: Seq<u8>, count: nat) -> Holdings {
    let p = rank(h, name);
    if holds(h, name) {
        h.update(p, (name, count))
    } else {
        h.insert(p, (name, count))
    }
}

/// The mapping with one more unit of `name`.
pub open spec fn put_one(h: Holdings, name: Seq<u8>) -> Holdings {
    put(h, name, count_of(h, name) + 1)
}

/// The mapping with one unit of `name` less; the entry leaves with its last
/// unit. A name without an entry leaves the mapping as it is.
pub open spec fn take_one(h: Holdings, name: Seq<u8>) -> Holdings {
    let p = rank(h, name);
    if !holds(h, name) {
        h
    } else if h[p].1 > 1 {
        h.update(p, (name, (h[p].1 - 1) as nat))
    } else {
        h.remove(p)
    }
}

/// What `rank` returns: everything before it sorts before `name`, and the
/// entry at it does not.
pub proof fn lemma_rank(h: Holdings, name: Seq<u8>)
    ensures
        0 <= rank(h, name) <= h.len(),
        forall|i: int| 0 <= i < rank(h, name) ==> precedes(#[trigger] h[i].0, name),
        rank(h, name) < h.len() ==> !precedes(h[rank(h, name)].0, name),
    decreases h.len(),
{
    if h.len() > 0 && precedes(h[0].0, name) {
        let t = h.drop_first();
        lemma_rank(t, name);
        assert forall|i: int| 0 <= i < rank(h, name) implies precedes(#[trigger] h[i].0, name) by {
            if i > 0 {
                assert(h[i] == t[i - 1]);
            }
        }
    }
}

/// An index with the two properties of `lemma_rank` is the rank.
pub proof fn lemma_rank_is(h: Holdings, name: Seq<u8>, p: int)
    requires
        0 <= p <= h.len(),
        forall|i: int| 0 <= i < p ==> precedes(#[trigger] h[i].0, name),
        p < h.len() ==> !precedes(h[p].0, name),
    ensures
        rank(h, name) == p,
    decreases h.len(),
{
    if p > 0 {
        lemma_rank_is(h.drop_first(), name, p - 1);
    }
}

/// In an ascending mapping an entry stands at the rank of its own name.
pub proof fn lemma_rank_of_entry(h: Holdings, i: int)
    requires
        ascending(h),
        0 <= i < h.len(),
    ensures
        rank(h, h[i].0) == i,
        holds(h, h[i].0),
        count_of(h, h[i].0) == h[i].1,
{
    lemma_rank_is(h, h[i].0, i);
}

/// In an ascending mapping every entry from the rank of `name` on, except
/// one for `name` itself, sorts after `name`.
pub proof fn lemma_after_rank(h: Holdings, name: Seq<u8>, j: int)
    requires
        ascending(h),
        rank(h, name) <= j < h.len(),
        h[j].0 != name,
    ensures
        precedes(name, h[j].0),
{
    lemma_rank(h, name);
    let p = rank(h, name);
    lemma_precedes_total(name, h[j].0);
    if precedes(h[j].0, name) && p < j {
        lemma_precedes_transitive(h[p].0, h[j].0, name);
    }
}

/// A name has an entry exactly if some entry carries it.
pub proof fn lemma_holds_iff(h: Holdings, name: Seq<u8>)
    requires
        ascending(h),
    ensures
        holds(h, name) <==> exists|i: int| 0 <= i < h.len() && #[trigger] h[i].0 == name,
{
    lemma_rank(h, name);
    if exists|i: int| 0 <= i < h.len() && #[trigger] h[i].0 == name {
        let i = choose|i: int| 0 <= i < h.len() && #[trigger] h[i].0 == name;
        lemma_rank_of_entry(h, i);
    }
}

/// `put` keeps the invariant and changes the count of `name` alone.
pub proof fn lemma_put(h: Holdings, name: Seq<u8>, count: nat)
    requires
        holdings_wf(h),
        count > 0,
    ensures
        holdings_wf(put(h, name, count)),
        rank(put(h, name, count), name) == rank(h, name),
        holds(put(h, name, count), name),
        count_of(put(h, name, count), name) == count,
        forall|other: Seq<u8>|
            other != name ==> count_of(#[trigger] put(h, name, count), other) == count_of(h, other),
{
    let p = rank(h, name);
    let g = put(h, name, count);
    lemma_rank(h, name);
    if !holds(h, name) {
        // What stands behind the new entry sorts after it.
        assert forall|i: int, j: int| 0 <= i < j < g.len() implies #[trigger] precedes(g[i].0, g[j].0) by {
            if i == p {
                lemma_after_rank(h, name, j - 1);
            }
        }
    }
    lemma_rank_is(g, name, p);
    assert forall|other: Seq<u8>| other != name implies count_of(#[trigger] put(h, name, count), other)
        == count_of(h, other) by {
        lemma_put_other(h, name, count, other);
    }
}

/// `put` leaves the count of every other name as it was.
proof fn lemma_put_other(h: Holdings, name: Seq<u8>, count: nat, other: Seq<u8>)
    requires
        holdings_wf(h),
        other != name,
    ensures
        count_of(put(h, name, count), other) == count_of(h, other),
{
    let p = rank(h, name);
    let q = rank(h, other);
    let g = put(h, name, count);
    lemma_rank(h, name);
    lemma_rank(h, other);
    lemma_precedes_total(name, other);
    if holds(h, name) {
        // The names stay where they are, so the rank of `other` does too.
        lemma_rank_is(g, other, q);
    } else if precedes(other, name) {
        // `other` stands before the new entry.
        if q > p {
            lemma_precedes_transitive(h[p].0, other, name);
        }
        lemma_rank_is(g, other, q);
    } else {
        // `other` stands after the new entry, one place further on.
        if q < p {
            lemma_precedes_transitive(h[q].0, name, other);
        }
        lemma_rank_is(g, other, q + 1);
    }
}

/// Adding a unit keeps the invariant, raises the count of `name` by one and
/// leaves every other count as it was.
pub proof fn lemma_put_one(h: Holdings, name: Seq<u8>)
    requires
        holdings_wf(h),
    ensures
        holdings_wf(put_one(h, name)),
        holds(put_one(h, name), name),
        count_of(put_one(h, name), name) == count_of(h, name) + 1,
        forall|other: Seq<u8>| other != name ==> count_of(#[trigger] put_one(h, name), other) == count_of(h, other),
{
    lemma_put(h, name, count_of(h, name) + 1);
}

/// Taking a unit keeps the invariant, lowers the count of `name` by one
/// (a count of zero stays zero) and leaves every other count as it was.
pub proof fn lemma_take_one(h: Holdings, name: Seq<u8>)
    requires
        holdings_wf(h),
    ensures
        holdings_wf(take_one(h, name)),
        count_of(h, name) > 0 ==> count_of(take_one(h, name), name) == count_of(h, name) - 1,
        count_of(h, name) == 0 ==> take_one(h, name) == h,
        forall|other: Seq<u8>| other != name ==> count_of(#[trigger] take_one(h, name), other) == count_of(h, other),
{
    let p = rank(h, name);
    let g = take_one(h, name);
    lemma_rank(h, name);
    if holds(h, name) && h[p].1 > 1 {
        lemma_put(h, name, (h[p].1 - 1) as nat);
    } else if holds(h, name) {
        if p < g.len() {
            lemma_precedes_asymmetric(name, g[p].0);
        }
        lemma_rank_is(g, name, p);
        assert forall|other: Seq<u8>| other != name implies count_of(#[trigger] take_one(h, name), other)
            == count_of(h, other) by {
            // Putting the entry back gives `h` again, and `put` keeps the other counts.
            assert(put(g, name, 1) =~= h);
            lemma_put_other(g, name, 1, other);
        }
    }
}

/// Adding one unit of a card and taking it away again gives back the very
/// mapping there was before, with no entry of count zero left behind.
pub proof fn lemma_put_then_take(h: Holdings, name: Seq<u8>)
    requires
        holdings_wf(h),
    ensures
        take_one(put_one(h, name), name) == h,
{
    lemma_rank(h, name);
    lemma_put(h, name, count_of(h, name) + 1);
}

/// Two mappings that give every name the same count are the same mapping.
pub proof fn lemma_counts_decide(a: Holdings, b: Holdings)
    requires
        holdings_wf(a),
        holdings_wf(b),
        forall|name: Seq<u8>| count_of(a, name) == count_of(b, name),
    ensures
        a == b,
    decreases a.len(),
{
    if a.len() == 0 {
        if b.len() > 0 {
            assert(count_of(a, b[0].0) == count_of(b, b[0].0));
        }
    } else {
        let n = a.len() - 1;
        let name = a[n].0;
        lemma_rank_of_entry(a, n);
        lemma_rank(b, name);
        let q = rank(b, name);
        // Nothing stands behind `name` in `b`: it would have to stand in `a` too.
        if q + 1 < b.len() {
            let late = b[q + 1].0;
            lemma_rank_of_entry(b, q + 1);
            lemma_holds_iff(a, late);
            let i = choose|i: int| 0 <= i < a.len() && #[trigger] a[i].0 == late;
            if i < n {
                lemma_precedes_asymmetric(name, late);
            }
        }
        let a0 = a.drop_last();
        let b0 = b.drop_last();
        assert forall|x: Seq<u8>| count_of(a0, x) == count_of(b0, x) by {
            lemma_count_without_last(a, x);
            lemma_count_without_last(b, x);
        }
        lemma_counts_decide(a0, b0);
        assert forall|i: int| 0 <= i < a.len() implies a[i] == b[i] by {
            if i < n {
                assert(b[i] == b0[i]);
            }
        }
    }
}

/// Without its last entry a mapping gives that entry's name the count zero
/// and every other name the count it had.
proof fn lemma_count_without_last(h: Holdings, x: Seq<u8>)
    requires
        holdings_wf(h),
        h.len() > 0,
    ensures
        count_of(h.drop_last(), x) == if x == h.last().0 {
            0
        } else {
            count_of(h, x)
        },
{
    let n = h.len() - 1;
    let p = rank(h, x);
    lemma_rank(h, x);
    lemma_rank_is(h.drop_last(), x, if p <= n {
        p
    } else {
        n
    });
}

} // verus!
