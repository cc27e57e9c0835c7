//! Lexicographic order on byte strings.
//!
//! Card names are kept in this order. It is the order in which `str` values
//! compare, so a table sorted by it is walked in the same sequence as an
//! ordered map keyed by the names.

use vstd::prelude::*;

verus! {

/// `a` and `b` hold the same bytes at every index below `k`.
pub open spec fn agree_upto(a: Seq<u8>, b: Seq<u8>, k: int) -> bool {
    &&& 0 <= k <= a.len()
    &&& k <= b.len()
    &&& forall|i: int| 0 <= i < k ==> a[i] == b[i]
}

/// `a` sorts before `b`, and `k` is the index that decides it: either `a`
/// ends there and `b` goes on, or `a` holds the smaller byte there.
pub open spec fn precedes_at(a: Seq<u8>, b: Seq<u8>, k: int) -> bool {
    &&& agree_upto(a, b, k)
    &&& k < b.len()
    &&& (k < a.len() ==> a[k] < b[k])
}

/// `a` sorts strictly before `b`.
pub open spec fn precedes(a: Seq<u8>, b: Seq<u8>) -> bool {
    exists|k: int| precedes_at(a, b, k)
}

/// How one byte string stands to another.
#[derive(Clone, Copy, PartialEq, Eq, Structural, Debug)]
pub enum Standing {
    Before,
    Same,
    After,
}

/// The standing of `a` to `b`.
pub open spec fn standing(a: Seq<u8>, b: Seq<u8>) -> Standing {
    if a == b {
        Standing::Same
    } else if precedes(a, b) {
        Standing::Before
    } else {
        Standing::After
    }
}

/// No byte string sorts before itself.
pub proof fn lemma_precedes_irreflexive(a: Seq<u8>)
    ensures
        !precedes(a, a),
{
}

/// Of two byte strings at most one sorts before the other.
pub proof fn lemma_precedes_asymmetric(a: Seq<u8>, b: Seq<u8>)
    requires
        precedes(a, b),
    ensures
        !precedes(b, a),
        a != b,
{
    let k = choose|k: int| precedes_at(a, b, k);
    if precedes(b, a) {
        let m = choose|m: int| precedes_at(b, a, m);
        // Whichever index comes first decides for one and agrees for the other.
        if m < k {
            assert(a[m] == b[m]);
        } else if k < m {
            assert(b[k] == a[k]);
        }
    }
}

/// Two different byte strings are ordered one way or the other.
pub proof fn lemma_precedes_total(a: Seq<u8>, b: Seq<u8>)
    ensures
        a == b || precedes(a, b) || precedes(b, a),
{
    lemma_total_from(a, b, 0);
}

/// Two byte strings that agree below `k` are the same or ordered.
proof fn lemma_total_from(a: Seq<u8>, b: Seq<u8>, k: int)
    requires
        agree_upto(a, b, k),
    ensures
        a == b || precedes(a, b) || precedes(b, a),
    decreases a.len() - k,
{
    if k == a.len() && k == b.len() {
        assert(a =~= b);
    } else if k == a.len() || (k < b.len() && a[k] < b[k]) {
        assert(precedes_at(a, b, k));
    } else if k == b.len() || b[k] < a[k] {
        assert(precedes_at(b, a, k));
    } else {
        lemma_total_from(a, b, k + 1);
    }
}

/// The order is transitive.
pub proof fn lemma_precedes_transitive(a: Seq<u8>, b: Seq<u8>, c: Seq<u8>)
    requires
        precedes(a, b),
        precedes(b, c),
    ensures
        precedes(a, c),
{
    let k = choose|k: int| precedes_at(a, b, k);
    let m = choose|m: int| precedes_at(b, c, m);
    let n = if k <= m {
        k
    } else {
        m
    };
    assert(precedes_at(a, c, n));
}

/// What `standing` returns tells the three cases apart.
pub proof fn lemma_standing(a: Seq<u8>, b: Seq<u8>)
    ensures
        standing(a, b) == Standing::Before <==> precedes(a, b),
        standing(a, b) == Standing::Same <==> a == b,
        standing(a, b) == Standing::After <==> precedes(b, a),
{
    lemma_precedes_total(a, b);
    lemma_precedes_irreflexive(a);
    if precedes(a, b) {
        lemma_precedes_asymmetric(a, b);
    }
    if precedes(b, a) {
        lemma_precedes_asymmetric(b, a);
    }
}

/// Compares two byte strings lexicographically.
pub fn compare(a: &[u8], b: &[u8]) -> (r: Standing)
    ensures
        r == standing(a@, b@),
{
    let mut i: usize = 0;
    while i < a.len() && i < b.len()
        invariant
            agree_upto(a@, b@, i as int),
        decreases a.len() - i,
    {
        if a[i] < b[i] {
            proof {
                assert(precedes_at(a@, b@, i as int));
                lemma_standing(a@, b@);
            }
            return Standing::Before;
        }
        if a[i] > b[i] {
            proof {
                assert(precedes_at(b@, a@, i as int));
                lemma_standing(a@, b@);
            }
            return Standing::After;
        }
        i += 1;
    }
    proof {
        lemma_standing(a@, b@);
    }
    if a.len() < b.len() {
        assert(precedes_at(a@, b@, i as int));
        Standing::Before
    } else if a.len() > b.len() {
        assert(precedes_at(b@, a@, i as int));
        Standing::After
    } else {
        assert(a@ =~= b@);
        Standing::Same
    }
}

} // verus!
