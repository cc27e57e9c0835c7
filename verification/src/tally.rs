//! A count-by-name mapping kept as a vector sorted by name.
//!
//! The names are borrowed from the text they were read from; the table never
//! copies one.

use crate::holdings::{
    count_of, holdings_wf, holds, lemma_put, lemma_rank, lemma_rank_is, put, put_one, rank, take_one, Holdings,
};
use crate::order::{compare, lemma_precedes_transitive, lemma_standing, precedes, Standing};
use vstd::prelude::*;
use vstd::string::StringSliceAdditionalSpecFns;

verus! {

/// One entry of a table.
#[derive(Clone, Copy, Debug)]
struct Slot<'s> {
    name: &'s str,
    count: usize,
}

/// A count-by-name mapping.
#[derive(Debug)]
pub struct Tally<'s> {
    slots: Vec<Slot<'s>>,
}

impl<'s> View for Tally<'s> {
    type V = Holdings;

    /// The entries in the order of their names, each name as its bytes.
    closed spec fn view(&self) -> Holdings {
        Seq::new(self.slots@.len(), |i: int| (self.slots@[i].name.spec_bytes(), self.slots@[i].count as nat))
    }
}

impl<'s> Tally<'s> {
    /// The names ascend strictly and no count is zero.
    pub open spec fn wf(&self) -> bool {
        holdings_wf(self@)
    }

    /// Every count of a table fits the machine word it is kept in.
    pub proof fn lemma_counts_fit(&self)
        ensures
            forall|i: int| 0 <= i < self@.len() ==> (#[trigger] self@[i]).1 <= usize::MAX,
            forall|name: Seq<u8>| #[trigger] count_of(self@, name) <= usize::MAX,
    {
        assert forall|name: Seq<u8>| #[trigger] count_of(self@, name) <= usize::MAX by {
            lemma_rank(self@, name);
        }
    }

    /// The empty table.
    pub fn new() -> (t: Self)
        ensures
            t@ == Holdings::empty(),
            t.wf(),
    {
        let t = Tally { slots: Vec::new() };
        t
    }

    /// The number of names.
    pub fn len(&self) -> (n: usize)
        ensures
            n == self@.len(),
    {
        self.slots.len()
    }

    /// The name of the entry at `i`.
    pub fn name_at(&self, i: usize) -> (name: &'s str)
        requires
            i < self@.len(),
        ensures
            name.spec_bytes() == self@[i as int].0,
    {
        self.slots[i].name
    }

    /// The count of the entry at `i`.
    pub fn count_at(&self, i: usize) -> (count: usize)
        requires
            i < self@.len(),
        ensures
            count == self@[i as int].1,
    {
        self.slots[i].count
    }

    /// Finds where `name` stands or would have to stand, and says whether it
    /// is there.
    pub fn locate(&self, name: &[u8]) -> (r: (usize, bool))
        requires
            self.wf(),
        ensures
            r.0 == rank(self@, name@),
            r.1 == holds(self@, name@),
    {
        let mut lo: usize = 0;
        let mut hi: usize = self.slots.len();
        while lo < hi
            invariant
                self.wf(),
                lo <= hi <= self@.len(),
                self@.len() == self.slots@.len(),
                forall|i: int| 0 <= i < lo ==> precedes(#[trigger] self@[i].0, name@),
                forall|i: int| hi <= i < self@.len() ==> precedes(name@, #[trigger] self@[i].0),
            decreases hi - lo,
        {
            let mid = lo + (hi - lo) / 2;
            let there = compare(self.slots[mid].name.as_bytes(), name);
            proof {
                lemma_standing(self@[mid as int].0, name@);
            }
            match there {
                Standing::Before => {
                    proof {
                        assert forall|i: int| 0 <= i < mid + 1 implies precedes(#[trigger] self@[i].0, name@) by {
                            if i < mid {
                                lemma_precedes_transitive(self@[i].0, self@[mid as int].0, name@);
                            }
                        }
                    }
                    lo = mid + 1;
                },
                Standing::Same => {
                    proof {
                        lemma_rank_is(self@, name@, mid as int);
                    }
                    return (mid, true);
                },
                Standing::After => {
                    proof {
                        assert forall|i: int| mid <= i < self@.len() implies precedes(
                            name@,
                            #[trigger] self@[i].0,
                        ) by {
                            if mid < i {
                                lemma_precedes_transitive(name@, self@[mid as int].0, self@[i].0);
                            }
                        }
                    }
                    hi = mid;
                },
            }
        }
        proof {
            lemma_rank_is(self@, name@, lo as int);
        }
        (lo, false)
    }

    /// The count of `name`, zero where the table does not hold it.
    pub fn count(&self, name: &str) -> (count: usize)
        requires
            self.wf(),
        ensures
            count == count_of(self@, name.spec_bytes()),
    {
        let (p, found) = self.locate(name.as_bytes());
        if found {
            self.slots[p].count
        } else {
            0
        }
    }

    /// Sets the count of `name`, with a new entry where it had none. An entry
    /// that is there keeps the name it was made with.
    pub fn set(&mut self, name: &'s str, count: usize)
        requires
            old(self).wf(),
            count > 0,
        ensures
            final(self)@ == put(old(self)@, name.spec_bytes(), count as nat),
            final(self).wf(),
    {
        let (p, found) = self.locate(name.as_bytes());
        proof {
            lemma_rank(self@, name.spec_bytes());
            lemma_put(self@, name.spec_bytes(), count as nat);
        }
        if found {
            self.slots[p] = Slot { name: self.slots[p].name, count };
        } else {
            self.slots.insert(p, Slot { name, count });
        }
        assert(self@ =~= put(old(self)@, name.spec_bytes(), count as nat));
    }

    /// Adds one unit of `name`.
    pub fn add_one(&mut self, name: &'s str)
        requires
            old(self).wf(),
            count_of(old(self)@, name.spec_bytes()) < usize::MAX,
        ensures
            final(self)@ == put_one(old(self)@, name.spec_bytes()),
            final(self).wf(),
    {
        let (p, found) = self.locate(name.as_bytes());
        proof {
            lemma_rank(self@, name.spec_bytes());
            lemma_put(self@, name.spec_bytes(), count_of(self@, name.spec_bytes()) + 1);
        }
        if found {
            let slot = self.slots[p];
            self.slots[p] = Slot { name: slot.name, count: slot.count + 1 };
        } else {
            self.slots.insert(p, Slot { name, count: 1 });
        }
        assert(self@ =~= put_one(old(self)@, name.spec_bytes()));
    }

    /// Takes one unit of `name` away; the entry leaves with its last unit.
    pub fn remove_one(&mut self, name: &str)
        requires
            old(self).wf(),
            count_of(old(self)@, name.spec_bytes()) > 0,
        ensures
            final(self)@ == take_one(old(self)@, name.spec_bytes()),
            final(self).wf(),
    {
        let (p, _) = self.locate(name.as_bytes());
        let slot = self.slots[p];
        if slot.count > 1 {
            self.slots[p] = Slot { name: slot.name, count: slot.count - 1 };
        } else {
            self.slots.remove(p);
        }
        assert(self@ =~= take_one(old(self)@, name.spec_bytes()));
    }
}

impl<'s> Clone for Tally<'s> {
    /// A table of its own with the same entries.
    fn clone(&self) -> (t: Self)
        ensures
            t@ == self@,
    {
        let mut slots: Vec<Slot<'s>> = Vec::new();
        let mut i: usize = 0;
        while i < self.slots.len()
            invariant
                i <= self.slots@.len(),
                slots@ == self.slots@.take(i as int),
            decreases self.slots@.len() - i,
        {
            slots.push(self.slots[i]);
            i += 1;
        }
        Tally { slots }
    }
}

} // verus!
