//! The cache of conjunctions of sentential decision diagrams.

use crate::repr::sdd::{SddAnd, SddPtr};
use vstd::prelude::*;

verus! {

/// A cache from pairs of edges to the edge of their conjunction. A cache
/// only saves work: what it does not hold is computed again.
pub trait SddApply {
    fn get(&self, and: SddAnd) -> Option<SddPtr>;

    fn insert(&mut self, and: SddAnd, ptr: SddPtr);
}

/// What a list of entries holds for each key: the value of the last entry
/// with that key.
pub open spec fn cached(entries: Seq<(SddAnd, SddPtr)>) -> Map<SddAnd, SddPtr>
    decreases entries.len(),
{
    if entries.len() == 0 {
        Map::empty()
    } else {
        cached(entries.drop_last()).insert(entries.last().0, entries.last().1)
    }
}

/// The cache that keeps every entry.
#[derive(Debug)]
pub struct SddApplyCompression {
    table: Vec<(SddAnd, SddPtr)>,
}

impl View for SddApplyCompression {
    type V = Map<SddAnd, SddPtr>;

    closed spec fn view(&self) -> Map<SddAnd, SddPtr> {
        cached(self.table@)
    }
}

impl SddApplyCompression {
    pub fn new() -> (r: SddApplyCompression)
        ensures
            r@ == Map::<SddAnd, SddPtr>::empty(),
    {
        SddApplyCompression { table: Vec::new() }
    }
}

impl SddApply for SddApplyCompression {
    fn get(&self, and: SddAnd) -> (r: Option<SddPtr>)
        ensures
            r == (if self@.contains_key(and) {
                Some(self@[and])
            } else {
                None
            }),
    {
        let mut i: usize = self.table.len();
        proof {
            assert(self.table@.take(i as int) =~= self.table@);
        }
        while i > 0
            invariant
                i <= self.table@.len(),
                cached(self.table@).contains_key(and) == cached(
                    self.table@.take(i as int),
                ).contains_key(and),
                cached(self.table@).contains_key(and) ==> cached(self.table@)[and] == cached(
                    self.table@.take(i as int),
                )[and],
            decreases i,
        {
            proof {
                assert(self.table@.take(i as int).drop_last() =~= self.table@.take(i - 1));
                assert(self.table@.take(i as int).last() == self.table@[i - 1]);
            }
            i -= 1;
            if self.table[i].0 == and {
                return Some(self.table[i].1);
            }
        }
        proof {
            assert(self.table@.take(0).len() == 0);
        }
        None
    }

    fn insert(&mut self, and: SddAnd, ptr: SddPtr)
        ensures
            final(self)@ == old(self)@.insert(and, ptr),
    {
        self.table.push((and, ptr));
        proof {
            assert(self.table@.drop_last() =~= old(self).table@);
        }
    }
}

} // verus!
