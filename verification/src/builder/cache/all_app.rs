//! The apply cache that keeps every entry.

use crate::backing_store::bump_table::{
    accepts, hash_agrees, items_distinct, lemma_interned_once, BackedRobinhoodTable, TableItem,
};
use crate::backing_store::hasher::{code_of, mix, mixed, ptr_code};
use crate::repr::bdd::BddPtr;
use vstd::prelude::*;

verus! {

/// The operands of an if-then-else.
#[derive(Clone, Copy, Debug, PartialEq, Eq, Hash, Structural)]
pub struct IteKey {
    pub f: BddPtr,
    pub g: BddPtr,
    pub h: BddPtr,
}

impl View for IteKey {
    type V = IteKey;

    open spec fn view(&self) -> IteKey {
        *self
    }
}

impl TableItem for IteKey {
    fn same(&self, other: &Self) -> (r: bool) {
        *self == *other
    }
}

/// The hash of the operands of an if-then-else.
pub open spec fn key_hash(k: IteKey) -> u64 {
    mixed(mixed(ptr_code(k.f), ptr_code(k.g)), ptr_code(k.h)) as u64
}

/// The cache that keeps every entry.
pub struct AllTable {
    keys: BackedRobinhoodTable<IteKey>,
    vals: Vec<BddPtr>,
}

impl AllTable {
    /// The invariant of the cache: each key stands once, under its hash,
    /// and has its value.
    pub closed spec fn wf(&self) -> bool {
        &&& self.keys.wf()
        &&& self.vals@.len() == self.keys@.len()
        &&& items_distinct(self.keys@)
        &&& forall|i: int|
            0 <= i < self.keys@.len() ==> (#[trigger] self.keys@[i]).1 == key_hash(self.keys@[i].0)
    }

    /// The cache holds a value for the key.
    pub closed spec fn holds(&self, k: IteKey) -> bool {
        exists|i: int| 0 <= i < self.keys@.len() && (#[trigger] self.keys@[i]).0 == k
    }

    /// The value that the cache holds for the key.
    pub closed spec fn value(&self, k: IteKey) -> BddPtr {
        self.vals@[choose|i: int| 0 <= i < self.keys@.len() && (#[trigger] self.keys@[i]).0 == k]
    }

    pub fn new() -> (r: AllTable)
        ensures
            r.wf(),
            forall|k: IteKey| !r.holds(k),
    {
        AllTable { keys: BackedRobinhoodTable::new(), vals: Vec::new() }
    }

    fn hash(k: &IteKey) -> (r: u64)
        ensures
            r == key_hash(*k),
    {
        mix(mix(code_of(k.f), code_of(k.g)), code_of(k.h)) as u64
    }

    /// The value that the cache holds for the key, if it holds one.
    pub fn get(&self, k: IteKey) -> (r: Option<BddPtr>)
        requires
            self.wf(),
        ensures
            r == (if self.holds(k) {
                Some(self.value(k))
            } else {
                None
            }),
    {
        match self.keys.lookup(Self::hash(&k), &k) {
            Some(i) => {
                proof {
                    let j = choose|j: int|
                        0 <= j < self.keys@.len() && (#[trigger] self.keys@[j]).0 == k;
                    if i < j {
                        assert(self.keys@[i as int].0 != self.keys@[j].0);
                    } else if j < i {
                        assert(self.keys@[j].0 != self.keys@[i as int].0);
                    }
                }
                Some(self.vals[i])
            },
            None => {
                proof {
                    assert forall|i: int| 0 <= i < self.keys@.len() implies (
                    #[trigger] self.keys@[i]).0 != k by {
                        assert(!accepts(self.keys@[i], Some(k), key_hash(k)));
                    }
                }
                None
            },
        }
    }

    /// Puts a value in for the key, in place of the one that the cache
    /// holds for it, if it holds one.
    pub fn insert(&mut self, k: IteKey, v: BddPtr)
        requires
            old(self).wf(),
        ensures
            final(self).wf(),
            final(self).holds(k),
            final(self).value(k) == v,
            forall|k2: IteKey|
                k2 != k ==> final(self).holds(k2) == old(self).holds(k2) && (old(self).holds(k2)
                    ==> final(self).value(k2) == old(self).value(k2)),
    {
        let h = Self::hash(&k);
        let ghost before = self.keys@;
        let i = self.keys.get_or_insert_by_hash(h, k, false);
        proof {
            assert(hash_agrees(before, k, h));
            lemma_interned_once(before, self.keys@, k, h, i as int);
        }
        if i == self.vals.len() {
            self.vals.push(v);
        } else {
            self.vals.set(i, v);
        }
        proof {
            let after = self.keys@;
            assert(after[i as int].0 == k);
            assert forall|k2: IteKey| k2 != k implies self.holds(k2) == old(self).holds(k2) && (old(
                self,
            ).holds(k2) ==> self.value(k2) == old(self).value(k2)) by {
                if old(self).holds(k2) {
                    let j = choose|j: int| 0 <= j < before.len() && (#[trigger] before[j]).0 == k2;
                    assert(after[j].0 == k2);
                    let j2 = choose|j2: int| 0 <= j2 < after.len() && (#[trigger] after[j2]).0 == k2;
                    if j < j2 {
                        assert(after[j].0 != after[j2].0);
                    } else if j2 < j {
                        assert(after[j2].0 != after[j].0);
                    }
                }
                if self.holds(k2) {
                    let j2 = choose|j2: int| 0 <= j2 < after.len() && (#[trigger] after[j2]).0 == k2;
                    assert(j2 != i);
                    assert(before[j2].0 == k2);
                }
            }
            let c = choose|c: int| 0 <= c < after.len() && (#[trigger] after[c]).0 == k;
            assert(c == i);
        }
    }
}

/// A memo from edges to edges, for an operation with one operand.
pub struct BddMemo {
    table: AllTable,
}

impl BddMemo {
    /// The key under which the memo keeps an edge.
    pub open spec fn key(p: BddPtr) -> IteKey {
        IteKey { f: p, g: BddPtr::PtrTrue, h: BddPtr::PtrTrue }
    }

    /// The invariant of the memo.
    pub closed spec fn wf(&self) -> bool {
        self.table.wf()
    }

    /// The memo holds an edge for `p`.
    pub closed spec fn holds(&self, p: BddPtr) -> bool {
        self.table.holds(Self::key(p))
    }

    /// The edge that the memo holds for `p`.
    pub closed spec fn value(&self, p: BddPtr) -> BddPtr {
        self.table.value(Self::key(p))
    }

    pub fn new() -> (r: BddMemo)
        ensures
            r.wf(),
            forall|p: BddPtr| !r.holds(p),
    {
        BddMemo { table: AllTable::new() }
    }

    /// The edge that the memo holds for `p`, if it holds one.
    pub fn get(&self, p: BddPtr) -> (r: Option<BddPtr>)
        requires
            self.wf(),
        ensures
            r == (if self.holds(p) {
                Some(self.value(p))
            } else {
                None
            }),
    {
        self.table.get(IteKey { f: p, g: BddPtr::PtrTrue, h: BddPtr::PtrTrue })
    }

    /// Puts an edge in for `p`.
    pub fn insert(&mut self, p: BddPtr, v: BddPtr)
        requires
            old(self).wf(),
        ensures
            final(self).wf(),
            final(self).holds(p),
            final(self).value(p) == v,
            forall|q: BddPtr|
                q != p ==> final(self).holds(q) == old(self).holds(q) && (old(self).holds(q)
                    ==> final(self).value(q) == old(self).value(q)),
    {
        self.table.insert(IteKey { f: p, g: BddPtr::PtrTrue, h: BddPtr::PtrTrue }, v);
        proof {
            assert forall|q: BddPtr| q != p implies self.holds(q) == old(self).holds(q) && (old(
                self,
            ).holds(q) ==> self.value(q) == old(self).value(q)) by {
                assert(Self::key(q) != Self::key(p));
            }
        }
    }
}

} // verus!
