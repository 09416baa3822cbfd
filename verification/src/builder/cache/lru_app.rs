//! The apply cache of a fixed size: when it is full, the entry that was
//! used longest ago makes room for a new one.

use crate::builder::cache::all_app::IteKey;
use crate::repr::bdd::BddPtr;
use vstd::prelude::*;

verus! {

/// The place of the entry for the key among the entries, or their number,
/// if there is none.
pub open spec fn index_of(s: Seq<(IteKey, BddPtr)>, k: IteKey) -> int
    decreases s.len(),
{
    if s.len() == 0 {
        0
    } else if s[0].0 == k {
        0
    } else {
        1 + index_of(s.skip(1), k)
    }
}

/// The value of the entry for the key, if there is one.
pub open spec fn lookup(s: Seq<(IteKey, BddPtr)>, k: IteKey) -> Option<BddPtr> {
    if index_of(s, k) < s.len() {
        Some(s[index_of(s, k)].1)
    } else {
        None
    }
}

/// The entries after the key was looked up: its entry, if there is one,
/// has become the one used last.
pub open spec fn touched(s: Seq<(IteKey, BddPtr)>, k: IteKey) -> Seq<(IteKey, BddPtr)> {
    let i = index_of(s, k);
    if i < s.len() {
        s.remove(i).push(s[i])
    } else {
        s
    }
}

/// The entries after a value was recorded for the key in a cache for
/// `cap` entries: the new entry is the one used last; it stands for the
/// old entry for the key, if there was one, and else, if the cache was
/// full, for the entry that was used longest ago.
pub open spec fn recorded(
    s: Seq<(IteKey, BddPtr)>,
    cap: nat,
    k: IteKey,
    v: BddPtr,
) -> Seq<(IteKey, BddPtr)> {
    let i = index_of(s, k);
    if i < s.len() {
        s.remove(i).push((k, v))
    } else if s.len() >= cap {
        s.remove(0).push((k, v))
    } else {
        s.push((k, v))
    }
}

/// No two entries have the same key.
pub open spec fn keys_distinct(s: Seq<(IteKey, BddPtr)>) -> bool {
    forall|i: int, j: int| 0 <= i < j < s.len() ==> (#[trigger] s[i]).0 != (#[trigger] s[j]).0
}

/// The place of the entry for a key is a place among the entries or their
/// number; at the place stands the key, and before it does not.
pub proof fn lemma_index_of(s: Seq<(IteKey, BddPtr)>, k: IteKey)
    ensures
        0 <= index_of(s, k) <= s.len(),
        index_of(s, k) < s.len() ==> s[index_of(s, k)].0 == k,
        forall|j: int| 0 <= j < index_of(s, k) ==> (#[trigger] s[j]).0 != k,
    decreases s.len(),
{
    if s.len() > 0 && s[0].0 != k {
        lemma_index_of(s.skip(1), k);
        assert forall|j: int| 0 <= j < index_of(s, k) implies (#[trigger] s[j]).0 != k by {
            if j > 0 {
                assert(s.skip(1)[j - 1] == s[j]);
            }
        }
    }
}

/// Among entries with different keys the entry for a key stands where the
/// key stands.
pub proof fn lemma_index_at(s: Seq<(IteKey, BddPtr)>, i: int)
    requires
        keys_distinct(s),
        0 <= i < s.len(),
    ensures
        index_of(s, s[i].0) == i,
{
    lemma_index_of(s, s[i].0);
    let j = index_of(s, s[i].0);
    if j < i {
        assert(s[j].0 != s[i].0);
    }
}

/// What a cache holds after a value was recorded: the value for the key,
/// no more entries than it has room for, different keys, and for every
/// other key what it held before, unless that was the entry used longest
/// ago in a full cache.
pub proof fn lemma_recorded(s: Seq<(IteKey, BddPtr)>, cap: nat, k: IteKey, v: BddPtr)
    requires
        keys_distinct(s),
        s.len() <= cap,
        cap > 0,
    ensures
        keys_distinct(recorded(s, cap, k, v)),
        recorded(s, cap, k, v).len() <= cap,
        lookup(recorded(s, cap, k, v), k) == Some(v),
        forall|o: IteKey|
            o != k && !(lookup(s, k) is None && s.len() == cap && s[0].0 == o) ==> #[trigger] lookup(
                recorded(s, cap, k, v),
                o,
            ) == lookup(s, o),
{
    let r = recorded(s, cap, k, v);
    let i = index_of(s, k);
    lemma_index_of(s, k);
    let gone = if i < s.len() {
        i
    } else if s.len() >= cap {
        0int
    } else {
        s.len() as int
    };
    let kept = if gone < s.len() {
        s.remove(gone)
    } else {
        s
    };
    assert(r == kept.push((k, v)));
    assert forall|x: int, y: int| 0 <= x < y < r.len() implies (#[trigger] r[x]).0 != (
    #[trigger] r[y]).0 by {
        let sx = if x < gone { x } else { x + 1 };
        let sy = if y < gone { y } else { y + 1 };
        if y == r.len() - 1 {
            assert(r[x] == s[sx]);
            if i < s.len() {
                assert(sx != i);
                if sx < i {
                    assert(s[sx].0 != s[i].0);
                } else {
                    assert(s[i].0 != s[sx].0);
                }
            }
        } else {
            assert(r[x] == s[sx] && r[y] == s[sy]);
            assert(s[sx].0 != s[sy].0);
        }
    }
    lemma_index_at(r, r.len() - 1);
    assert forall|o: IteKey|
        o != k && !(lookup(s, k) is None && s.len() == cap && s[0].0 == o) implies #[trigger] lookup(
        r,
        o,
    ) == lookup(s, o) by {
        lemma_index_of(s, o);
        lemma_index_of(r, o);
        let a = index_of(s, o);
        let b = index_of(r, o);
        if a < s.len() {
            assert(a != gone);
            let ra = if a < gone { a } else { a - 1 };
            assert(r[ra] == s[a]);
            lemma_index_at(r, ra);
        } else if b < r.len() {
            let sb = if b < gone { b } else { b + 1 };
            assert(b < r.len() - 1);
            assert(r[b] == s[sb]);
            assert(s[sb].0 != o);
        }
    }
}

/// The apply cache for a fixed number of entries.
pub struct BddApplyTable {
    entries: Vec<(IteKey, BddPtr)>,
    capacity: usize,
}

impl View for BddApplyTable {
    type V = Seq<(IteKey, BddPtr)>;

    /// The entries, from the one used longest ago to the one used last.
    closed spec fn view(&self) -> Seq<(IteKey, BddPtr)> {
        self.entries@
    }
}

impl BddApplyTable {
    /// The number of entries that the cache has room for.
    pub closed spec fn cap(&self) -> nat {
        self.capacity as nat
    }

    /// The invariant: no more entries than the cache has room for, and no
    /// two for the same key.
    pub closed spec fn wf(&self) -> bool {
        &&& self.capacity > 0
        &&& self.entries@.len() <= self.capacity
        &&& keys_distinct(self.entries@)
    }

    /// What the invariant says of the entries.
    pub proof fn lemma_wf(&self)
        requires
            self.wf(),
        ensures
            self.cap() > 0,
            self@.len() <= self.cap(),
            keys_distinct(self@),
    {
    }

    /// The empty cache for `capacity` entries.
    pub fn new(capacity: usize) -> (r: BddApplyTable)
        requires
            capacity > 0,
        ensures
            r.wf(),
            r.cap() == capacity,
            r@.len() == 0,
    {
        BddApplyTable { entries: Vec::new(), capacity }
    }

    /// The place of the entry for the key.
    fn find(&self, k: IteKey) -> (r: usize)
        ensures
            r == index_of(self@, k),
    {
        let mut i: usize = 0;
        proof {
            assert(self.entries@.skip(0) =~= self.entries@);
        }
        while i < self.entries.len() && self.entries[i].0 != k
            invariant
                i <= self.entries@.len(),
                index_of(self.entries@, k) == i + index_of(self.entries@.skip(i as int), k),
            decreases self.entries.len() - i,
        {
            proof {
                assert(self.entries@.skip(i as int).skip(1) =~= self.entries@.skip(i + 1));
            }
            i += 1;
        }
        proof {
            if i == self.entries.len() {
                assert(self.entries@.skip(i as int).len() == 0);
            }
        }
        i
    }

    /// The value that the cache holds for the key, if it holds one; the
    /// entry becomes the one used last.
    pub fn get(&mut self, k: IteKey) -> (r: Option<BddPtr>)
        requires
            old(self).wf(),
        ensures
            final(self).wf(),
            final(self).cap() == old(self).cap(),
            r == lookup(old(self)@, k),
            final(self)@ == touched(old(self)@, k),
    {
        let i = self.find(k);
        if i < self.entries.len() {
            let ghost before = self.entries@;
            let e = self.entries.remove(i);
            self.entries.push(e);
            proof {
                lemma_index_of(before, k);
                lemma_recorded(before, self.capacity as nat, k, e.1);
                assert(e == (k, e.1));
            }
            Some(e.1)
        } else {
            None
        }
    }

    /// Records the value for the key.
    pub fn insert(&mut self, k: IteKey, v: BddPtr)
        requires
            old(self).wf(),
        ensures
            final(self).wf(),
            final(self).cap() == old(self).cap(),
            final(self)@ == recorded(old(self)@, old(self).cap(), k, v),
    {
        let i = self.find(k);
        proof {
            lemma_recorded(self.entries@, self.capacity as nat, k, v);
        }
        if i < self.entries.len() {
            self.entries.remove(i);
        } else if self.entries.len() >= self.capacity {
            self.entries.remove(0);
        }
        self.entries.push((k, v));
    }

    /// The number of entries.
    pub fn len(&self) -> (r: usize)
        ensures
            r == self@.len(),
    {
        self.entries.len()
    }
}

} // verus!
