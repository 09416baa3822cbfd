//! An append-only table of items with their hashes, found again through
//! Robin-Hood probing.
//!
//! The items live in an arena, in the order of insertion, and an item keeps
//! the handle that it got when it was put in: its place in the arena. The
//! probe slots hold handles, not items, so that a handle stays valid when
//! the slots are laid out anew. An item's home is its hash modulo the
//! number of homes; it stands at its home or, displaced, in one of the
//! slots behind it. The slots between its home and its place are taken, and
//! along a row of taken slots the homes never go down, which is what
//! Robin-Hood insertion keeps up: an item on its way takes the slot of the
//! first item whose home lies behind its own, and that item moves on in its
//! stead. There are twice as many slots as homes, and fewer items than
//! homes, so that no row of taken slots reaches the end.
//!
//! The number of slots doubles when more than seven in ten homes would be
//! in use. Should the number of slots ever reach what the machine's word
//! can count, the items that come after that get no slot, and are found by
//! going through them.

use crate::backing_store::hasher::UniqueTableHasher;
use vstd::prelude::*;

verus! {

/// What a table asks of its items: a view, and a test for equal views.
pub trait TableItem: View + Sized {
    fn same(&self, other: &Self) -> (r: bool)
        ensures
            r == (self@ == other@),
    ;
}

/// The entry is one that a search accepts: its recorded hash is `hash`,
/// and it holds the item that is sought, if one is.
pub open spec fn accepts<V>(entry: (V, u64), sought: Option<V>, hash: u64) -> bool {
    entry.1 == hash && (sought matches Some(item) ==> entry.0 == item)
}

/// `i` is the handle of the first entry that the search accepts.
pub open spec fn first_accepted<V>(
    entries: Seq<(V, u64)>,
    sought: Option<V>,
    hash: u64,
    i: int,
) -> bool {
    &&& 0 <= i < entries.len()
    &&& accepts(entries[i], sought, hash)
    &&& forall|j: int| 0 <= j < i ==> !accepts(#[trigger] entries[j], sought, hash)
}

/// The search accepts no entry.
pub open spec fn none_accepted<V>(entries: Seq<(V, u64)>, sought: Option<V>, hash: u64) -> bool {
    forall|j: int| 0 <= j < entries.len() ==> !accepts(#[trigger] entries[j], sought, hash)
}

/// What is sought: the item, or, where the hash alone decides, none.
pub open spec fn sought_item<V>(item: V, by_hash: bool) -> Option<V> {
    if by_hash {
        None
    } else {
        Some(item)
    }
}

/// No two entries hold the same item.
pub open spec fn items_distinct<V>(entries: Seq<(V, u64)>) -> bool {
    forall|i: int, j: int|
        0 <= i < j < entries.len() ==> (#[trigger] entries[i]).0 != (#[trigger] entries[j]).0
}

/// Each entry that holds `item` has `hash` for its recorded hash.
pub open spec fn hash_agrees<V>(entries: Seq<(V, u64)>, item: V, hash: u64) -> bool {
    forall|i: int| 0 <= i < entries.len() && (#[trigger] entries[i]).0 == item ==> entries[i].1 == hash
}

/// Interning keeps items unique: in a table in which no item occurs twice,
/// a search for an item with the hash that the table has recorded for it,
/// if it holds it, finds the item or puts it in, and no item occurs twice
/// afterwards.
pub proof fn lemma_interned_once<V>(
    before: Seq<(V, u64)>,
    after: Seq<(V, u64)>,
    item: V,
    hash: u64,
    r: int,
)
    requires
        items_distinct(before),
        hash_agrees(before, item, hash),
        none_accepted(before, Some(item), hash) ==> r == before.len() && after == before.push(
            (item, hash),
        ),
        !none_accepted(before, Some(item), hash) ==> first_accepted(before, Some(item), hash, r)
            && after == before,
    ensures
        items_distinct(after),
        0 <= r < after.len(),
        after[r].0 == item,
        forall|i: int| 0 <= i < after.len() && (#[trigger] after[i]).0 == item ==> i == r,
{
    if none_accepted(before, Some(item), hash) {
        assert forall|i: int| 0 <= i < before.len() implies (#[trigger] before[i]).0 != item by {
            assert(!accepts(before[i], Some(item), hash));
        }
        assert forall|i: int, j: int| 0 <= i < j < after.len() implies (#[trigger] after[i]).0 != (
        #[trigger] after[j]).0 by {
            if j < before.len() {
                assert(before[i].0 != before[j].0);
            } else {
                assert(before[i].0 != item);
            }
        }
    } else {
        assert forall|i: int| 0 <= i < after.len() && (#[trigger] after[i]).0 == item implies i
            == r by {
            if i < r {
                assert(before[i].0 != before[r].0);
            } else if i > r {
                assert(before[r].0 != before[i].0);
            }
        }
    }
}

/// The number of homes of a new table.
pub const DEFAULT_SIZE: usize = 8;

/// The home of the item with the handle `idx`.
spec fn home(hashes: Seq<u64>, cap: int, idx: int) -> int {
    (hashes[idx] as int) % cap
}

/// The home of the item in the slot `p`.
spec fn slot_home(slots: Seq<Option<usize>>, hashes: Seq<u64>, cap: int, p: int) -> int {
    home(hashes, cap, slots[p].unwrap() as int)
}

/// The number of taken slots among the first `k`.
spec fn taken(slots: Seq<Option<usize>>, k: int) -> nat
    decreases k,
{
    if k <= 0 {
        0
    } else {
        taken(slots, k - 1) + if slots[k - 1] is Some {
            1nat
        } else {
            0nat
        }
    }
}

/// The item with the handle `idx` has a slot.
spec fn placed(slots: Seq<Option<usize>>, idx: int) -> bool {
    exists|p: int| 0 <= p < slots.len() && #[trigger] slots[p] == Some(idx as usize)
}

/// If the slot `p` is taken, it holds a handle below `k` whose home is not
/// behind the slot; if the item is displaced, the slot before is taken; and
/// if the slot before is taken, the home of its item is not behind that of
/// this one.
spec fn row_ok_at(slots: Seq<Option<usize>>, hashes: Seq<u64>, cap: int, k: int, p: int) -> bool {
    slots[p] is Some ==> {
        &&& slots[p].unwrap() < k
        &&& slot_home(slots, hashes, cap, p) <= p
        &&& (p >= 1 && slot_home(slots, hashes, cap, p) < p ==> slots[p - 1] is Some)
        &&& (p >= 1 && slots[p - 1] is Some ==> slot_home(slots, hashes, cap, p - 1) <= slot_home(
            slots,
            hashes,
            cap,
            p,
        ))
    }
}

/// The rows of taken slots are in order.
spec fn rows_ok(slots: Seq<Option<usize>>, hashes: Seq<u64>, cap: int, k: int) -> bool {
    forall|p: int| 0 <= p < slots.len() ==> #[trigger] row_ok_at(slots, hashes, cap, k, p)
}

/// The slots hold the first `k` items: each of them has a slot, `k` slots
/// are taken, and the rows are in order.
spec fn slots_ok(slots: Seq<Option<usize>>, hashes: Seq<u64>, cap: int, k: int) -> bool {
    &&& cap > 0
    &&& slots.len() == 2 * cap
    &&& 0 <= k <= hashes.len()
    &&& taken(slots, slots.len() as int) == k
    &&& forall|idx: int| 0 <= idx < k ==> #[trigger] placed(slots, idx)
    &&& rows_ok(slots, hashes, cap, k)
}

/// Taking a free slot makes one more slot taken, and putting another handle
/// in a taken slot leaves the number as it is.
proof fn lemma_taken_update(slots: Seq<Option<usize>>, p: int, v: usize, k: int)
    requires
        0 <= p < slots.len(),
        0 <= k <= slots.len(),
    ensures
        taken(slots.update(p, Some(v)), k) == taken(slots, k) + if p < k && slots[p] is None {
            1nat
        } else {
            0nat
        },
    decreases k,
{
    if k > 0 {
        lemma_taken_update(slots, p, v, k - 1);
    }
}

/// A row of taken slots is no longer than the number of taken slots.
proof fn lemma_row_bound(slots: Seq<Option<usize>>, a: int, b: int, k: int)
    requires
        0 <= a <= b <= k <= slots.len(),
        forall|q: int| a <= q < b ==> (#[trigger] slots[q]) is Some,
    ensures
        b - a <= taken(slots, k),
    decreases k,
{
    if k > b {
        lemma_row_bound(slots, a, b, k - 1);
    } else if b > a {
        lemma_row_bound(slots, a, b - 1, k - 1);
    }
}

/// No slot of a table without taken slots is taken.
proof fn lemma_taken_none(slots: Seq<Option<usize>>, k: int)
    requires
        0 <= k <= slots.len(),
        forall|q: int| 0 <= q < slots.len() ==> (#[trigger] slots[q]) is None,
    ensures
        taken(slots, k) == 0,
    decreases k,
{
    if k > 0 {
        lemma_taken_none(slots, k - 1);
    }
}

/// The slots from the home of an item to its place are taken by items
/// whose homes are not behind its own.
proof fn lemma_row_to_home(
    slots: Seq<Option<usize>>,
    hashes: Seq<u64>,
    cap: int,
    k: int,
    q: int,
    p: int,
)
    requires
        cap > 0,
        rows_ok(slots, hashes, cap, k),
        0 <= q < slots.len(),
        slots[q] is Some,
        slot_home(slots, hashes, cap, q) <= p <= q,
    ensures
        slots[p] is Some,
        slot_home(slots, hashes, cap, p) <= slot_home(slots, hashes, cap, q),
    decreases q - p,
{
    if p < q {
        lemma_row_to_home(slots, hashes, cap, k, q, p + 1);
        assert(row_ok_at(slots, hashes, cap, k, p + 1));
        assert(row_ok_at(slots, hashes, cap, k, q));
    }
}

/// The hashes that were there stay where they are when one is added.
proof fn lemma_rows_more_hashes(
    slots: Seq<Option<usize>>,
    hashes: Seq<u64>,
    more: Seq<u64>,
    cap: int,
    k: int,
)
    requires
        slots_ok(slots, hashes, cap, k),
        hashes.len() <= more.len(),
        forall|i: int| 0 <= i < hashes.len() ==> #[trigger] more[i] == hashes[i],
    ensures
        slots_ok(slots, more, cap, k),
{
    assert forall|p: int| 0 <= p < slots.len() implies #[trigger] row_ok_at(
        slots,
        more,
        cap,
        k,
        p,
    ) by {
        assert(row_ok_at(slots, hashes, cap, k, p));
        if p >= 1 {
            assert(row_ok_at(slots, hashes, cap, k, p - 1));
        }
    }
}

/// The home of a hash among `cap` homes.
fn home_of(hash: u64, cap: usize) -> (r: usize)
    requires
        cap > 0,
    ensures
        r == (hash as int) % (cap as int),
        r < cap,
{
    (hash % (cap as u64)) as usize
}

/// Gives the item with the handle `idx` a slot: from its home on, the item
/// on its way takes the first free slot, or the slot of the first item
/// whose home lies behind its own, and that item moves on in its stead.
fn place(slots: &mut Vec<Option<usize>>, hashes: &Vec<u64>, cap: usize, idx: usize)
    requires
        slots_ok(old(slots)@, hashes@, cap as int, idx as int),
        idx < hashes@.len(),
        idx < cap,
    ensures
        slots_ok(final(slots)@, hashes@, cap as int, idx + 1),
{
    let start = home_of(hashes[idx], cap);
    let len = slots.len();
    let mut carry: usize = idx;
    let mut c: usize = start;
    let mut p: usize = start;
    proof {
        assert forall|q: int| 0 <= q < slots@.len() implies #[trigger] row_ok_at(
            slots@,
            hashes@,
            cap as int,
            idx + 1,
            q,
        ) by {
            assert(row_ok_at(slots@, hashes@, cap as int, idx as int, q));
        }
    }
    loop
        invariant_except_break
            cap > 0,
            slots@.len() == 2 * cap,
            len == 2 * cap,
            idx < hashes@.len(),
            idx < cap,
            start < cap,
            start <= p <= 2 * cap,
            carry <= idx,
            c == home(hashes@, cap as int, carry as int),
            c <= p,
            p == start ==> c == start,
            taken(slots@, slots@.len() as int) == idx,
            forall|j: int| 0 <= j <= idx && j != carry ==> #[trigger] placed(slots@, j),
            rows_ok(slots@, hashes@, cap as int, idx + 1),
            forall|q: int| start <= q < p ==> (#[trigger] slots@[q]) is Some,
            p > start ==> slot_home(slots@, hashes@, cap as int, p - 1) <= c,
        ensures
            slots_ok(slots@, hashes@, cap as int, idx + 1),
        decreases 2 * cap - p,
    {
        proof {
            lemma_row_bound(slots@, start as int, p as int, slots@.len() as int);
        }
        let ghost t = slots@;
        match slots[p] {
            None => {
                slots[p] = Some(carry);
                proof {
                    let t2 = slots@;
                    lemma_taken_update(t, p as int, carry, t.len() as int);
                    assert forall|j: int| 0 <= j < idx + 1 implies #[trigger] placed(t2, j) by {
                        if j == carry {
                            assert(t2[p as int] == Some(j as usize));
                        } else {
                            assert(placed(t, j));
                            let q = choose|q: int|
                                0 <= q < t.len() && #[trigger] t[q] == Some(j as usize);
                            assert(t2[q] == Some(j as usize));
                        }
                    }
                    lemma_place_free(t, hashes@, cap as int, idx + 1, p as int, carry, start as int);
                }
                break;
            },
            Some(j) => {
                proof {
                    assert(row_ok_at(t, hashes@, cap as int, idx + 1, p as int));
                }
                let hj = home_of(hashes[j], cap);
                if hj > c {
                    slots[p] = Some(carry);
                    proof {
                        let t2 = slots@;
                        lemma_taken_update(t, p as int, carry, t.len() as int);
                        assert forall|i: int| 0 <= i <= idx && i != j implies #[trigger] placed(
                            t2,
                            i,
                        ) by {
                            if i == carry {
                                assert(t2[p as int] == Some(i as usize));
                            } else {
                                assert(placed(t, i));
                                let q = choose|q: int|
                                    0 <= q < t.len() && #[trigger] t[q] == Some(i as usize);
                                assert(t2[q] == Some(i as usize));
                            }
                        }
                        lemma_place_taken(
                            t,
                            hashes@,
                            cap as int,
                            idx + 1,
                            p as int,
                            carry,
                            start as int,
                        );
                        assert forall|q: int| start <= q < p + 1 implies (
                        #[trigger] t2[q]) is Some by {
                            if q < p {
                                assert(t[q] is Some);
                            }
                        }
                    }
                    carry = j;
                    c = hj;
                }
                p += 1;
            },
        }
    }
}

/// Putting the item on its way in a free slot keeps the rows in order.
proof fn lemma_place_free(
    t: Seq<Option<usize>>,
    hashes: Seq<u64>,
    cap: int,
    k: int,
    p: int,
    carry: usize,
    start: int,
)
    requires
        rows_ok(t, hashes, cap, k),
        0 <= start <= p < t.len(),
        t[p] is None,
        carry < k,
        home(hashes, cap, carry as int) <= p,
        p == start ==> home(hashes, cap, carry as int) == start,
        forall|q: int| start <= q < p ==> (#[trigger] t[q]) is Some,
        p > start ==> slot_home(t, hashes, cap, p - 1) <= home(hashes, cap, carry as int),
    ensures
        rows_ok(t.update(p, Some(carry)), hashes, cap, k),
{
    let t2 = t.update(p, Some(carry));
    let c = home(hashes, cap, carry as int);
    assert forall|q: int| 0 <= q < t2.len() implies #[trigger] row_ok_at(t2, hashes, cap, k, q) by {
        assert(row_ok_at(t, hashes, cap, k, q));
        if q >= 1 {
            assert(row_ok_at(t, hashes, cap, k, q - 1));
        }
        if q == p {
            if p > start {
                assert(t[p - 1] is Some);
            }
        } else if q == p + 1 {
            if t[q] is Some {
                // the slot before was free, so the item stands at its home
                assert(slot_home(t, hashes, cap, q) == q);
            }
        }
    }
}

/// Putting the item on its way in the slot of an item whose home lies
/// behind its own keeps the rows in order.
proof fn lemma_place_taken(
    t: Seq<Option<usize>>,
    hashes: Seq<u64>,
    cap: int,
    k: int,
    p: int,
    carry: usize,
    start: int,
)
    requires
        rows_ok(t, hashes, cap, k),
        0 <= start <= p < t.len(),
        t[p] is Some,
        slot_home(t, hashes, cap, p) > home(hashes, cap, carry as int),
        carry < k,
        home(hashes, cap, carry as int) <= p,
        p == start ==> home(hashes, cap, carry as int) == start,
        forall|q: int| start <= q < p ==> (#[trigger] t[q]) is Some,
        p > start ==> slot_home(t, hashes, cap, p - 1) <= home(hashes, cap, carry as int),
    ensures
        rows_ok(t.update(p, Some(carry)), hashes, cap, k),
        slot_home(t.update(p, Some(carry)), hashes, cap, p) <= slot_home(t, hashes, cap, p),
        slot_home(t, hashes, cap, p) <= p,
{
    let t2 = t.update(p, Some(carry));
    assert(row_ok_at(t, hashes, cap, k, p));
    assert forall|q: int| 0 <= q < t2.len() implies #[trigger] row_ok_at(t2, hashes, cap, k, q) by {
        assert(row_ok_at(t, hashes, cap, k, q));
        if q >= 1 {
            assert(row_ok_at(t, hashes, cap, k, q - 1));
        }
        if q == p {
            if p > start {
                assert(t[p - 1] is Some);
            }
        }
    }
}

/// A table that interns items.
pub struct BackedRobinhoodTable<T> {
    /// the items, in the order of insertion
    arena: Vec<T>,
    /// the hash that was recorded for each item
    hashes: Vec<u64>,
    /// the probe slots: each is free or holds a handle
    slots: Vec<Option<usize>>,
    /// the number of homes
    cap: usize,
    /// the number of items that have a slot: the first so many
    indexed: usize,
}

impl<T: TableItem> View for BackedRobinhoodTable<T> {
    type V = Seq<(T::V, u64)>;

    closed spec fn view(&self) -> Seq<(T::V, u64)> {
        Seq::new(self.arena@.len(), |i: int| (self.arena@[i]@, self.hashes@[i]))
    }
}

impl<T: TableItem> BackedRobinhoodTable<T> {
    /// The invariant of the table: every item has its recorded hash, the
    /// items that have a slot are the first so many, the rows of taken
    /// slots are in order, and no more than seven in ten homes are in use.
    pub closed spec fn wf(&self) -> bool {
        &&& self.arena@.len() == self.hashes@.len()
        &&& self.cap >= 8
        &&& self.indexed <= self.arena@.len()
        &&& slots_ok(self.slots@, self.hashes@, self.cap as int, self.indexed as int)
        &&& self.indexed * 10 <= self.cap * 7
    }

    /// The views of the items, in the order of insertion.
    pub open spec fn items(&self) -> Seq<T::V> {
        Seq::new(self@.len(), |i: int| self@[i].0)
    }

    /// The empty table.
    pub fn new() -> (r: Self)
        ensures
            r.wf(),
            r@.len() == 0,
    {
        let slots = Self::free_slots(DEFAULT_SIZE);
        BackedRobinhoodTable {
            arena: Vec::new(),
            hashes: Vec::new(),
            slots,
            cap: DEFAULT_SIZE,
            indexed: 0,
        }
    }

    /// Free slots for `cap` homes.
    fn free_slots(cap: usize) -> (r: Vec<Option<usize>>)
        requires
            0 < cap <= usize::MAX / 2,
        ensures
            forall|hashes: Seq<u64>| slots_ok(r@, hashes, cap as int, 0),
    {
        let mut slots: Vec<Option<usize>> = Vec::new();
        let mut i: usize = 0;
        while i < 2 * cap
            invariant
                i <= 2 * cap,
                cap <= usize::MAX / 2,
                slots@.len() == i,
                forall|q: int| 0 <= q < i ==> (#[trigger] slots@[q]) is None,
            decreases 2 * cap - i,
        {
            slots.push(None);
            i += 1;
        }
        proof {
            lemma_taken_none(slots@, slots@.len() as int);
        }
        slots
    }

    /// The number of items.
    pub fn num_nodes(&self) -> (r: usize)
        requires
            self.wf(),
        ensures
            r == self@.len(),
    {
        self.arena.len()
    }

    /// The item with the given handle.
    pub fn get(&self, handle: usize) -> (r: &T)
        requires
            self.wf(),
            handle < self@.len(),
        ensures
            r@ == self@[handle as int].0,
    {
        &self.arena[handle]
    }

    /// The hash that was recorded for the item with the given handle.
    pub fn hash_of(&self, handle: usize) -> (r: u64)
        requires
            self.wf(),
            handle < self@.len(),
        ensures
            r == self@[handle as int].1,
    {
        self.hashes[handle]
    }

    /// The handles of the items, in the order of insertion.
    pub fn iter(&self) -> (r: Vec<usize>)
        requires
            self.wf(),
        ensures
            r@.len() == self@.len(),
            forall|i: int| 0 <= i < r@.len() ==> #[trigger] r@[i] == i,
    {
        let mut r: Vec<usize> = Vec::new();
        let mut i: usize = 0;
        while i < self.arena.len()
            invariant
                i <= self.arena@.len(),
                r@.len() == i,
                forall|j: int| 0 <= j < i ==> #[trigger] r@[j] == j,
            decreases self.arena.len() - i,
        {
            r.push(i);
            i += 1;
        }
        r
    }

    /// Whether the entry with the handle `i` is one that the search accepts.
    fn hit(&self, i: usize, hash: u64, item: Option<&T>) -> (r: bool)
        requires
            self.wf(),
            i < self@.len(),
        ensures
            r == accepts(
                self@[i as int],
                match item {
                    Some(x) => Some(x@),
                    None => None,
                },
                hash,
            ),
    {
        self.hashes[i] == hash && match item {
            Some(x) => self.arena[i].same(x),
            None => true,
        }
    }

    /// The least handle of an entry that has the given hash and holds the
    /// item, if one is given. The entries with the hash that have a slot
    /// stand in a row from the home of the hash on, which ends at a free
    /// slot or at an item whose home lies behind.
    fn find(&self, hash: u64, item: Option<&T>) -> (r: Option<usize>)
        requires
            self.wf(),
        ensures
            match r {
                Some(i) => first_accepted(
                    self@,
                    match item {
                        Some(x) => Some(x@),
                        None => None,
                    },
                    hash,
                    i as int,
                ),
                None => none_accepted(
                    self@,
                    match item {
                        Some(x) => Some(x@),
                        None => None,
                    },
                    hash,
                ),
            },
    {
        let ghost sought: Option<T::V> = match item {
            Some(x) => Some(x@),
            None => None,
        };
        let ghost k = self.indexed as int;
        let start = home_of(hash, self.cap);
        let mut p: usize = start;
        let mut best: Option<usize> = None;
        let mut done = false;
        while !done && p < self.slots.len()
            invariant
                self.wf(),
                k == self.indexed,
                start == (hash as int) % (self.cap as int),
                start <= p <= self.slots@.len(),
                sought == (match item {
                    Some(x) => Some(x@),
                    None => None,
                }),
                forall|q: int|
                    start <= q < p - (if done { 1int } else { 0int }) ==> (
                    #[trigger] self.slots@[q]) is Some && slot_home(
                        self.slots@,
                        self.hashes@,
                        self.cap as int,
                        q,
                    ) <= start,
                done ==> p > start && (self.slots@[p - 1] is None || slot_home(
                    self.slots@,
                    self.hashes@,
                    self.cap as int,
                    p - 1,
                ) > start),
                best matches Some(b) ==> b < k && accepts(self@[b as int], sought, hash),
                forall|q: int|
                    start <= q < p && (#[trigger] self.slots@[q]) is Some
                        && self.slots@[q].unwrap() < k && accepts(
                        self@[self.slots@[q].unwrap() as int],
                        sought,
                        hash,
                    ) ==> best is Some && best.unwrap() <= self.slots@[q].unwrap(),
            decreases self.slots@.len() - p, (if done { 0int } else { 1int }),
        {
            match self.slots[p] {
                None => {
                    done = true;
                },
                Some(i) => {
                    proof {
                        assert(row_ok_at(
                            self.slots@,
                            self.hashes@,
                            self.cap as int,
                            k,
                            p as int,
                        ));
                    }
                    if home_of(self.hashes[i], self.cap) > start {
                        done = true;
                        proof {
                            assert(self.hashes@[i as int] != hash);
                        }
                    } else {
                        if self.hit(i, hash, item) {
                            best = match best {
                                Some(b) => if i < b {
                                    Some(i)
                                } else {
                                    Some(b)
                                },
                                None => Some(i),
                            };
                        }
                    }
                },
            }
            p += 1;
        }
        proof {
            // every entry with a slot that is accepted stands in the row that was gone through
            assert forall|j: int| 0 <= j < k && accepts(#[trigger] self@[j], sought, hash) implies best is Some
                && best.unwrap() <= j by {
                assert(placed(self.slots@, j));
                let q = choose|q: int|
                    0 <= q < self.slots@.len() && #[trigger] self.slots@[q] == Some(j as usize);
                assert(row_ok_at(self.slots@, self.hashes@, self.cap as int, k, q));
                assert(slot_home(self.slots@, self.hashes@, self.cap as int, q) == start);
                if q >= p - (if done {
                    1int
                } else {
                    0int
                }) {
                    if done {
                        lemma_row_to_home(
                            self.slots@,
                            self.hashes@,
                            self.cap as int,
                            k,
                            q,
                            p - 1,
                        );
                    } else {
                        assert(p == self.slots@.len());
                    }
                }
                assert(start <= q < p);
            }
        }
        if best.is_some() {
            return best;
        }
        // the items without a slot
        let mut i: usize = self.indexed;
        while i < self.arena.len()
            invariant
                self.wf(),
                self.indexed <= i <= self.arena@.len(),
                sought == (match item {
                    Some(x) => Some(x@),
                    None => None,
                }),
                forall|j: int| 0 <= j < i ==> !accepts(#[trigger] self@[j], sought, hash),
            decreases self.arena.len() - i,
        {
            if self.hit(i, hash, item) {
                return Some(i);
            }
            i += 1;
        }
        None
    }

    /// The handle of the first item whose recorded hash is `hash`.
    pub fn get_by_hash(&self, hash: u64) -> (r: Option<usize>)
        requires
            self.wf(),
        ensures
            match r {
                Some(i) => i < self@.len() && self@[i as int].1 == hash && forall|j: int|
                    0 <= j < i ==> (#[trigger] self@[j]).1 != hash,
                None => forall|j: int| 0 <= j < self@.len() ==> (#[trigger] self@[j]).1 != hash,
            },
    {
        let r = self.find(hash, None);
        proof {
            match r {
                Some(i) => {
                    assert forall|j: int| 0 <= j < i implies (#[trigger] self@[j]).1 != hash by {
                        assert(!accepts(self@[j], None, hash));
                    }
                },
                None => {
                    assert forall|j: int| 0 <= j < self@.len() implies (#[trigger] self@[j]).1
                        != hash by {
                        assert(!accepts(self@[j], None, hash));
                    }
                },
            }
        }
        r
    }

    /// Lays the slots out anew, with twice as many homes.
    fn grow(&mut self)
        requires
            old(self).wf(),
            old(self).cap <= usize::MAX / 4,
        ensures
            final(self).wf(),
            final(self)@ == old(self)@,
            final(self).cap == 2 * old(self).cap,
            final(self).indexed == old(self).indexed,
            final(self).arena == old(self).arena,
            final(self).hashes == old(self).hashes,
    {
        let new_cap = self.cap * 2;
        let mut slots = Self::free_slots(new_cap);
        let n = self.indexed;
        let mut i: usize = 0;
        while i < n
            invariant
                i <= n,
                n <= self.hashes@.len(),
                n < new_cap,
                slots_ok(slots@, self.hashes@, new_cap as int, i as int),
            decreases n - i,
        {
            place(&mut slots, &self.hashes, new_cap, i);
            i += 1;
        }
        self.slots = slots;
        self.cap = new_cap;
    }

    /// The handle of the first entry that has the given hash and, unless
    /// `equality_by_hash` is set, holds `elem`. If there is none, `elem` is
    /// put in with that hash, and gets the next handle.
    pub fn get_or_insert_by_hash(&mut self, hash: u64, elem: T, equality_by_hash: bool) -> (r:
        usize)
        requires
            old(self).wf(),
        ensures
            final(self).wf(),
            none_accepted(old(self)@, sought_item(elem@, equality_by_hash), hash) ==> r == old(
                self,
            )@.len() && final(self)@ == old(self)@.push((elem@, hash)),
            !none_accepted(old(self)@, sought_item(elem@, equality_by_hash), hash)
                ==> first_accepted(
                old(self)@,
                sought_item(elem@, equality_by_hash),
                hash,
                r as int,
            ) && final(self)@ == old(self)@,
    {
        let found = if equality_by_hash {
            self.find(hash, None)
        } else {
            self.find(hash, Some(&elem))
        };
        match found {
            Some(i) => i,
            None => {
                let n = self.arena.len();
                let mut with_slot = self.indexed == n;
                if with_slot && (n as u128 + 1) * 10 > (self.cap as u128) * 7 {
                    if self.cap <= usize::MAX / 4 {
                        self.grow();
                    } else {
                        with_slot = false;
                    }
                }
                let ghost before = self.hashes@;
                self.arena.push(elem);
                self.hashes.push(hash);
                proof {
                    lemma_rows_more_hashes(
                        self.slots@,
                        before,
                        self.hashes@,
                        self.cap as int,
                        self.indexed as int,
                    );
                }
                if with_slot {
                    assert(self.indexed == n);
                    place(&mut self.slots, &self.hashes, self.cap, n);
                    self.indexed = n + 1;
                }
                assert(self@ =~= old(self)@.push((elem@, hash)));
                n
            },
        }
    }

    /// The handle of the first entry that has the given hash and holds
    /// `item`, if there is one.
    pub fn lookup(&self, hash: u64, item: &T) -> (r: Option<usize>)
        requires
            self.wf(),
        ensures
            match r {
                Some(i) => first_accepted(self@, Some(item@), hash, i as int),
                None => none_accepted(self@, Some(item@), hash),
            },
    {
        self.find(hash, Some(item))
    }

    /// The handle of the item: that of the first entry that holds an item
    /// with the same view under the hash that the hasher gives the item, or,
    /// if there is none, the next handle, which the item then gets. In a
    /// table that was filled with this hasher alone no item stands twice.
    pub fn get_or_insert<H: UniqueTableHasher<T>>(&mut self, item: T, hasher: &H) -> (r: usize)
        requires
            old(self).wf(),
        ensures
            final(self).wf(),
            r < final(self)@.len(),
            final(self)@[r as int] == (item@, hasher.hash_of(item@)),
            none_accepted(old(self)@, Some(item@), hasher.hash_of(item@)) ==> r == old(self)@.len()
                && final(self)@ == old(self)@.push((item@, hasher.hash_of(item@))),
            !none_accepted(old(self)@, Some(item@), hasher.hash_of(item@)) ==> first_accepted(
                old(self)@,
                Some(item@),
                hasher.hash_of(item@),
                r as int,
            ) && final(self)@ == old(self)@,
            hashed_by(old(self)@, hasher) ==> hashed_by(final(self)@, hasher),
            hashed_by(old(self)@, hasher) && items_distinct(old(self)@) ==> items_distinct(
                final(self)@,
            ) && (r < old(self)@.len() <==> exists|i: int|
                0 <= i < old(self)@.len() && (#[trigger] old(self)@[i]).0 == item@),
    {
        let hash = hasher.u64hash(&item);
        let ghost before = self@;
        let ghost v = item@;
        let r = self.get_or_insert_by_hash(hash, item, false);
        proof {
            if hashed_by(before, hasher) && items_distinct(before) {
                assert(hash_agrees(before, v, hash));
                lemma_interned_once(before, self@, v, hash, r as int);
                if exists|i: int| 0 <= i < before.len() && (#[trigger] before[i]).0 == v {
                    let i = choose|i: int| 0 <= i < before.len() && (#[trigger] before[i]).0 == v;
                    assert(accepts(before[i], Some(v), hash));
                }
            }
        }
        r
    }
}

/// Each entry stands under the hash that the hasher gives its item.
pub open spec fn hashed_by<T: View, H: UniqueTableHasher<T>>(
    entries: Seq<(T::V, u64)>,
    hasher: &H,
) -> bool {
    forall|i: int|
        0 <= i < entries.len() ==> (#[trigger] entries[i]).1 == hasher.hash_of(entries[i].0)
}

} // verus!
