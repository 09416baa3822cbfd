//! A builder of decision diagrams that interns its nodes by semantic hash,
//! so that nodes for the same function are shared whatever they look like.

use crate::backing_store::bump_table::BackedRobinhoodTable;
use crate::backing_store::hasher::fx_hash;
use crate::repr::bdd::{
    children_first, create_semantic_hash_map, hashes_computed, lemma_semantic_hash_grows,
    node_hash, node_semantic_hash, semantic_hash, weight_values, BddNode, BddPtr, WmcParams,
};
use crate::repr::bdd_wmc::is_inverse;
use crate::repr::robdd::{ordered_ok, same_function, valid};
use crate::repr::semantic_hash::{lemma_equivalent_hash, lemma_field_weights};
use crate::repr::var_order::VarOrder;
use crate::util::finitefield::{lemma_negated_sum, modulus_ok, negated, FiniteField};
use std::collections::HashSet;
use vstd::prelude::*;

verus! {

/// The prime modulo which `num_logically_redundant` hashes.
pub const REDUNDANCY_PRIME: u128 = 10000000049;

/// The number of places below `k` at which `hashes` holds a value that it
/// holds at an earlier place too.
pub open spec fn repeats_below(hashes: Seq<int>, k: int) -> nat
    decreases k,
{
    if k <= 0 {
        0
    } else {
        repeats_below(hashes, k - 1) + if hashes.take(k - 1).contains(hashes[k - 1]) {
            1nat
        } else {
            0nat
        }
    }
}

proof fn lemma_repeats_bound(hashes: Seq<int>, k: int)
    ensures
        repeats_below(hashes, k) <= if k <= 0 { 0 } else { k },
    decreases k,
{
    if k > 0 {
        lemma_repeats_bound(hashes, k - 1);
    }
}

/// The first place at which `rec` holds `hash`; the length of `rec` if it
/// holds `hash` nowhere.
pub open spec fn first_index(rec: Seq<u64>, hash: u64) -> int
    decreases rec.len(),
{
    if rec.len() == 0 {
        0
    } else if first_index(rec.drop_last(), hash) < rec.len() - 1 {
        first_index(rec.drop_last(), hash)
    } else if rec.last() == hash {
        rec.len() - 1
    } else {
        rec.len() as int
    }
}

/// At the first place of `hash` stands `hash`, and before it does not.
pub proof fn lemma_first_index(rec: Seq<u64>, hash: u64)
    ensures
        0 <= first_index(rec, hash) <= rec.len(),
        first_index(rec, hash) < rec.len() ==> rec[first_index(rec, hash)] == hash,
        forall|j: int| 0 <= j < first_index(rec, hash) ==> #[trigger] rec[j] != hash,
    decreases rec.len(),
{
    if rec.len() > 0 {
        let t = rec.drop_last();
        lemma_first_index(t, hash);
        assert forall|j: int| 0 <= j < first_index(rec, hash) implies #[trigger] rec[j] != hash by {
            if j < t.len() {
                assert(t[j] == rec[j]);
            }
        }
        if first_index(t, hash) < t.len() {
            assert(t[first_index(t, hash)] == rec[first_index(t, hash)]);
        }
    }
}

/// A builder of decision diagrams that shares the nodes with the same
/// semantic hash: a node is recorded under a 64-bit hash of its semantic
/// hash, and an edge to it stands for every node with that semantic hash.
pub struct SemanticDecisionNNFBuilder<const P: u128> {
    compute_table: BackedRobinhoodTable<BddNode>,
    order: VarOrder,
    // semantic hashing
    map: WmcParams<FiniteField<P>>,
    // the semantic hash of each node of the table
    cached: Vec<FiniteField<P>>,
}

impl<const P: u128> SemanticDecisionNNFBuilder<P> {
    /// The nodes of the table, in the order of insertion.
    pub closed spec fn nodes(&self) -> Seq<BddNode> {
        self.compute_table.items()
    }

    /// The hash that the table has recorded for each node.
    pub closed spec fn recorded(&self) -> Seq<u64> {
        Seq::new(self.compute_table@.len(), |i: int| self.compute_table@[i].1)
    }

    /// The weights of the variables, as integers.
    pub closed spec fn weights(&self) -> Seq<(int, int)> {
        weight_values(self.map.var_to_val@)
    }

    /// The order of the variables.
    pub closed spec fn spec_order(&self) -> Seq<crate::repr::var_label::VarLabel> {
        self.order@
    }

    /// The semantic hash of an edge into the table.
    pub open spec fn hash_of(&self, ptr: BddPtr) -> int {
        semantic_hash(self.nodes(), self.weights(), P as int, ptr)
    }

    /// The node is one that can be put in: its variable has a weight, and
    /// its children are in the table.
    pub open spec fn admits(&self, bdd: BddNode) -> bool {
        &&& bdd.var.0 < self.weights().len()
        &&& bdd.low.rank() <= self.nodes().len()
        &&& bdd.high.rank() <= self.nodes().len()
    }

    /// The invariant of the builder: the weights are residues that add up
    /// to 1 for each variable of the order, every node has its children
    /// before it and a variable that has a weight, and the hash of every
    /// node is at hand.
    pub closed spec fn wf(&self) -> bool {
        &&& self.compute_table.wf()
        &&& self.map.wf()
        &&& self.map.var_to_val@.len() == self.order@.len()
        &&& children_first(self.nodes())
        &&& forall|i: int|
            0 <= i < self.nodes().len() ==> (#[trigger] self.nodes()[i]).var.0
                < self.map.var_to_val@.len()
        &&& self.cached@.len() == self.nodes().len()
        &&& hashes_computed(self.cached@, self.map.var_to_val@, self.nodes())
    }

    /// A well-formed builder has as many weights as its order has
    /// variables, and a modulus that hashing can work with.
    pub proof fn lemma_wf(&self)
        requires
            self.wf(),
        ensures
            self.weights().len() == self.spec_order().len(),
            modulus_ok(P),
            children_first(self.nodes()),
            self.recorded().len() == self.nodes().len(),
    {
    }

    /// Equivalent edges collide: where the nodes of the builder are
    /// ordered, two edges that denote the same function have the same
    /// semantic hash.
    pub proof fn lemma_equivalent_edges_collide(&self, pos: Seq<usize>, a: BddPtr, b: BddPtr)
        requires
            self.wf(),
            ordered_ok(self.nodes(), pos),
            is_inverse(self.spec_order(), pos),
            valid(self.nodes(), a),
            valid(self.nodes(), b),
            same_function(self.nodes(), pos.len(), a, b),
        ensures
            self.hash_of(a) == self.hash_of(b),
    {
        lemma_field_weights(self.map);
        lemma_equivalent_hash(
            self.nodes(),
            pos,
            self.spec_order(),
            self.weights(),
            P as int,
            a,
            b,
        );
    }

    pub fn order(&self) -> (r: &VarOrder)
        ensures
            r@ == self.spec_order(),
    {
        &self.order
    }

    /// The number of nodes.
    pub fn num_nodes(&self) -> (r: usize)
        requires
            self.wf(),
        ensures
            r == self.nodes().len(),
    {
        self.compute_table.num_nodes()
    }

    /// The builder over the given order with the given weights, and no node.
    pub fn with_weights(order: VarOrder, map: WmcParams<FiniteField<P>>) -> (r: Self)
        requires
            map.wf(),
            map.var_to_val@.len() == order@.len(),
        ensures
            r.wf(),
            r.spec_order() == order@,
            r.weights() == weight_values(map.var_to_val@),
            r.nodes().len() == 0,
    {
        SemanticDecisionNNFBuilder {
            map,
            order,
            compute_table: BackedRobinhoodTable::new(),
            cached: Vec::new(),
        }
    }

    /// The builder over the given order, with random weights and no node.
    pub fn new(order: VarOrder) -> (r: Self)
        requires
            modulus_ok(P),
            P > 2,
        ensures
            r.wf(),
            r.spec_order() == order@,
            r.nodes().len() == 0,
    {
        let map = create_semantic_hash_map(order.num_vars());
        Self::with_weights(order, map)
    }

    /// The semantic hash of a node that can be put in.
    pub fn semantic_hash_of(&self, bdd: &BddNode) -> (r: FiniteField<P>)
        requires
            self.wf(),
            self.admits(*bdd),
        ensures
            r.wf(),
            r@ == node_hash(self.nodes(), self.weights(), P as int, *bdd),
    {
        node_semantic_hash(bdd, &self.cached, &self.map, Ghost(self.nodes()))
    }

    /// The edge to the first node for which `hash` is recorded.
    pub fn cached_regular(&self, hash: u64) -> (r: Option<BddPtr>)
        requires
            self.wf(),
        ensures
            match r {
                Some(ptr) => ptr matches BddPtr::Reg(n) && n < self.nodes().len()
                    && self.recorded()[n as int] == hash && forall|j: int|
                    0 <= j < n ==> #[trigger] self.recorded()[j] != hash,
                None => forall|j: int|
                    0 <= j < self.nodes().len() ==> #[trigger] self.recorded()[j] != hash,
            },
    {
        match self.compute_table.get_by_hash(hash) {
            Some(bdd) => {
                proof {
                    assert forall|j: int| 0 <= j < bdd implies #[trigger] self.recorded()[j]
                        != hash by {
                        assert(self.compute_table@[j].1 != hash);
                    }
                }
                Some(BddPtr::Reg(bdd))
            },
            None => {
                proof {
                    assert forall|j: int| 0 <= j < self.nodes().len() implies #[trigger] self.recorded()[j]
                        != hash by {
                        assert(self.compute_table@[j].1 != hash);
                    }
                }
                None
            },
        }
    }

    /// The complemented edge to the first node for which `hash` is
    /// recorded.
    pub fn cached_negated(&self, hash: u64) -> (r: Option<BddPtr>)
        requires
            self.wf(),
        ensures
            match r {
                Some(ptr) => ptr matches BddPtr::Compl(n) && n < self.nodes().len()
                    && self.recorded()[n as int] == hash && forall|j: int|
                    0 <= j < n ==> #[trigger] self.recorded()[j] != hash,
                None => forall|j: int|
                    0 <= j < self.nodes().len() ==> #[trigger] self.recorded()[j] != hash,
            },
    {
        match self.cached_regular(hash) {
            Some(ptr) => Some(ptr.neg()),
            None => None,
        }
    }

    /// What a search under the two hashes finds for the semantic hash `h`:
    /// the edge to the first node recorded under `hash`, if the semantic
    /// hash of that node is `h`; else the complemented edge to the first
    /// node recorded under `neg_hash`, if the semantic hash of that node
    /// is the negation of `h`; else nothing.
    pub open spec fn shared(&self, h: int, hash: u64, neg_hash: u64) -> Option<BddPtr> {
        let m = first_index(self.recorded(), hash);
        let k = first_index(self.recorded(), neg_hash);
        if m < self.recorded().len() && self.hash_of(BddPtr::Reg(m as usize)) == h {
            Some(BddPtr::Reg(m as usize))
        } else if k < self.recorded().len() && self.hash_of(BddPtr::Reg(k as usize)) == negated(
            h,
            P as int,
        ) {
            Some(BddPtr::Compl(k as usize))
        } else {
            None
        }
    }

    /// The node at `j` is taken for `bdd` under `hash`: it is recorded under
    /// `hash` and, unless the hash alone decides, it is `bdd`.
    pub open spec fn taken(&self, bdd: BddNode, hash: u64, by_hash: bool, j: int) -> bool {
        self.recorded()[j] == hash && (by_hash || self.nodes()[j] == bdd)
    }

    /// What becomes of the builder `before` when `bdd`, of the semantic
    /// hash `h`, is put in under the two hashes, and the edge that is
    /// handed back: the edge that the search finds, in a builder that is
    /// as it was; else the edge to the first node that is `bdd` and
    /// recorded under `hash`, in a builder that is as it was; else the
    /// edge to `bdd`, which is put in at the end and recorded under `hash`.
    pub open spec fn put_in(
        &self,
        before: &Self,
        bdd: BddNode,
        h: int,
        hash: u64,
        neg_hash: u64,
        r: BddPtr,
    ) -> bool {
        let kept = self.nodes() == before.nodes() && self.recorded() == before.recorded();
        match before.shared(h, hash, neg_hash) {
            Some(e) => kept && r == e,
            None => {
                ||| (kept && r is Reg && 1 <= r.rank() <= before.nodes().len() && before.taken(
                    bdd,
                    hash,
                    false,
                    r.rank() - 1,
                ) && forall|j: int| 0 <= j < r.rank() - 1 ==> !before.taken(bdd, hash, false, j))
                ||| (self.nodes() == before.nodes().push(bdd) && self.recorded()
                    == before.recorded().push(hash) && r == BddPtr::Reg(
                    before.nodes().len() as usize,
                ) && forall|j: int|
                    0 <= j < before.nodes().len() ==> !before.taken(bdd, hash, false, j))
            },
        }
    }

    /// The edge that a search under the two hashes finds for the semantic
    /// hash.
    pub fn lookup_hashed(&self, semantic_hash: FiniteField<P>, hash: u64, neg_hash: u64) -> (r:
        Option<BddPtr>)
        requires
            self.wf(),
            semantic_hash.wf(),
        ensures
            r == self.shared(semantic_hash@, hash, neg_hash),
            r matches Some(ptr) ==> 1 <= ptr.rank() <= self.nodes().len() && self.hash_of(ptr)
                == semantic_hash@,
    {
        proof {
            lemma_first_index(self.recorded(), hash);
            lemma_first_index(self.recorded(), neg_hash);
            lemma_negated_sum(semantic_hash@, P as int);
        }
        match self.cached_regular(hash) {
            Some(BddPtr::Reg(m)) => {
                if self.cached[m].value() == semantic_hash.value() {
                    return Some(BddPtr::Reg(m));
                }
            },
            _ => {},
        }
        let negated_hash = semantic_hash.negate();
        match self.cached_negated(neg_hash) {
            Some(BddPtr::Compl(k)) => {
                if self.cached[k].value() == negated_hash.value() {
                    return Some(BddPtr::Compl(k));
                }
            },
            _ => {},
        }
        None
    }

    /// An edge to a node that is in the table under the hash of the given
    /// semantic hash, or, complemented, under the hash of its negation, and
    /// has that semantic hash: what `lookup_hashed` finds under the two
    /// hashes that the hasher gives.
    pub fn check_cached_hash_and_neg(&self, semantic_hash: FiniteField<P>) -> (r: Option<BddPtr>)
        requires
            self.wf(),
            semantic_hash.wf(),
        ensures
            exists|hash: u64, neg_hash: u64| r == #[trigger] self.shared(
                semantic_hash@,
                hash,
                neg_hash,
            ),
            r matches Some(ptr) ==> 1 <= ptr.rank() <= self.nodes().len() && self.hash_of(ptr)
                == semantic_hash@,
    {
        proof {
            self.lemma_wf();
        }
        let hash = fx_hash(semantic_hash.value());
        let neg_hash = fx_hash(semantic_hash.negate().value());
        self.lookup_hashed(semantic_hash, hash, neg_hash)
    }

    /// The edge to the first node that is taken for `bdd` under `hash`; if
    /// there is none, the node is put in under `hash`, and the edge leads
    /// to it.
    fn insert_entry(&mut self, bdd: BddNode, hash: u64, by_hash: bool) -> (r: BddPtr)
        requires
            old(self).wf(),
            old(self).admits(bdd),
        ensures
            final(self).wf(),
            final(self).spec_order() == old(self).spec_order(),
            final(self).weights() == old(self).weights(),
            r matches BddPtr::Reg(n) && n < final(self).nodes().len() && final(self).recorded()[n as int]
                == hash,
            (exists|j: int| 0 <= j < old(self).nodes().len() && old(self).taken(bdd, hash, by_hash, j))
                ==> final(self).nodes() == old(self).nodes() && final(self).recorded() == old(
                self,
            ).recorded() && old(self).taken(bdd, hash, by_hash, r.rank() - 1) && forall|j: int|
                0 <= j < r.rank() - 1 ==> !old(self).taken(bdd, hash, by_hash, j),
            (forall|j: int| 0 <= j < old(self).nodes().len() ==> !old(self).taken(bdd, hash, by_hash, j))
                ==> final(self).nodes() == old(self).nodes().push(bdd) && final(self).recorded()
                == old(self).recorded().push(hash) && r == BddPtr::Reg(
                old(self).nodes().len() as usize,
            ) && final(self).hash_of(r) == node_hash(
                old(self).nodes(),
                old(self).weights(),
                P as int,
                bdd,
            ),
            !by_hash ==> final(self).hash_of(r) == node_hash(
                old(self).nodes(),
                old(self).weights(),
                P as int,
                bdd,
            ),
            forall|ptr: BddPtr|
                ptr.rank() <= old(self).nodes().len() ==> #[trigger] final(self).hash_of(ptr)
                    == old(self).hash_of(ptr),
    {
        let node_hash = self.semantic_hash_of(&bdd);
        let ghost before = self.compute_table@;
        let ghost sought = crate::backing_store::bump_table::sought_item(bdd, by_hash);
        let n = self.compute_table.get_or_insert_by_hash(hash, bdd, by_hash);
        if n == self.cached.len() {
            self.cached.push(node_hash);
        }
        proof {
            let found = exists|j: int|
                0 <= j < old(self).nodes().len() && old(self).taken(bdd, hash, by_hash, j);
            if found {
                let j = choose|j: int|
                    0 <= j < old(self).nodes().len() && old(self).taken(bdd, hash, by_hash, j);
                assert(old(self).nodes()[j] == before[j].0);
                assert(crate::backing_store::bump_table::accepts(before[j], sought, hash));
                assert(self.compute_table@ == before);
                assert(self.nodes() =~= old(self).nodes());
                assert(self.recorded() =~= old(self).recorded());
                assert(self.weights() == old(self).weights());
                assert(old(self).nodes()[n as int] == before[n as int].0);
                assert forall|j: int| 0 <= j < n implies !old(self).taken(bdd, hash, by_hash, j) by {
                    assert(!crate::backing_store::bump_table::accepts(before[j], sought, hash));
                    assert(old(self).nodes()[j] == before[j].0);
                }
                if !by_hash {
                    assert(self.nodes()[n as int] == bdd);
                    assert(self.cached@[n as int]@ == self.hash_of(BddPtr::Reg(n)));
                }
            } else {
                assert forall|j: int| 0 <= j < before.len() implies !crate::backing_store::bump_table::accepts(
                    #[trigger] before[j],
                    sought,
                    hash,
                ) by {
                    assert(!old(self).taken(bdd, hash, by_hash, j));
                    assert(old(self).nodes()[j] == before[j].0);
                }
                assert(self.nodes() =~= old(self).nodes().push(bdd));
                assert(self.recorded() =~= old(self).recorded().push(hash));
                let nodes = old(self).nodes();
                let more = self.nodes();
                let w = self.weights();
                assert(children_first(more));
                assert forall|i: int| 0 <= i < self.cached@.len() implies (
                #[trigger] self.cached@[i]).wf() && self.cached@[i]@ == semantic_hash(
                    more,
                    w,
                    P as int,
                    BddPtr::Reg(i as usize),
                ) by {
                    if i < nodes.len() {
                        lemma_semantic_hash_grows(nodes, more, w, P as int, BddPtr::Reg(i as usize));
                    } else {
                        lemma_semantic_hash_grows(nodes, more, w, P as int, bdd.low);
                        lemma_semantic_hash_grows(nodes, more, w, P as int, bdd.high);
                    }
                }
                lemma_semantic_hash_grows(nodes, more, w, P as int, bdd.low);
                lemma_semantic_hash_grows(nodes, more, w, P as int, bdd.high);
                assert forall|ptr: BddPtr| ptr.rank() <= nodes.len() implies #[trigger] self.hash_of(
                    ptr,
                ) == old(self).hash_of(ptr) by {
                    lemma_semantic_hash_grows(nodes, more, w, P as int, ptr);
                }
            }
        }
        BddPtr::Reg(n)
    }

    /// The edge to the first node for which `hash` is recorded; if there is
    /// none, the node is put in under `hash`, and the edge leads to it.
    pub fn insert_with_hash(&mut self, bdd: BddNode, hash: u64) -> (r: BddPtr)
        requires
            old(self).wf(),
            old(self).admits(bdd),
        ensures
            final(self).wf(),
            final(self).spec_order() == old(self).spec_order(),
            final(self).weights() == old(self).weights(),
            r matches BddPtr::Reg(n) && n < final(self).nodes().len() && final(self).recorded()[n as int]
                == hash,
            (exists|j: int| 0 <= j < old(self).nodes().len() && old(self).recorded()[j] == hash)
                ==> final(self).nodes() == old(self).nodes() && final(self).recorded() == old(
                self,
            ).recorded() && forall|j: int| 0 <= j < r.rank() - 1 ==> old(self).recorded()[j] != hash,
            (forall|j: int| 0 <= j < old(self).nodes().len() ==> old(self).recorded()[j] != hash)
                ==> final(self).nodes() == old(self).nodes().push(bdd) && final(self).recorded()
                == old(self).recorded().push(hash) && r == BddPtr::Reg(
                old(self).nodes().len() as usize,
            ) && final(self).hash_of(r) == node_hash(
                old(self).nodes(),
                old(self).weights(),
                P as int,
                bdd,
            ),
            forall|ptr: BddPtr|
                ptr.rank() <= old(self).nodes().len() ==> #[trigger] final(self).hash_of(ptr)
                    == old(self).hash_of(ptr),
    {
        let r = self.insert_entry(bdd, hash, true);
        proof {
            if exists|j: int| 0 <= j < old(self).nodes().len() && old(self).recorded()[j] == hash {
                let j = choose|j: int|
                    0 <= j < old(self).nodes().len() && old(self).recorded()[j] == hash;
                assert(old(self).taken(bdd, hash, true, j));
                assert forall|j: int| 0 <= j < r.rank() - 1 implies old(self).recorded()[j]
                    != hash by {
                    assert(!old(self).taken(bdd, hash, true, j));
                }
            } else {
                assert forall|j: int| 0 <= j < old(self).nodes().len() implies !old(self).taken(
                    bdd,
                    hash,
                    true,
                    j,
                ) by {
                    assert(old(self).recorded()[j] != hash);
                }
            }
        }
        r
    }

    /// An edge with the semantic hash of `bdd`, for the two hashes that
    /// stand for that semantic hash and for its negation: the edge that
    /// `lookup_hashed` finds, with the builder as it was; if it finds none,
    /// the edge to `bdd` itself, which is put in under `hash` unless it
    /// stands there already.
    pub fn get_or_insert_hashed(&mut self, bdd: BddNode, hash: u64, neg_hash: u64) -> (r: BddPtr)
        requires
            old(self).wf(),
            old(self).admits(bdd),
        ensures
            final(self).wf(),
            final(self).spec_order() == old(self).spec_order(),
            final(self).weights() == old(self).weights(),
            1 <= r.rank() <= final(self).nodes().len(),
            final(self).put_in(
                old(self),
                bdd,
                node_hash(old(self).nodes(), old(self).weights(), P as int, bdd),
                hash,
                neg_hash,
                r,
            ),
            final(self).hash_of(r) == node_hash(
                old(self).nodes(),
                old(self).weights(),
                P as int,
                bdd,
            ),
            forall|ptr: BddPtr|
                ptr.rank() <= old(self).nodes().len() ==> #[trigger] final(self).hash_of(ptr)
                    == old(self).hash_of(ptr),
    {
        let semantic_hash = self.semantic_hash_of(&bdd);
        match self.lookup_hashed(semantic_hash, hash, neg_hash) {
            Some(found) => {
                return found;
            },
            None => {},
        }
        self.insert_entry(bdd, hash, false)
    }

    /// An edge to a node for the function of `bdd`, as far as the semantic
    /// hash tells: what `get_or_insert_hashed` gives under the two hashes
    /// that the hasher gives for the semantic hash of `bdd` and for its
    /// negation. Whatever those are, the edge has the semantic hash of
    /// `bdd`, and at most `bdd` is put in.
    pub fn get_or_insert(&mut self, bdd: BddNode) -> (r: BddPtr)
        requires
            old(self).wf(),
            old(self).admits(bdd),
        ensures
            final(self).wf(),
            final(self).spec_order() == old(self).spec_order(),
            final(self).weights() == old(self).weights(),
            1 <= r.rank() <= final(self).nodes().len(),
            exists|hash: u64, neg_hash: u64| #[trigger]
                final(self).put_in(
                    old(self),
                    bdd,
                    node_hash(old(self).nodes(), old(self).weights(), P as int, bdd),
                    hash,
                    neg_hash,
                    r,
                ),
            final(self).hash_of(r) == node_hash(
                old(self).nodes(),
                old(self).weights(),
                P as int,
                bdd,
            ),
            final(self).nodes() == old(self).nodes() || (final(self).nodes() == old(
                self,
            ).nodes().push(bdd) && r == BddPtr::Reg(old(self).nodes().len() as usize)),
            forall|ptr: BddPtr|
                ptr.rank() <= old(self).nodes().len() ==> #[trigger] final(self).hash_of(ptr)
                    == old(self).hash_of(ptr),
    {
        let semantic_hash = self.semantic_hash_of(&bdd);
        let hash = fx_hash(semantic_hash.value());
        let neg_hash = fx_hash(semantic_hash.negate().value());
        self.get_or_insert_hashed(bdd, hash, neg_hash)
    }

    /// The semantic hashes of all nodes modulo `Q`, under the given
    /// weights.
    pub fn hashes_under<const Q: u128>(&self, map: &WmcParams<FiniteField<Q>>) -> (r: Vec<
        FiniteField<Q>,
    >)
        requires
            self.wf(),
            map.wf(),
            map.var_to_val@.len() == self.spec_order().len(),
        ensures
            r@.len() == self.nodes().len(),
            hashes_computed(r@, map.var_to_val@, self.nodes()),
    {
        let ghost nodes = self.nodes();
        let n = self.compute_table.num_nodes();
        let mut computed: Vec<FiniteField<Q>> = Vec::new();
        let mut i: usize = 0;
        while i < n
            invariant
                i <= n,
                n == nodes.len(),
                nodes == self.nodes(),
                self.wf(),
                map.wf(),
                map.var_to_val@.len() == self.spec_order().len(),
                computed@.len() == i,
                hashes_computed(computed@, map.var_to_val@, nodes),
            decreases n - i,
        {
            let node = self.compute_table.get(i);
            proof {
                assert(*node == nodes[i as int]);
            }
            let h = node_semantic_hash(node, &computed, map, Ghost(nodes));
            computed.push(h);
            i += 1;
        }
        computed
    }

    /// The number of nodes whose semantic hash modulo `Q`, under the given
    /// weights, is that of a node before them.
    pub fn count_redundant<const Q: u128>(&self, map: &WmcParams<FiniteField<Q>>) -> (r: usize)
        requires
            self.wf(),
            map.wf(),
            map.var_to_val@.len() == self.spec_order().len(),
        ensures
            r == repeats_below(
                Seq::new(
                    self.nodes().len(),
                    |i: int|
                        semantic_hash(
                            self.nodes(),
                            weight_values(map.var_to_val@),
                            Q as int,
                            BddPtr::Reg(i as usize),
                        ),
                ),
                self.nodes().len() as int,
            ),
    {
        let ghost nodes = self.nodes();
        let ghost w = weight_values(map.var_to_val@);
        let ghost hs = Seq::new(
            nodes.len(),
            |i: int| semantic_hash(nodes, w, Q as int, BddPtr::Reg(i as usize)),
        );
        let hashes = self.hashes_under(map);
        let mut num_collisions: usize = 0;
        let mut seen_hashes: HashSet<u128> = HashSet::new();
        let mut i: usize = 0;
        while i < hashes.len()
            invariant
                i <= hashes@.len(),
                hashes@.len() == hs.len(),
                forall|j: int| 0 <= j < hs.len() ==> (#[trigger] hashes@[j])@ == hs[j],
                num_collisions == repeats_below(hs, i as int),
                forall|v: u128| seen_hashes@.contains(v) <==> hs.take(i as int).contains(v as int),
            decreases hashes.len() - i,
        {
            let h = hashes[i].value();
            proof {
                lemma_repeats_bound(hs, i as int);
                assert(hs[i as int] == h);
                let t = hs.take(i as int);
                let t2 = hs.take(i + 1);
                assert forall|v: u128| seen_hashes@.insert(h).contains(v) <==> t2.contains(
                    v as int,
                ) by {
                    if t2.contains(v as int) {
                        let j = choose|j: int| 0 <= j < t2.len() && t2[j] == v as int;
                        if j < i {
                            assert(t[j] == v as int);
                        }
                    }
                    if t.contains(v as int) {
                        let j = choose|j: int| 0 <= j < t.len() && t[j] == v as int;
                        assert(t2[j] == v as int);
                    }
                    if v == h {
                        assert(t2[i as int] == v as int);
                    }
                }
            }
            if seen_hashes.contains(&h) {
                num_collisions += 1;
            } else {
                seen_hashes.insert(h);
            }
            i += 1;
        }
        num_collisions
    }

    /// The number of nodes that hash, under fresh random weights modulo
    /// `REDUNDANCY_PRIME`, as a node before them does.
    pub fn num_logically_redundant(&self) -> (r: usize)
        requires
            self.wf(),
        ensures
            r <= self.nodes().len(),
            self.nodes().len() > 0 ==> r < self.nodes().len(),
    {
        let map = create_semantic_hash_map::<REDUNDANCY_PRIME>(self.order.num_vars());
        let r = self.count_redundant(&map);
        proof {
            let hs = Seq::new(
                self.nodes().len(),
                |i: int|
                    semantic_hash(
                        self.nodes(),
                        weight_values(map.var_to_val@),
                        REDUNDANCY_PRIME as int,
                        BddPtr::Reg(i as usize),
                    ),
            );
            lemma_repeats_bound(hs, self.nodes().len() as int);
            if self.nodes().len() > 0 {
                lemma_repeats_bound(hs, 0);
                Self::lemma_first_no_repeat(hs, self.nodes().len() as int);
            }
        }
        r
    }

    proof fn lemma_first_no_repeat(hs: Seq<int>, k: int)
        requires
            1 <= k <= hs.len(),
        ensures
            repeats_below(hs, k) < k,
        decreases k,
    {
        if k > 1 {
            Self::lemma_first_no_repeat(hs, k - 1);
        } else {
            assert(repeats_below(hs, 0) == 0);
            assert(hs.take(0).len() == 0);
        }
    }
}

} // verus!
