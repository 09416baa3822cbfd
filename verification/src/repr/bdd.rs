//! Nodes of binary decision diagrams, the edges between them, and the
//! semantic hash of a diagram: its weighted model count modulo a prime,
//! under weights that add up to 1 for each variable.

use crate::backing_store::bump_table::TableItem;
use crate::repr::random::{random_in_range, thread_rng};
use crate::repr::var_label::VarLabel;
use crate::util::finitefield::{lemma_negated_sum, modulus_ok, negated, FiniteField};
use vstd::arithmetic::div_mod::{lemma_add_mod_noop, lemma_mod_bound, lemma_small_mod};
use vstd::prelude::*;

verus! {

/// An edge of a diagram: one of the two constants, or a handle of a node,
/// taken as it is or complemented. A handle is the place of the node in the
/// table that holds the diagram.
#[derive(Clone, Copy, Debug, PartialEq, Eq, Hash, Structural)]
pub enum BddPtr {
    PtrTrue,
    PtrFalse,
    Reg(usize),
    Compl(usize),
}

impl BddPtr {
    /// The edge to the negation of what this edge leads to.
    pub open spec fn negated(self) -> BddPtr {
        match self {
            BddPtr::PtrTrue => BddPtr::PtrFalse,
            BddPtr::PtrFalse => BddPtr::PtrTrue,
            BddPtr::Reg(n) => BddPtr::Compl(n),
            BddPtr::Compl(n) => BddPtr::Reg(n),
        }
    }

    /// One more than the handle of the edge; 0 for a constant.
    pub open spec fn rank(self) -> nat {
        match self {
            BddPtr::PtrTrue => 0,
            BddPtr::PtrFalse => 0,
            BddPtr::Reg(n) => (n + 1) as nat,
            BddPtr::Compl(n) => (n + 1) as nat,
        }
    }

    pub fn new_reg(n: usize) -> (r: BddPtr)
        ensures
            r == BddPtr::Reg(n),
    {
        BddPtr::Reg(n)
    }

    pub fn new_compl(n: usize) -> (r: BddPtr)
        ensures
            r == BddPtr::Compl(n),
    {
        BddPtr::Compl(n)
    }

    /// The edge to the negation.
    pub fn neg(&self) -> (r: BddPtr)
        ensures
            r == self.negated(),
    {
        match self {
            BddPtr::PtrTrue => BddPtr::PtrFalse,
            BddPtr::PtrFalse => BddPtr::PtrTrue,
            BddPtr::Reg(n) => BddPtr::Compl(*n),
            BddPtr::Compl(n) => BddPtr::Reg(*n),
        }
    }

    /// The edge is a complemented one: it leads to the negation of a node,
    /// or to false, which is the negation of true.
    pub open spec fn is_negated(self) -> bool {
        self is Compl || self is PtrFalse
    }

    /// Whether the edge is a complemented one.
    pub fn is_neg(&self) -> (r: bool)
        ensures
            r == self.is_negated(),
    {
        match self {
            BddPtr::Compl(_) => true,
            BddPtr::PtrFalse => true,
            _ => false,
        }
    }

    /// Whether the edge leads to a constant.
    pub fn is_const(&self) -> (r: bool)
        ensures
            r == (*self is PtrTrue || *self is PtrFalse),
    {
        match self {
            BddPtr::PtrTrue => true,
            BddPtr::PtrFalse => true,
            _ => false,
        }
    }
}

/// A decision node: if `var` is false the function is that of `low`, else
/// that of `high`.
#[derive(Clone, Copy, Debug, PartialEq, Eq, Hash, Structural)]
pub struct BddNode {
    pub var: VarLabel,
    pub low: BddPtr,
    pub high: BddPtr,
}

impl View for BddNode {
    type V = BddNode;

    open spec fn view(&self) -> BddNode {
        *self
    }
}

impl TableItem for BddNode {
    fn same(&self, other: &Self) -> (r: bool) {
        *self == *other
    }
}

impl BddNode {
    pub fn new(var: VarLabel, low: BddPtr, high: BddPtr) -> (r: BddNode)
        ensures
            r == (BddNode { var, low, high }),
    {
        BddNode { var, low, high }
    }
}

/// The parameters of a weighted model count: the two constants of the
/// semiring, and for each variable the weight of `false` and of `true`.
#[derive(Debug)]
pub struct WmcParams<T> {
    pub zero: T,
    pub one: T,
    pub var_to_val: Vec<(T, T)>,
}

/// Each node of the sequence has its children before it.
pub open spec fn children_first(nodes: Seq<BddNode>) -> bool {
    forall|i: int|
        0 <= i < nodes.len() ==> (#[trigger] nodes[i]).low.rank() <= i && nodes[i].high.rank() <= i
}

/// The semantic hash of an edge into `nodes`, modulo `p`, under the weights
/// `w`: 1 and 0 for the constants; for a node the weight of `false` times
/// the hash of `low` plus the weight of `true` times the hash of `high`; and
/// for a complemented edge 1 minus the hash of the node.
pub open spec fn semantic_hash(
    nodes: Seq<BddNode>,
    w: Seq<(int, int)>,
    p: int,
    ptr: BddPtr,
) -> int
    decreases ptr.rank(), (if ptr is Compl { 1nat } else { 0nat }),
{
    match ptr {
        BddPtr::PtrTrue => 1,
        BddPtr::PtrFalse => 0,
        BddPtr::Reg(n) => {
            if n < nodes.len() && nodes[n as int].low.rank() <= n && nodes[n as int].high.rank()
                <= n {
                let node = nodes[n as int];
                let (wl, wh) = w[node.var.0 as int];
                (wl * semantic_hash(nodes, w, p, node.low) + wh * semantic_hash(
                    nodes,
                    w,
                    p,
                    node.high,
                )) % p
            } else {
                0
            }
        },
        BddPtr::Compl(n) => negated(semantic_hash(nodes, w, p, BddPtr::Reg(n)), p),
    }
}

/// The semantic hash is a residue.
pub proof fn lemma_semantic_hash_bound(
    nodes: Seq<BddNode>,
    w: Seq<(int, int)>,
    p: int,
    ptr: BddPtr,
)
    requires
        p >= 2,
    ensures
        0 <= semantic_hash(nodes, w, p, ptr) < p,
    decreases ptr.rank(), (if ptr is Compl { 1nat } else { 0nat }),
{
    match ptr {
        BddPtr::PtrTrue => {},
        BddPtr::PtrFalse => {},
        BddPtr::Reg(n) => {
            if n < nodes.len() && nodes[n as int].low.rank() <= n && nodes[n as int].high.rank()
                <= n {
                let node = nodes[n as int];
                let (wl, wh) = w[node.var.0 as int];
                lemma_mod_bound(
                    wl * semantic_hash(nodes, w, p, node.low) + wh * semantic_hash(
                        nodes,
                        w,
                        p,
                        node.high,
                    ),
                    p,
                );
            }
        },
        BddPtr::Compl(n) => {
            lemma_semantic_hash_bound(nodes, w, p, BddPtr::Reg(n));
            lemma_negated_sum(semantic_hash(nodes, w, p, BddPtr::Reg(n)), p);
        },
    }
}

/// Complement duality: the semantic hashes of an edge and of its negation
/// add up to 1 modulo `p`.
pub proof fn lemma_complement_duality(
    nodes: Seq<BddNode>,
    w: Seq<(int, int)>,
    p: int,
    ptr: BddPtr,
)
    requires
        p >= 2,
    ensures
        (semantic_hash(nodes, w, p, ptr) + semantic_hash(nodes, w, p, ptr.negated())) % p == 1,
        semantic_hash(nodes, w, p, ptr.negated()) == negated(semantic_hash(nodes, w, p, ptr), p),
{
    lemma_small_mod(1, p as nat);
    match ptr {
        BddPtr::PtrTrue => {
            lemma_negated_sum(1, p);
            lemma_negated_sum(0, p);
        },
        BddPtr::PtrFalse => {
            lemma_negated_sum(0, p);
        },
        BddPtr::Reg(n) => {
            lemma_semantic_hash_bound(nodes, w, p, BddPtr::Reg(n));
            lemma_negated_sum(semantic_hash(nodes, w, p, BddPtr::Reg(n)), p);
        },
        BddPtr::Compl(n) => {
            lemma_semantic_hash_bound(nodes, w, p, BddPtr::Reg(n));
            lemma_negated_sum(semantic_hash(nodes, w, p, BddPtr::Reg(n)), p);
        },
    }
}

/// The semantic hash of an edge into a table is its hash in every table
/// that the table is the beginning of.
pub proof fn lemma_semantic_hash_grows(
    nodes: Seq<BddNode>,
    more: Seq<BddNode>,
    w: Seq<(int, int)>,
    p: int,
    ptr: BddPtr,
)
    requires
        nodes.len() <= more.len(),
        forall|i: int| 0 <= i < nodes.len() ==> #[trigger] more[i] == nodes[i],
        ptr.rank() <= nodes.len(),
    ensures
        semantic_hash(more, w, p, ptr) == semantic_hash(nodes, w, p, ptr),
    decreases ptr.rank(), (if ptr is Compl { 1nat } else { 0nat }),
{
    match ptr {
        BddPtr::PtrTrue => {},
        BddPtr::PtrFalse => {},
        BddPtr::Reg(n) => {
            assert(more[n as int] == nodes[n as int]);
            if nodes[n as int].low.rank() <= n && nodes[n as int].high.rank() <= n {
                lemma_semantic_hash_grows(nodes, more, w, p, nodes[n as int].low);
                lemma_semantic_hash_grows(nodes, more, w, p, nodes[n as int].high);
            }
        },
        BddPtr::Compl(n) => {
            lemma_semantic_hash_grows(nodes, more, w, p, BddPtr::Reg(n));
        },
    }
}

/// The weights as integers.
pub open spec fn weight_values<const P: u128>(
    v: Seq<(FiniteField<P>, FiniteField<P>)>,
) -> Seq<(int, int)> {
    Seq::new(v.len(), |i: int| (v[i].0@, v[i].1@))
}

impl<const P: u128> WmcParams<FiniteField<P>> {
    /// The weights are residues that add up to 1 for each variable, as
    /// semantic hashing needs them.
    pub open spec fn wf(&self) -> bool {
        &&& modulus_ok(P)
        &&& self.zero@ == 0
        &&& self.one@ == 1
        &&& forall|i: int|
            0 <= i < self.var_to_val@.len() ==> {
                let (l, h) = #[trigger] self.var_to_val@[i];
                l.wf() && h.wf() && (l@ + h@) % (P as int) == 1
            }
    }

    /// The parameters with the given weights of `true`: the weight of
    /// `false` is what adds up to 1 with it.
    pub fn from_high_weights(high: &Vec<u128>) -> (r: Self)
        requires
            modulus_ok(P),
        ensures
            r.wf(),
            r.var_to_val@.len() == high@.len(),
            forall|i: int|
                0 <= i < high@.len() ==> (#[trigger] r.var_to_val@[i]).1@ == high@[i] % P,
    {
        let mut var_to_val: Vec<(FiniteField<P>, FiniteField<P>)> = Vec::new();
        let mut i: usize = 0;
        while i < high.len()
            invariant
                i <= high.len(),
                modulus_ok(P),
                var_to_val@.len() == i,
                forall|j: int|
                    0 <= j < i ==> {
                        let (l, h) = #[trigger] var_to_val@[j];
                        l.wf() && h.wf() && (l@ + h@) % (P as int) == 1 && h@ == high@[j] % P
                    },
            decreases high.len() - i,
        {
            let h = FiniteField::<P>::new(high[i]);
            let l = h.negate();
            proof {
                lemma_negated_sum(h@, P as int);
            }
            var_to_val.push((l, h));
            i += 1;
        }
        WmcParams { zero: FiniteField::zero(), one: FiniteField::one(), var_to_val }
    }

    /// The weights of a variable: that of `false`, then that of `true`.
    pub fn get_var_weight(&self, label: VarLabel) -> (r: (FiniteField<P>, FiniteField<P>))
        requires
            label.0 < self.var_to_val@.len(),
        ensures
            r == self.var_to_val@[label.0 as int],
    {
        let n = self.var_to_val.len();
        assert(label.0 < n);
        self.var_to_val[label.0 as usize]
    }
}

/// Random weights for semantic hashing over `num_vars` variables: for each
/// variable a weight of `true` from 2 on, and the weight of `false` that
/// adds up to 1 with it.
pub fn create_semantic_hash_map<const P: u128>(num_vars: usize) -> (r: WmcParams<FiniteField<P>>)
    requires
        modulus_ok(P),
        P > 2,
    ensures
        r.wf(),
        r.var_to_val@.len() == num_vars,
        forall|i: int| 0 <= i < num_vars ==> (#[trigger] r.var_to_val@[i]).1@ >= 2,
{
    let mut rng = thread_rng();
    let mut high: Vec<u128> = Vec::new();
    let mut i: usize = 0;
    while i < num_vars
        invariant
            i <= num_vars,
            P > 2,
            high@.len() == i,
            forall|j: int| 0 <= j < i ==> 2 <= #[trigger] high@[j] < P,
        decreases num_vars - i,
    {
        high.push(random_in_range(&mut rng, 2, P));
        i += 1;
    }
    let r = WmcParams::<FiniteField<P>>::from_high_weights(&high);
    proof {
        assert forall|i: int| 0 <= i < num_vars implies (#[trigger] r.var_to_val@[i]).1@ >= 2 by {
            lemma_small_mod(high@[i] as nat, P as nat);
        }
    }
    r
}

/// The semantic hash of a node whose children have hashes among
/// `computed`, which holds the hashes of the first nodes of `nodes`.
pub(crate) fn node_semantic_hash<const P: u128>(
    node: &BddNode,
    computed: &Vec<FiniteField<P>>,
    map: &WmcParams<FiniteField<P>>,
    Ghost(nodes): Ghost<Seq<BddNode>>,
) -> (r: FiniteField<P>)
    requires
        map.wf(),
        node.var.0 < map.var_to_val@.len(),
        node.low.rank() <= computed@.len(),
        node.high.rank() <= computed@.len(),
        hashes_computed(computed@, map.var_to_val@, nodes),
    ensures
        r.wf(),
        r@ == node_hash(nodes, weight_values(map.var_to_val@), P as int, *node),
{
    let (wl, wh) = map.get_var_weight(node.var);
    let hl = ptr_semantic_hash(node.low, computed, map, Ghost(nodes));
    let hh = ptr_semantic_hash(node.high, computed, map, Ghost(nodes));
    let l = wl.times(&hl);
    let h = wh.times(&hh);
    proof {
        lemma_add_mod_noop(wl@ * hl@, wh@ * hh@, P as int);
        assert(weight_values(map.var_to_val@)[node.var.0 as int] == (wl@, wh@));
    }
    l.plus(&h)
}

/// The semantic hash of an edge to one of the nodes whose hashes are among
/// `computed`.
pub(crate) fn ptr_semantic_hash<const P: u128>(
    ptr: BddPtr,
    computed: &Vec<FiniteField<P>>,
    map: &WmcParams<FiniteField<P>>,
    Ghost(nodes): Ghost<Seq<BddNode>>,
) -> (r: FiniteField<P>)
    requires
        map.wf(),
        ptr.rank() <= computed@.len(),
        hashes_computed(computed@, map.var_to_val@, nodes),
    ensures
        r.wf(),
        r@ == semantic_hash(nodes, weight_values(map.var_to_val@), P as int, ptr),
{
    match ptr {
        BddPtr::PtrTrue => FiniteField::one(),
        BddPtr::PtrFalse => FiniteField::zero(),
        BddPtr::Reg(n) => computed[n],
        BddPtr::Compl(n) => computed[n].negate(),
    }
}

/// What the semantic hash of a node is made of: the weight of `false` times
/// the hash of `low` plus the weight of `true` times the hash of `high`.
pub open spec fn node_hash(nodes: Seq<BddNode>, w: Seq<(int, int)>, p: int, node: BddNode) -> int {
    let (wl, wh) = w[node.var.0 as int];
    (wl * semantic_hash(nodes, w, p, node.low) + wh * semantic_hash(nodes, w, p, node.high)) % p
}

/// `computed` holds the semantic hashes of the first nodes of `nodes`.
pub open spec fn hashes_computed<const P: u128>(
    computed: Seq<FiniteField<P>>,
    w: Seq<(FiniteField<P>, FiniteField<P>)>,
    nodes: Seq<BddNode>,
) -> bool {
    &&& computed.len() <= nodes.len()
    &&& forall|i: int|
        0 <= i < computed.len() ==> (#[trigger] computed[i]).wf() && computed[i]@ == semantic_hash(
            nodes,
            weight_values(w),
            P as int,
            BddPtr::Reg(i as usize),
        )
}

} // verus!
