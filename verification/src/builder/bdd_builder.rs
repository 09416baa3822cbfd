//! A manager of reduced ordered binary decision diagrams with complemented
//! edges. All of its diagrams share one table of nodes, in which every node
//! stands once, so that two edges denote the same function if and only if
//! they are the same edge.

use crate::backing_store::bump_table::{accepts, BackedRobinhoodTable};
use crate::backing_store::hasher::{code_of, node_hash_of, ptr_code, structural_hash};
use crate::builder::cache::all_app::{AllTable, BddMemo, IteKey};
use crate::repr::cnf::{clause_seqs, formula_holds, Cnf};
use crate::repr::model::PartialModel;
use crate::repr::propagation::clause_sat;
use crate::repr::var_label::Literal;
use crate::repr::bdd::{BddNode, BddPtr, WmcParams};
use crate::repr::bdd_wmc::{edge_count, gap_weight, high_of, low_of, smooth, var_total};
use crate::util::finitefield::{modulus_ok, FiniteField};
use std::collections::HashMap;
use vstd::arithmetic::div_mod::{lemma_add_mod_noop, lemma_mul_mod_noop_general, lemma_small_mod};
use crate::repr::force::{is_ranking, positions_of_ranking};
use crate::repr::robdd::{
    denotes, is_branch, is_clause, is_formula, is_ite, is_literal, is_prefix, is_restriction,
    lemma_canonical, lemma_clause_step, lemma_denotes_negated, lemma_formula_grows, lemma_formula_step, lemma_ite_combine,
    lemma_ite_rewrites, lemma_ite_terminal, lemma_level_grows, lemma_node_branch,
    lemma_push_node, lemma_relations_grow, lemma_restriction_combine, lemma_restriction_here,
    lemma_restriction_later, lemma_same_ite_chain, lemma_same_ite_result, level, min_level,
    node_ok, robdd_ok, same_function, same_ite, valid,
};
use crate::repr::var_label::VarLabel;
use crate::repr::var_order::VarOrder;
use vstd::prelude::*;

verus! {

/// What the cache holds for a key is an edge for the if-then-else of the
/// key, whose level does not come before those of the operands.
pub open spec fn entry_sound(nodes: Seq<BddNode>, pos: Seq<usize>, k: IteKey, r: BddPtr) -> bool {
    &&& valid(nodes, k.f)
    &&& valid(nodes, k.g)
    &&& valid(nodes, k.h)
    &&& valid(nodes, r)
    &&& is_ite(nodes, pos.len(), k.f, k.g, k.h, r)
    &&& level(nodes, pos, r) >= min_level(nodes, pos, k.f, k.g, k.h)
}

/// Every entry of the cache is sound.
pub open spec fn cache_sound(nodes: Seq<BddNode>, pos: Seq<usize>, cache: AllTable) -> bool {
    forall|k: IteKey| #[trigger] cache.holds(k) ==> entry_sound(nodes, pos, k, cache.value(k))
}

/// A sound cache stays sound when nodes are added to the table.
pub proof fn lemma_cache_grows(
    nodes: Seq<BddNode>,
    more: Seq<BddNode>,
    pos: Seq<usize>,
    cache: AllTable,
)
    requires
        is_prefix(nodes, more),
        cache_sound(nodes, pos, cache),
    ensures
        cache_sound(more, pos, cache),
{
    assert forall|k: IteKey| #[trigger] cache.holds(k) implies entry_sound(
        more,
        pos,
        k,
        cache.value(k),
    ) by {
        let r = cache.value(k);
        assert(entry_sound(nodes, pos, k, r));
        lemma_relations_grow(nodes, more, pos.len(), k.f, k.g, k.h, r, 0, true);
        lemma_level_grows(nodes, more, pos, k.f);
        lemma_level_grows(nodes, more, pos, k.g);
        lemma_level_grows(nodes, more, pos, k.h);
        lemma_level_grows(nodes, more, pos, r);
    }
}

/// What the memo holds for an edge is an edge for its restriction, whose
/// level does not come before that of the edge.
pub open spec fn memo_sound(
    nodes: Seq<BddNode>,
    pos: Seq<usize>,
    memo: BddMemo,
    x: int,
    b: bool,
) -> bool {
    forall|p: BddPtr| #[trigger]
        memo.holds(p) ==> valid(nodes, p) && valid(nodes, memo.value(p)) && is_restriction(
            nodes,
            pos.len(),
            p,
            x,
            b,
            memo.value(p),
        ) && level(nodes, pos, memo.value(p)) >= level(nodes, pos, p)
}

/// A sound memo stays sound when nodes are added to the table.
pub proof fn lemma_memo_grows(
    nodes: Seq<BddNode>,
    more: Seq<BddNode>,
    pos: Seq<usize>,
    memo: BddMemo,
    x: int,
    b: bool,
)
    requires
        is_prefix(nodes, more),
        memo_sound(nodes, pos, memo, x, b),
    ensures
        memo_sound(more, pos, memo, x, b),
{
    assert forall|p: BddPtr| #[trigger] memo.holds(p) implies valid(more, p) && valid(
        more,
        memo.value(p),
    ) && is_restriction(more, pos.len(), p, x, b, memo.value(p)) && level(
        more,
        pos,
        memo.value(p),
    ) >= level(more, pos, p) by {
        let r = memo.value(p);
        lemma_relations_grow(nodes, more, pos.len(), p, p, p, r, x, b);
        lemma_level_grows(nodes, more, pos, p);
        lemma_level_grows(nodes, more, pos, r);
    }
}

/// Which clauses a partial model leaves to be looked at: those that it
/// does not satisfy.
pub open spec fn unsatisfied(cs: Seq<Seq<Literal>>, model: Seq<Option<bool>>) -> Seq<bool> {
    Seq::new(cs.len(), |k: int| !clause_sat(cs[k], model))
}

/// The weights of the variables as natural numbers.
pub open spec fn field_weights<const P: u128>(
    v: Seq<(FiniteField<P>, FiniteField<P>)>,
) -> Seq<(nat, nat)> {
    Seq::new(v.len(), |i: int| (v[i].0@ as nat, v[i].1@ as nat))
}

/// Every weight is a residue.
pub open spec fn weights_ok<const P: u128>(v: Seq<(FiniteField<P>, FiniteField<P>)>) -> bool {
    forall|i: int| 0 <= i < v.len() ==> (#[trigger] v[i]).0.wf() && v[i].1.wf()
}

/// What the memo of counts holds for the number of an edge is the count of
/// the edge, modulo `P`.
pub open spec fn counts_sound<const P: u128>(
    nodes: Seq<BddNode>,
    pos: Seq<usize>,
    order: Seq<VarLabel>,
    w: Seq<(nat, nat)>,
    memo: Map<u128, FiniteField<P>>,
) -> bool {
    forall|p: BddPtr| #[trigger]
        memo.contains_key(ptr_code(p) as u128) && valid(nodes, p) ==> memo[ptr_code(
            p,
        ) as u128].wf() && memo[ptr_code(p) as u128]@ == edge_count(nodes, pos, order, w, p) % (
        P as nat)
}

/// The residue of a sum of two products of three is that of the sum of the
/// products of their residues.
pub proof fn lemma_count_mod(
    p: int,
    w0: int,
    g0: int,
    c0: int,
    w1: int,
    g1: int,
    c1: int,
    gg0: int,
    cc0: int,
    gg1: int,
    cc1: int,
)
    requires
        p > 0,
        g0 == gg0 % p,
        c0 == cc0 % p,
        g1 == gg1 % p,
        c1 == cc1 % p,
    ensures
        ((w0 * ((g0 * c0) % p)) % p + (w1 * ((g1 * c1) % p)) % p) % p == (w0 * (gg0 * cc0) + w1 * (
        gg1 * cc1)) % p,
        (g0 * c0) % p == (gg0 * cc0) % p,
{
    lemma_mul_mod_noop_general(gg0, cc0, p);
    lemma_mul_mod_noop_general(gg1, cc1, p);
    lemma_mul_mod_noop_general(w0, gg0 * cc0, p);
    lemma_mul_mod_noop_general(w1, gg1 * cc1, p);
    lemma_add_mod_noop(w0 * (gg0 * cc0), w1 * (gg1 * cc1), p);
}

/// A manager of binary decision diagrams over a fixed order of variables.
pub struct BddManager {
    compute_table: BackedRobinhoodTable<BddNode>,
    order: VarOrder,
    // the place of each variable in the order
    var_to_pos: Vec<usize>,
    apply_table: AllTable,
}

impl BddManager {
    /// The nodes of all diagrams, in the order of insertion.
    pub closed spec fn nodes(&self) -> Seq<BddNode> {
        self.compute_table.items()
    }

    /// The place of each variable in the order.
    pub closed spec fn positions(&self) -> Seq<usize> {
        self.var_to_pos@
    }

    /// The number of variables.
    pub open spec fn num_vars(&self) -> nat {
        self.positions().len()
    }

    /// The order of the variables.
    pub closed spec fn spec_order(&self) -> Seq<VarLabel> {
        self.order@
    }

    /// The invariant of the manager: the table is a diagram in canonical
    /// form, each node stands under its hash, the places are those of the
    /// order, and the cache is sound.
    #[verifier::opaque]
    pub closed spec fn wf(&self) -> bool {
        &&& self.compute_table.wf()
        &&& robdd_ok(self.nodes(), self.var_to_pos@)
        &&& forall|i: int|
            0 <= i < self.compute_table@.len() ==> (#[trigger] self.compute_table@[i]).1
                == node_hash_of(self.compute_table@[i].0)
        &&& self.order@.len() == self.var_to_pos@.len()
        &&& forall|p: int|
            0 <= p < self.order@.len() ==> (#[trigger] self.order@[p]).0 < self.var_to_pos@.len()
                && self.var_to_pos@[self.order@[p].0 as int] == p
        &&& self.apply_table.wf()
        &&& cache_sound(self.nodes(), self.var_to_pos@, self.apply_table)
    }

    /// The edge leads to a node of the manager, or to a constant.
    pub open spec fn has(&self, ptr: BddPtr) -> bool {
        valid(self.nodes(), ptr)
    }

    /// The value of the function of an edge under a total assignment.
    pub open spec fn value(&self, ptr: BddPtr, a: Seq<bool>) -> bool {
        denotes(self.nodes(), ptr, a)
    }

    /// The place in the order of the variable that the edge tests first.
    pub open spec fn level_of(&self, ptr: BddPtr) -> int {
        level(self.nodes(), self.positions(), ptr)
    }

    /// What the invariant says of the table and the order.
    pub proof fn lemma_wf(&self)
        requires
            self.wf(),
        ensures
            robdd_ok(self.nodes(), self.positions()),
            self.spec_order().len() == self.num_vars(),
            forall|p: int|
                0 <= p < self.num_vars() ==> (#[trigger] self.spec_order()[p]).0 < self.num_vars()
                    && self.positions()[self.spec_order()[p].0 as int] == p,
    {
        reveal(BddManager::wf);
    }

    /// The order holds each variable at its place.
    pub proof fn lemma_place_of_variable(&self, v: int)
        requires
            self.wf(),
            0 <= v < self.num_vars(),
        ensures
            self.positions()[v] < self.num_vars(),
            self.spec_order()[self.positions()[v] as int].0 == v,
    {
        reveal(BddManager::wf);
        let q = self.positions()[v] as int;
        assert(self.var_to_pos@[v] < self.var_to_pos@.len());
        Self::lemma_same_place(self.var_to_pos@, self.order@[q].0 as int, v);
    }

    /// The level of an edge of the manager is a place in the order, or the
    /// number of variables.
    pub proof fn lemma_level_bound(&self, p: BddPtr)
        requires
            self.wf(),
            self.has(p),
        ensures
            0 <= self.level_of(p) <= self.num_vars(),
            self.level_of(p.negated()) == self.level_of(p),
            self.has(p.negated()),
            (p is PtrTrue || p is PtrFalse) <==> self.level_of(p) == self.num_vars(),
    {
        reveal(BddManager::wf);
        if p.rank() > 0 {
            let i = p.rank() - 1;
            assert(node_ok(self.nodes(), self.positions(), self.nodes()[i], i));
        }
    }

    /// Canonicity: two edges of a manager that denote the same function are
    /// the same edge.
    pub proof fn lemma_same_function_same_edge(&self, p: BddPtr, q: BddPtr)
        requires
            self.wf(),
            self.has(p),
            self.has(q),
            same_function(self.nodes(), self.num_vars(), p, q),
        ensures
            p == q,
    {
        reveal(BddManager::wf);
        lemma_canonical(self.nodes(), self.positions(), p, q);
    }

    /// The manager over the given order, with no node.
    pub fn new(order: VarOrder) -> (r: BddManager)
        requires
            order.is_permutation(),
        ensures
            r.wf(),
            r.spec_order() == order@,
            r.nodes().len() == 0,
    {
        let n = order.num_vars();
        let mut pos_to_var: Vec<usize> = Vec::new();
        let mut p: usize = 0;
        while p < n
            invariant
                p <= n,
                n == order@.len(),
                order.is_permutation(),
                pos_to_var@.len() == p,
                forall|i: int| 0 <= i < p ==> #[trigger] pos_to_var@[i] == order@[i].0,
            decreases n - p,
        {
            let v = order.var_at_pos(p);
            assert(order@[p as int].0 < n);
            pos_to_var.push(v.value() as usize);
            p += 1;
        }
        proof {
            assert forall|i: int, j: int| 0 <= i < j < pos_to_var@.len() implies #[trigger] pos_to_var@[i]
                != #[trigger] pos_to_var@[j] by {
                assert(order@[i] != order@[j]);
            }
            assert forall|i: int| 0 <= i < pos_to_var@.len() implies #[trigger] pos_to_var@[i]
                < pos_to_var@.len() by {
                assert(order@[i].0 < n);
            }
        }
        let var_to_pos = positions_of_ranking(&pos_to_var);
        let r = BddManager {
            compute_table: BackedRobinhoodTable::new(),
            order,
            var_to_pos,
            apply_table: AllTable::new(),
        };
        proof {
            assert forall|p: int| 0 <= p < r.order@.len() implies (#[trigger] r.order@[p]).0
                < r.var_to_pos@.len() && r.var_to_pos@[r.order@[p].0 as int] == p by {
                assert(pos_to_var@[p] == order@[p].0);
                assert(r.var_to_pos@[pos_to_var@[p] as int] == p);
            }
            reveal(BddManager::wf);
        }
        r
    }

    /// The manager over the order in which the variables come by their
    /// numbers.
    pub fn new_default_order(num_vars: usize) -> (r: BddManager)
        ensures
            r.wf(),
            r.num_vars() == num_vars,
            r.nodes().len() == 0,
            forall|v: int| 0 <= v < num_vars ==> #[trigger] r.positions()[v] == v,
    {
        let mut vars: Vec<VarLabel> = Vec::new();
        let mut v: usize = 0;
        while v < num_vars
            invariant
                v <= num_vars,
                vars@.len() == v,
                forall|i: int| 0 <= i < v ==> #[trigger] vars@[i] == VarLabel(i as u64),
            decreases num_vars - v,
        {
            vars.push(VarLabel::new(v as u64));
            v += 1;
        }
        let order = VarOrder::new(vars);
        let r = BddManager::new(order);
        proof {
            r.lemma_wf();
            assert forall|v: int| 0 <= v < num_vars implies #[trigger] r.positions()[v] == v by {
                assert(r.spec_order()[v] == VarLabel(v as u64));
            }
        }
        r
    }

    pub fn get_order(&self) -> (r: &VarOrder)
        ensures
            r@ == self.spec_order(),
    {
        &self.order
    }

    /// The number of nodes.
    pub fn num_nodes(&self) -> (r: usize)
        requires
            self.wf(),
        ensures
            r == self.nodes().len(),
    {
        proof {
            reveal(BddManager::wf);
        }
        self.compute_table.num_nodes()
    }

    /// Whether two edges are the same edge, which they are if and only if
    /// they denote the same function.
    pub fn eq_bdd(&self, a: BddPtr, b: BddPtr) -> (r: bool)
        requires
            self.wf(),
            self.has(a),
            self.has(b),
        ensures
            r == (a == b),
            r == same_function(self.nodes(), self.num_vars(), a, b),
    {
        proof {
            if same_function(self.nodes(), self.num_vars(), a, b) {
                self.lemma_same_function_same_edge(a, b);
            }
            if a == b {
                reveal(same_function);
            }
        }
        a == b
    }

    /// The edge to the negation.
    pub fn neg(&self, f: BddPtr) -> (r: BddPtr)
        ensures
            r == f.negated(),
            self.has(f) ==> self.has(r),
            forall|a: Seq<bool>| #[trigger] self.value(r, a) == !self.value(f, a),
    {
        proof {
            assert forall|a: Seq<bool>| #[trigger] self.value(f.negated(), a) == !self.value(
                f,
                a,
            ) by {
                lemma_denotes_negated(self.nodes(), f, a);
            }
        }
        f.neg()
    }

    /// The place in the order of the variable that the edge tests first;
    /// the number of variables for a constant.
    pub fn level(&self, ptr: BddPtr) -> (r: usize)
        requires
            self.wf(),
            self.has(ptr),
        ensures
            r == self.level_of(ptr),
            r <= self.num_vars(),
    {
        proof {
            reveal(BddManager::wf);
        }
        match ptr {
            BddPtr::PtrTrue => self.var_to_pos.len(),
            BddPtr::PtrFalse => self.var_to_pos.len(),
            BddPtr::Reg(i) => {
                let node = self.compute_table.get(i);
                proof {
                    assert(node_ok(self.nodes(), self.var_to_pos@, self.nodes()[i as int], i as int));
                }
                let n = self.var_to_pos.len();
                self.var_to_pos[node.var.value() as usize]
            },
            BddPtr::Compl(i) => {
                let node = self.compute_table.get(i);
                proof {
                    assert(node_ok(self.nodes(), self.var_to_pos@, self.nodes()[i as int], i as int));
                }
                let n = self.var_to_pos.len();
                self.var_to_pos[node.var.value() as usize]
            },
        }
    }

    /// The value of the function of an edge under a total assignment.
    pub fn eval(&self, ptr: BddPtr, assignment: &Vec<bool>) -> (r: bool)
        requires
            self.wf(),
            self.has(ptr),
            assignment@.len() == self.num_vars(),
        ensures
            r == self.value(ptr, assignment@),
    {
        let ghost nodes = self.nodes();
        let mut cur = ptr;
        let mut flip = false;
        proof {
            reveal(BddManager::wf);
        }
        loop
            invariant_except_break
                self.compute_table.wf(),
                nodes == self.compute_table.items(),
                robdd_ok(nodes, self.var_to_pos@),
                valid(nodes, cur),
                assignment@.len() == self.var_to_pos@.len(),
                denotes(nodes, ptr, assignment@) == (denotes(nodes, cur, assignment@) != flip),
            ensures
                cur is PtrTrue || cur is PtrFalse,
                denotes(nodes, ptr, assignment@) == (denotes(nodes, cur, assignment@) != flip),
            decreases cur.rank(),
        {
            match cur {
                BddPtr::PtrTrue => {
                    break;
                },
                BddPtr::PtrFalse => {
                    break;
                },
                BddPtr::Reg(i) => {
                    let node = self.compute_table.get(i);
                    let n = self.var_to_pos.len();
                    proof {
                        assert(node_ok(nodes, self.var_to_pos@, nodes[i as int], i as int));
                        assert(*node == nodes[i as int]);
                        assert(node.var.0 < n);
                        assert(denotes(nodes, BddPtr::Reg(i), assignment@) == (if assignment@[node.var.0 as int] {
                            denotes(nodes, node.high, assignment@)
                        } else {
                            denotes(nodes, node.low, assignment@)
                        }));
                    }
                    cur = if assignment[node.var.value() as usize] {
                        node.high
                    } else {
                        node.low
                    };
                },
                BddPtr::Compl(i) => {
                    let node = self.compute_table.get(i);
                    let n = self.var_to_pos.len();
                    proof {
                        assert(node_ok(nodes, self.var_to_pos@, nodes[i as int], i as int));
                        assert(*node == nodes[i as int]);
                        assert(node.var.0 < n);
                        assert(denotes(nodes, BddPtr::Reg(i), assignment@) == (if assignment@[node.var.0 as int] {
                            denotes(nodes, node.high, assignment@)
                        } else {
                            denotes(nodes, node.low, assignment@)
                        }));
                        assert(denotes(nodes, BddPtr::Compl(i), assignment@) == !denotes(
                            nodes,
                            BddPtr::Reg(i),
                            assignment@,
                        ));
                    }
                    flip = !flip;
                    cur = if assignment[node.var.value() as usize] {
                        node.high
                    } else {
                        node.low
                    };
                },
            }
        }
        match cur {
            BddPtr::PtrTrue => !flip,
            _ => flip,
        }
    }

    /// The edge to the node with the given variable and children, which is
    /// put in the table unless it stands there. The edge to the high child
    /// of a node in the table is never complemented: where `high` is, the
    /// node gets the negations of both children, and the edge to the node is
    /// complemented instead.
    fn get_or_insert(&mut self, var: VarLabel, low: BddPtr, high: BddPtr) -> (r: BddPtr)
        requires
            old(self).wf(),
            old(self).has(low),
            old(self).has(high),
            var.0 < old(self).num_vars(),
            old(self).positions()[var.0 as int] < old(self).level_of(low),
            old(self).positions()[var.0 as int] < old(self).level_of(high),
            low != high,
        ensures
            final(self).wf(),
            final(self).positions() == old(self).positions(),
            final(self).spec_order() == old(self).spec_order(),
            is_prefix(old(self).nodes(), final(self).nodes()),
            final(self).has(r),
            final(self).level_of(r) == old(self).positions()[var.0 as int],
            is_branch(final(self).nodes(), final(self).num_vars(), var.0 as int, low, high, r),
    {
        proof {
            reveal(BddManager::wf);
        }
        let flip = high.is_neg();
        let node = if flip {
            BddNode::new(var, low.neg(), high.neg())
        } else {
            BddNode::new(var, low, high)
        };
        let hash = structural_hash(&node);
        let ghost nodes = self.nodes();
        let ghost pos = self.var_to_pos@;
        let ghost before = self.compute_table@;
        let i = self.compute_table.get_or_insert_by_hash(hash, node, false);
        proof {
            let more = self.nodes();
            assert(node_ok(nodes, pos, node, nodes.len() as int));
            if crate::backing_store::bump_table::none_accepted(before, Some(node), hash) {
                assert(more =~= nodes.push(node));
                assert forall|j: int| 0 <= j < nodes.len() implies #[trigger] nodes[j] != node by {
                    assert(!accepts(before[j], Some(node), hash));
                }
                lemma_push_node(nodes, pos, node);
                lemma_cache_grows(nodes, more, pos, self.apply_table);
            } else {
                assert(more =~= nodes);
                assert(node_ok(nodes, pos, nodes[i as int], i as int));
            }
            assert(more[i as int] == node);
            lemma_node_branch(more, pos.len(), i, low, high);
            lemma_denotes_negated(more, low, Seq::empty());
            lemma_denotes_negated(more, high, Seq::empty());
        }
        if flip {
            BddPtr::Compl(i)
        } else {
            BddPtr::Reg(i)
        }
    }

    /// The edge for the function that is `high` where `var` is true and
    /// `low` where it is false. Where the two are the same edge, it is that
    /// edge.
    pub fn mk(&mut self, var: VarLabel, low: BddPtr, high: BddPtr) -> (r: BddPtr)
        requires
            old(self).wf(),
            old(self).has(low),
            old(self).has(high),
            var.0 < old(self).num_vars(),
            old(self).positions()[var.0 as int] < old(self).level_of(low),
            old(self).positions()[var.0 as int] < old(self).level_of(high),
        ensures
            final(self).wf(),
            final(self).positions() == old(self).positions(),
            final(self).spec_order() == old(self).spec_order(),
            is_prefix(old(self).nodes(), final(self).nodes()),
            final(self).has(r),
            final(self).level_of(r) >= old(self).positions()[var.0 as int],
            is_branch(final(self).nodes(), final(self).num_vars(), var.0 as int, low, high, r),
    {
        if low == high {
            proof {
                reveal(is_branch);
            }
            low
        } else {
            self.get_or_insert(var, low, high)
        }
    }

    /// The edge for a literal.
    pub fn var(&mut self, lbl: VarLabel, polarity: bool) -> (r: BddPtr)
        requires
            old(self).wf(),
            lbl.0 < old(self).num_vars(),
        ensures
            final(self).wf(),
            final(self).positions() == old(self).positions(),
            final(self).spec_order() == old(self).spec_order(),
            is_prefix(old(self).nodes(), final(self).nodes()),
            final(self).has(r),
            forall|a: Seq<bool>|
                a.len() == final(self).num_vars() ==> #[trigger] final(self).value(r, a) == (a[lbl.0 as int]
                    == polarity),
    {
        proof {
            self.lemma_wf();
        }
        let p = self.mk(lbl, BddPtr::PtrFalse, BddPtr::PtrTrue);
        let r = if polarity {
            p
        } else {
            p.neg()
        };
        proof {
            reveal(is_branch);
            assert forall|a: Seq<bool>| a.len() == self.num_vars() implies #[trigger] self.value(
                r,
                a,
            ) == (a[lbl.0 as int] == polarity) by {
                assert(denotes(self.nodes(), p, a) == a[lbl.0 as int]);
                lemma_denotes_negated(self.nodes(), p, a);
            }
        }
        r
    }

    /// The two functions that an edge denotes with the variable at the
    /// place `px` false and true, for an edge whose level does not come
    /// before `px`.
    fn cofactors(&self, p: BddPtr, px: usize, Ghost(x): Ghost<int>) -> (r: (BddPtr, BddPtr))
        requires
            self.wf(),
            self.has(p),
            self.level_of(p) >= px,
            0 <= x < self.num_vars(),
            self.positions()[x] == px,
        ensures
            self.has(r.0),
            self.has(r.1),
            self.level_of(r.0) > px,
            self.level_of(r.1) > px,
            is_branch(self.nodes(), self.num_vars(), x, r.0, r.1, p),
    {
        let ghost nodes = self.nodes();
        let ghost n = self.num_vars();
        proof {
            reveal(BddManager::wf);
        }
        if self.level(p) != px {
            proof {
                reveal(is_branch);
            }
            return (p, p);
        }
        match p {
            BddPtr::Reg(i) => {
                let node = self.compute_table.get(i);
                proof {
                    assert(node_ok(nodes, self.var_to_pos@, nodes[i as int], i as int));
                    Self::lemma_same_place(self.var_to_pos@, node.var.0 as int, x);
                    lemma_node_branch(nodes, n, i, node.low, node.high);
                }
                (node.low, node.high)
            },
            BddPtr::Compl(i) => {
                let node = self.compute_table.get(i);
                proof {
                    assert(node_ok(nodes, self.var_to_pos@, nodes[i as int], i as int));
                    Self::lemma_same_place(self.var_to_pos@, node.var.0 as int, x);
                    lemma_node_branch(nodes, n, i, node.low.negated(), node.high.negated());
                    lemma_denotes_negated(nodes, node.low, Seq::empty());
                    lemma_denotes_negated(nodes, node.high, Seq::empty());
                }
                (node.low.neg(), node.high.neg())
            },
            _ => {
                proof {
                    reveal(is_branch);
                }
                (p, p)
            },
        }
    }

    proof fn lemma_same_place(pos: Seq<usize>, v: int, w: int)
        requires
            is_ranking(pos),
            0 <= v < pos.len(),
            0 <= w < pos.len(),
            pos[v] == pos[w],
        ensures
            v == w,
    {
        if v < w {
            assert(pos[v] != pos[w]);
        } else if w < v {
            assert(pos[w] != pos[v]);
        }
    }

    /// The operands of an if-then-else in the form under which the cache
    /// is asked: an operand that is the first operand or its negation is a
    /// constant, of a conjunction or disjunction the operand of the earlier
    /// level comes first, and neither the first nor the second operand is
    /// complemented. The last part of the result says whether the
    /// if-then-else of the new operands is the negation of that of the old.
    fn normalize(&self, f: BddPtr, g: BddPtr, h: BddPtr) -> (r: (BddPtr, BddPtr, BddPtr, bool))
        requires
            self.wf(),
            self.has(f),
            self.has(g),
            self.has(h),
        ensures
            self.has(r.0),
            self.has(r.1),
            self.has(r.2),
            same_ite(f, g, h, r.0, r.1, r.2, r.3),
            min_level(self.nodes(), self.positions(), r.0, r.1, r.2) >= min_level(
                self.nodes(),
                self.positions(),
                f,
                g,
                h,
            ),
            !(r.0 is Compl),
            !(r.1 is Compl) || r.0 is PtrTrue || r.0 is PtrFalse,
    {
        let ghost nodes = self.nodes();
        let ghost pos = self.positions();
        proof {
            lemma_ite_rewrites(f, g, h);
            self.lemma_level_bound(f);
            self.lemma_level_bound(g);
            self.lemma_level_bound(h);
        }
        // an operand that is the first operand, or its negation
        let g1 = if g == f {
            BddPtr::PtrTrue
        } else if g == f.neg() {
            BddPtr::PtrFalse
        } else {
            g
        };
        proof {
            lemma_ite_rewrites(f, g1, h);
        }
        let h1 = if h == f {
            BddPtr::PtrFalse
        } else if h == f.neg() {
            BddPtr::PtrTrue
        } else {
            h
        };
        proof {
            lemma_same_ite_chain(f, g, h, f, g1, h, false, f, g1, h1, false);
            lemma_ite_rewrites(f, g1, h1);
        }
        // of a conjunction or disjunction, the operand of the earlier level first
        let (f2, g2, h2) = if g1 == BddPtr::PtrTrue && self.level(h1) < self.level(f) {
            (h1, g1, f)
        } else if h1 == BddPtr::PtrFalse && self.level(g1) < self.level(f) {
            (g1, f, h1)
        } else {
            (f, g1, h1)
        };
        proof {
            lemma_same_ite_chain(f, g, h, f, g1, h1, false, f2, g2, h2, false);
            lemma_ite_rewrites(f2, g2, h2);
        }
        // no complemented first operand
        let (f3, g3, h3) = if f2.is_neg() && !f2.is_const() {
            (f2.neg(), h2, g2)
        } else {
            (f2, g2, h2)
        };
        proof {
            lemma_same_ite_chain(f, g, h, f2, g2, h2, false, f3, g3, h3, false);
            lemma_ite_rewrites(f3, g3, h3);
        }
        // no complemented second operand
        if g3.is_neg() && !f3.is_const() {
            proof {
                lemma_same_ite_chain(
                    f,
                    g,
                    h,
                    f3,
                    g3,
                    h3,
                    false,
                    f3,
                    g3.negated(),
                    h3.negated(),
                    true,
                );
            }
            (f3, g3.neg(), h3.neg(), true)
        } else {
            (f3, g3, h3, false)
        }
    }

    /// What the cache holds for the key.
    fn cache_get(&self, key: IteKey) -> (r: Option<BddPtr>)
        requires
            self.wf(),
        ensures
            r matches Some(v) ==> entry_sound(self.nodes(), self.positions(), key, v),
    {
        proof {
            reveal(BddManager::wf);
        }
        let r = self.apply_table.get(key);
        proof {
            if r is Some {
                assert(self.apply_table.holds(key));
            }
        }
        r
    }

    /// Puts an edge for the if-then-else of a key in the cache.
    fn cache_put(&mut self, key: IteKey, v: BddPtr)
        requires
            old(self).wf(),
            entry_sound(old(self).nodes(), old(self).positions(), key, v),
        ensures
            final(self).wf(),
            final(self).nodes() == old(self).nodes(),
            final(self).positions() == old(self).positions(),
            final(self).spec_order() == old(self).spec_order(),
    {
        proof {
            reveal(BddManager::wf);
        }
        let ghost cache_before = self.apply_table;
        self.apply_table.insert(key, v);
        proof {
            assert forall|k: IteKey| #[trigger] self.apply_table.holds(k) implies entry_sound(
                self.nodes(),
                self.var_to_pos@,
                k,
                self.apply_table.value(k),
            ) by {
                if k != key {
                    assert(cache_before.holds(k));
                }
            }
        }
    }

    /// The variable at a place of the order.
    fn var_at(&self, px: usize) -> (x: VarLabel)
        requires
            self.wf(),
            px < self.num_vars(),
        ensures
            x.0 < self.num_vars(),
            self.positions()[x.0 as int] == px,
    {
        proof {
            reveal(BddManager::wf);
        }
        self.order.var_at_pos(px)
    }

    /// The edge for the function that is `g` where `f` is true and `h`
    /// where `f` is false.
    pub fn ite(&mut self, f: BddPtr, g: BddPtr, h: BddPtr) -> (r: BddPtr)
        requires
            old(self).wf(),
            old(self).has(f),
            old(self).has(g),
            old(self).has(h),
        ensures
            final(self).wf(),
            final(self).positions() == old(self).positions(),
            final(self).spec_order() == old(self).spec_order(),
            is_prefix(old(self).nodes(), final(self).nodes()),
            final(self).has(r),
            final(self).level_of(r) >= min_level(old(self).nodes(), old(self).positions(), f, g, h),
            is_ite(final(self).nodes(), final(self).num_vars(), f, g, h, r),
        decreases old(self).num_vars() - min_level(old(self).nodes(), old(self).positions(), f, g, h),
    {
        let ghost nodes0 = self.nodes();
        let ghost pos = self.positions();
        let ghost n = self.num_vars();
        proof {
            lemma_ite_terminal(nodes0, n, f, g, h);
        }
        let (f2, g2, h2, neg) = self.normalize(f, g, h);
        proof {
            lemma_ite_terminal(nodes0, n, f2, g2, h2);
        }
        // terminal rules
        let done: Option<BddPtr> = match f2 {
            BddPtr::PtrTrue => Some(g2),
            BddPtr::PtrFalse => Some(h2),
            _ => if g2 == h2 {
                Some(g2)
            } else if g2 == BddPtr::PtrTrue && h2 == BddPtr::PtrFalse {
                Some(f2)
            } else if g2 == BddPtr::PtrFalse && h2 == BddPtr::PtrTrue {
                Some(f2.neg())
            } else {
                None
            },
        };
        match done {
            Some(r2) => {
                proof {
                    lemma_same_ite_result(nodes0, n, f, g, h, f2, g2, h2, neg, r2);
                    lemma_denotes_negated(nodes0, r2, Seq::empty());
                }
                return if neg {
                    r2.neg()
                } else {
                    r2
                };
            },
            None => {},
        }
        // the cache
        let key = IteKey { f: f2, g: g2, h: h2 };
        match self.cache_get(key) {
            Some(r2) => {
                proof {
                    lemma_same_ite_result(nodes0, n, f, g, h, f2, g2, h2, neg, r2);
                    lemma_denotes_negated(nodes0, r2, Seq::empty());
                }
                return if neg {
                    r2.neg()
                } else {
                    r2
                };
            },
            None => {},
        }
        // the variable that comes first, and the two branches on it
        let lf = self.level(f2);
        let lg = self.level(g2);
        let lh = self.level(h2);
        let px = if lf <= lg && lf <= lh {
            lf
        } else if lg <= lh {
            lg
        } else {
            lh
        };
        proof {
            self.lemma_level_bound(f2);
            self.lemma_level_bound(g2);
            self.lemma_level_bound(h2);
        }
        let x = self.var_at(px);
        let (f_lo, f_hi) = self.cofactors(f2, px, Ghost(x.0 as int));
        let (g_lo, g_hi) = self.cofactors(g2, px, Ghost(x.0 as int));
        let (h_lo, h_hi) = self.cofactors(h2, px, Ghost(x.0 as int));
        proof {
            self.lemma_level_bound(f_hi);
            self.lemma_level_bound(g_hi);
            self.lemma_level_bound(h_hi);
            self.lemma_level_bound(f_lo);
            self.lemma_level_bound(g_lo);
            self.lemma_level_bound(h_lo);
            assert(px == min_level(nodes0, pos, f2, g2, h2));
            assert(min_level(nodes0, pos, f_hi, g_hi, h_hi) > px);
            assert(min_level(nodes0, pos, f_lo, g_lo, h_lo) > px);
            assert(min_level(nodes0, pos, f_hi, g_hi, h_hi) <= n);
            assert(min_level(nodes0, pos, f_lo, g_lo, h_lo) <= n);
        }
        let t = self.ite(f_hi, g_hi, h_hi);
        let ghost nodes1 = self.nodes();
        proof {
            lemma_level_grows(nodes0, nodes1, pos, f_lo);
            lemma_level_grows(nodes0, nodes1, pos, g_lo);
            lemma_level_grows(nodes0, nodes1, pos, h_lo);
            assert(min_level(nodes1, pos, f_lo, g_lo, h_lo) == min_level(
                nodes0,
                pos,
                f_lo,
                g_lo,
                h_lo,
            ));
        }
        let e = self.ite(f_lo, g_lo, h_lo);
        let ghost nodes2 = self.nodes();
        proof {
            lemma_level_grows(nodes1, nodes2, pos, t);
        }
        let r2 = self.mk(x, e, t);
        let ghost nodes3 = self.nodes();
        proof {
            // everything in terms of the last table
            assert(is_prefix(nodes0, nodes3));
            assert(is_prefix(nodes1, nodes3));
            lemma_relations_grow(nodes0, nodes3, n, f_lo, f_hi, f_lo, f2, x.0 as int, true);
            lemma_relations_grow(nodes0, nodes3, n, g_lo, g_hi, g_lo, g2, x.0 as int, true);
            lemma_relations_grow(nodes0, nodes3, n, h_lo, h_hi, h_lo, h2, x.0 as int, true);
            lemma_relations_grow(nodes1, nodes3, n, f_hi, g_hi, h_hi, t, 0, true);
            lemma_relations_grow(nodes2, nodes3, n, f_lo, g_lo, h_lo, e, 0, true);
            lemma_ite_combine(
                nodes3,
                n,
                x.0 as int,
                (f_lo, f_hi, f2),
                (g_lo, g_hi, g2),
                (h_lo, h_hi, h2),
                e,
                t,
                r2,
            );
            lemma_level_grows(nodes0, nodes3, pos, f2);
            lemma_level_grows(nodes0, nodes3, pos, g2);
            lemma_level_grows(nodes0, nodes3, pos, h2);
            assert(entry_sound(nodes3, pos, key, r2));
        }
        self.cache_put(key, r2);
        proof {
            lemma_same_ite_result(nodes3, n, f, g, h, f2, g2, h2, neg, r2);
            lemma_denotes_negated(nodes3, r2, Seq::empty());
        }
        if neg {
            r2.neg()
        } else {
            r2
        }
    }

    /// The edge for the conjunction.
    pub fn and(&mut self, f: BddPtr, g: BddPtr) -> (r: BddPtr)
        requires
            old(self).wf(),
            old(self).has(f),
            old(self).has(g),
        ensures
            final(self).wf(),
            final(self).positions() == old(self).positions(),
            final(self).spec_order() == old(self).spec_order(),
            is_prefix(old(self).nodes(), final(self).nodes()),
            final(self).has(r),
            is_ite(final(self).nodes(), final(self).num_vars(), f, g, BddPtr::PtrFalse, r),
            forall|a: Seq<bool>|
                a.len() == final(self).num_vars() ==> #[trigger] final(self).value(r, a) == (final(self).value(f, a) && final(self).value(g, a)),
    {
        let r = self.ite(f, g, BddPtr::PtrFalse);
        proof {
            reveal(is_ite);
        }
        r
    }

    /// The edge for the disjunction.
    pub fn or(&mut self, f: BddPtr, g: BddPtr) -> (r: BddPtr)
        requires
            old(self).wf(),
            old(self).has(f),
            old(self).has(g),
        ensures
            final(self).wf(),
            final(self).positions() == old(self).positions(),
            final(self).spec_order() == old(self).spec_order(),
            is_prefix(old(self).nodes(), final(self).nodes()),
            final(self).has(r),
            is_ite(final(self).nodes(), final(self).num_vars(), f, BddPtr::PtrTrue, g, r),
            forall|a: Seq<bool>|
                a.len() == final(self).num_vars() ==> #[trigger] final(self).value(r, a) == (final(self).value(f, a) || final(self).value(g, a)),
    {
        let r = self.ite(f, BddPtr::PtrTrue, g);
        proof {
            reveal(is_ite);
        }
        r
    }

    /// The edge for the equivalence.
    pub fn iff(&mut self, f: BddPtr, g: BddPtr) -> (r: BddPtr)
        requires
            old(self).wf(),
            old(self).has(f),
            old(self).has(g),
        ensures
            final(self).wf(),
            final(self).positions() == old(self).positions(),
            final(self).spec_order() == old(self).spec_order(),
            is_prefix(old(self).nodes(), final(self).nodes()),
            final(self).has(r),
            is_ite(final(self).nodes(), final(self).num_vars(), f, g, g.negated(), r),
            forall|a: Seq<bool>|
                a.len() == final(self).num_vars() ==> #[trigger] final(self).value(r, a) == (final(self).value(f, a) == final(self).value(g, a)),
    {
        let r = self.ite(f, g, g.neg());
        proof {
            reveal(is_ite);
            assert forall|a: Seq<bool>| a.len() == self.num_vars() implies #[trigger] self.value(
                r,
                a,
            ) == (self.value(f, a) == self.value(g, a)) by {
                lemma_denotes_negated(self.nodes(), g, a);
            }
        }
        r
    }

    /// The restriction of `f` for the variable at the place `pv`, with a
    /// memo of the restrictions that were found on the way.
    fn condition_rec(
        &mut self,
        f: BddPtr,
        lbl: VarLabel,
        value: bool,
        pv: usize,
        memo: &mut BddMemo,
    ) -> (r: BddPtr)
        requires
            old(self).wf(),
            old(self).has(f),
            lbl.0 < old(self).num_vars(),
            old(self).positions()[lbl.0 as int] == pv,
            old(memo).wf(),
            memo_sound(old(self).nodes(), old(self).positions(), *old(memo), lbl.0 as int, value),
        ensures
            final(self).wf(),
            final(self).positions() == old(self).positions(),
            final(self).spec_order() == old(self).spec_order(),
            is_prefix(old(self).nodes(), final(self).nodes()),
            final(self).has(r),
            final(self).level_of(r) >= old(self).level_of(f),
            is_restriction(final(self).nodes(), final(self).num_vars(), f, lbl.0 as int, value, r),
            final(memo).wf(),
            memo_sound(
                final(self).nodes(),
                final(self).positions(),
                *final(memo),
                lbl.0 as int,
                value,
            ),
        decreases old(self).num_vars() - old(self).level_of(f),
    {
        let ghost nodes0 = self.nodes();
        let ghost pos = self.positions();
        let ghost n = self.num_vars();
        let ghost x = lbl.0 as int;
        proof {
            self.lemma_wf();
            self.lemma_level_bound(f);
        }
        let lf = self.level(f);
        if lf > pv {
            proof {
                lemma_restriction_later(nodes0, pos, f, x, value);
            }
            return f;
        }
        if lf == pv {
            let (lo, hi) = self.cofactors(f, pv, Ghost(x));
            proof {
                lemma_restriction_here(nodes0, pos, f, x, value, lo, hi);
            }
            return if value {
                hi
            } else {
                lo
            };
        }
        match memo.get(f) {
            Some(r) => {
                proof {
                    assert(memo.holds(f));
                }
                return r;
            },
            None => {},
        }
        let y = self.var_at(lf);
        let (lo, hi) = self.cofactors(f, lf, Ghost(y.0 as int));
        proof {
            self.lemma_level_bound(lo);
            self.lemma_level_bound(hi);
        }
        let rl = self.condition_rec(lo, lbl, value, pv, memo);
        let ghost nodes1 = self.nodes();
        proof {
            lemma_level_grows(nodes0, nodes1, pos, hi);
        }
        let rh = self.condition_rec(hi, lbl, value, pv, memo);
        let ghost nodes2 = self.nodes();
        proof {
            lemma_level_grows(nodes1, nodes2, pos, rl);
        }
        let r = self.mk(y, rl, rh);
        let ghost nodes3 = self.nodes();
        proof {
            assert(is_prefix(nodes0, nodes3));
            assert(is_prefix(nodes1, nodes3));
            lemma_relations_grow(nodes0, nodes3, n, lo, hi, lo, f, y.0 as int, true);
            lemma_relations_grow(nodes1, nodes3, n, lo, lo, lo, rl, x, value);
            lemma_relations_grow(nodes2, nodes3, n, hi, hi, hi, rh, x, value);
            lemma_restriction_combine(nodes3, n, f, x, value, y.0 as int, lo, hi, rl, rh, r);
            lemma_memo_grows(nodes2, nodes3, pos, *memo, x, value);
            lemma_level_grows(nodes0, nodes3, pos, f);
        }
        let ghost memo_before = *memo;
        memo.insert(f, r);
        proof {
            assert forall|p: BddPtr| #[trigger] memo.holds(p) implies valid(nodes3, p) && valid(
                nodes3,
                memo.value(p),
            ) && is_restriction(nodes3, pos.len(), p, x, value, memo.value(p)) && level(
                nodes3,
                pos,
                memo.value(p),
            ) >= level(nodes3, pos, p) by {
                if p != f {
                    assert(memo_before.holds(p));
                }
            }
        }
        r
    }

    /// The edge for the function of `f` with the variable `lbl` fixed to
    /// `value`.
    pub fn condition(&mut self, f: BddPtr, lbl: VarLabel, value: bool) -> (r: BddPtr)
        requires
            old(self).wf(),
            old(self).has(f),
            lbl.0 < old(self).num_vars(),
        ensures
            final(self).wf(),
            final(self).positions() == old(self).positions(),
            final(self).spec_order() == old(self).spec_order(),
            is_prefix(old(self).nodes(), final(self).nodes()),
            final(self).has(r),
            is_restriction(final(self).nodes(), final(self).num_vars(), f, lbl.0 as int, value, r),
            forall|a: Seq<bool>|
                a.len() == final(self).num_vars() ==> #[trigger] final(self).value(r, a) == final(self).value(f, a.update(lbl.0 as int, value)),
    {
        let pv = self.place_of(lbl);
        let mut memo = BddMemo::new();
        let r = self.condition_rec(f, lbl, value, pv, &mut memo);
        proof {
            reveal(is_restriction);
        }
        r
    }

    /// The place of a variable in the order.
    pub fn place_of(&self, lbl: VarLabel) -> (r: usize)
        requires
            self.wf(),
            lbl.0 < self.num_vars(),
        ensures
            r == self.positions()[lbl.0 as int],
            r < self.num_vars(),
    {
        proof {
            reveal(BddManager::wf);
        }
        let n = self.var_to_pos.len();
        self.var_to_pos[lbl.value() as usize]
    }

    /// The edge for the function that is true where `f` is true for some
    /// value of the variable `lbl`.
    pub fn exists_var(&mut self, f: BddPtr, lbl: VarLabel) -> (r: BddPtr)
        requires
            old(self).wf(),
            old(self).has(f),
            lbl.0 < old(self).num_vars(),
        ensures
            final(self).wf(),
            final(self).positions() == old(self).positions(),
            final(self).spec_order() == old(self).spec_order(),
            is_prefix(old(self).nodes(), final(self).nodes()),
            final(self).has(r),
            forall|a: Seq<bool>|
                a.len() == final(self).num_vars() ==> #[trigger] final(self).value(r, a) == (final(self).value(f, a.update(lbl.0 as int, true)) || final(self).value(
                    f,
                    a.update(lbl.0 as int, false),
                )),
    {
        let ghost nodes0 = self.nodes();
        let ghost n = self.num_vars();
        let v1 = self.condition(f, lbl, true);
        let ghost nodes1 = self.nodes();
        let v2 = self.condition(f, lbl, false);
        let ghost nodes2 = self.nodes();
        let r = self.or(v1, v2);
        proof {
            let nodes3 = self.nodes();
            lemma_relations_grow(nodes1, nodes3, n, f, f, f, v1, lbl.0 as int, true);
            lemma_relations_grow(nodes2, nodes3, n, f, f, f, v2, lbl.0 as int, false);
            reveal(is_restriction);
        }
        r
    }

    /// The edge for the conjunction of the clauses of the formula that the
    /// partial model does not satisfy.
    pub fn from_cnf_with_assignments(&mut self, cnf: &Cnf, assgn: &PartialModel) -> (r: BddPtr)
        requires
            old(self).wf(),
            cnf.wf(),
            cnf.spec_num_vars() <= old(self).num_vars(),
            assgn@.len() >= cnf.spec_num_vars(),
        ensures
            final(self).wf(),
            final(self).positions() == old(self).positions(),
            final(self).spec_order() == old(self).spec_order(),
            is_prefix(old(self).nodes(), final(self).nodes()),
            final(self).has(r),
            is_formula(
                final(self).nodes(),
                final(self).num_vars(),
                cnf@,
                unsatisfied(cnf@, assgn@),
                r,
            ),
    {
        let clauses = cnf.clauses();
        let ghost cs = cnf@;
        let ghost keep = unsatisfied(cs, assgn@);
        let ghost n = self.num_vars();
        let ghost nodes0 = self.nodes();
        let ghost pos = self.positions();
        let ghost order = self.spec_order();
        let mut cur = BddPtr::PtrTrue;
        let mut k: usize = 0;
        proof {
            Self::lemma_formula_start(nodes0, n);
            assert(cs.take(0) =~= Seq::<Seq<Literal>>::empty());
            assert(keep.take(0) =~= Seq::<bool>::empty());
        }
        while k < clauses.len()
            invariant
                k <= clauses.len(),
                self.wf(),
                cnf.wf(),
                cs == cnf@,
                clause_seqs(clauses@) == cs,
                keep == unsatisfied(cs, assgn@),
                n == self.num_vars(),
                cnf.spec_num_vars() <= n,
                assgn@.len() >= cnf.spec_num_vars(),
                self.positions() == pos,
                self.spec_order() == order,
                is_prefix(nodes0, self.nodes()),
                self.has(cur),
                is_formula(self.nodes(), n, cs.take(k as int), keep.take(k as int), cur),
            decreases clauses.len() - k,
        {
            let clause = &clauses[k];
            proof {
                assert(cs[k as int] == clause@);
                assert forall|j: int| 0 <= j < clause@.len() implies (#[trigger] clause@[j]).label.0
                    < cnf.spec_num_vars() by {
                    assert(cs[k as int][j] == clause@[j]);
                }
            }
            // whether the model satisfies the clause
            let mut satisfied = false;
            let mut i: usize = 0;
            while i < clause.len()
                invariant
                    i <= clause.len(),
                    assgn@.len() >= cnf.spec_num_vars(),
                    forall|j: int|
                        0 <= j < clause@.len() ==> (#[trigger] clause@[j]).label.0
                            < cnf.spec_num_vars(),
                    satisfied <==> exists|j: int|
                        0 <= j < i && crate::repr::model::lit_true(assgn@, #[trigger] clause@[j]),
                decreases clause.len() - i,
            {
                if assgn.lit_implied(clause[i]) {
                    satisfied = true;
                }
                i += 1;
            }
            let ghost nodes_k = self.nodes();
            let ghost prev = cur;
            let ghost mut clause_edge = BddPtr::PtrFalse;
            if !satisfied {
                // the disjunction of the literals
                let mut disj = BddPtr::PtrFalse;
                let mut i: usize = 0;
                proof {
                    assert(clause@.take(0) =~= Seq::<Literal>::empty());
                    Self::lemma_clause_start(nodes_k, n);
                }
                while i < clause.len()
                    invariant
                        i <= clause.len(),
                        self.wf(),
                        n == self.num_vars(),
                        cnf.spec_num_vars() <= n,
                        forall|j: int|
                            0 <= j < clause@.len() ==> (#[trigger] clause@[j]).label.0
                                < cnf.spec_num_vars(),
                        self.positions() == pos,
                        self.spec_order() == order,
                        is_prefix(nodes_k, self.nodes()),
                        self.has(disj),
                        is_clause(self.nodes(), n, clause@.take(i as int), disj),
                    decreases clause.len() - i,
                {
                    let lit = clause[i];
                    let ghost nodes_a = self.nodes();
                    let l = self.var(lit.get_label(), lit.get_polarity());
                    let ghost nodes_b = self.nodes();
                    proof {
                        assert(lit.label.0 < n);
                        assert(is_literal(nodes_b, n, lit, l)) by {
                            reveal(is_literal);
                            assert forall|a: Seq<bool>| a.len() == n implies #[trigger] denotes(
                                nodes_b,
                                l,
                                a,
                            ) == crate::repr::cnf::literal_holds(lit, a) by {
                                assert(self.value(l, a) == (a[lit.label.0 as int] == lit.polarity));
                            }
                        }
                    }
                    let next = self.or(disj, l);
                    proof {
                        let nodes_c = self.nodes();
                        lemma_formula_grows(nodes_a, nodes_c, n, cs, keep, clause@.take(i as int), lit, disj);
                        lemma_formula_grows(nodes_b, nodes_c, n, cs, keep, clause@, lit, l);
                        lemma_clause_step(nodes_c, n, clause@, i as int, disj, l, next);
                    }
                    disj = next;
                    i += 1;
                }
                proof {
                    assert(clause@.take(clause.len() as int) =~= clause@);
                }
                let ghost nodes_d = self.nodes();
                let next = self.and(cur, disj);
                proof {
                    let nodes_e = self.nodes();
                    lemma_formula_grows(
                        nodes_k,
                        nodes_e,
                        n,
                        cs.take(k as int),
                        keep.take(k as int),
                        clause@,
                        clause@[0],
                        cur,
                    );
                    lemma_formula_grows(nodes_d, nodes_e, n, cs, keep, clause@, clause@[0], disj);
                    clause_edge = disj;
                }
                cur = next;
            }
            proof {
                assert(keep[k as int] == !clause_sat(cs[k as int], assgn@));
                assert(satisfied == clause_sat(clause@, assgn@));
                lemma_formula_step(self.nodes(), n, cs, keep, k as int, prev, clause_edge, cur);
            }
            k += 1;
        }
        proof {
            assert(cs.take(clauses.len() as int) =~= cs);
            assert(keep.take(clauses.len() as int) =~= keep);
        }
        cur
    }

    proof fn lemma_formula_start(nodes: Seq<BddNode>, n: nat)
        ensures
            is_formula(nodes, n, Seq::empty(), Seq::empty(), BddPtr::PtrTrue),
    {
        reveal(is_formula);
    }

    proof fn lemma_clause_start(nodes: Seq<BddNode>, n: nat)
        ensures
            is_clause(nodes, n, Seq::empty(), BddPtr::PtrFalse),
    {
        reveal(is_clause);
    }

    /// The edge for the formula.
    pub fn from_cnf(&mut self, cnf: &Cnf) -> (r: BddPtr)
        requires
            old(self).wf(),
            cnf.wf(),
            cnf.spec_num_vars() <= old(self).num_vars(),
        ensures
            final(self).wf(),
            final(self).positions() == old(self).positions(),
            final(self).spec_order() == old(self).spec_order(),
            is_prefix(old(self).nodes(), final(self).nodes()),
            final(self).has(r),
            forall|a: Seq<bool>|
                a.len() == final(self).num_vars() ==> #[trigger] final(self).value(r, a)
                    == formula_holds(cnf@, a),
    {
        let mut open: Vec<Option<bool>> = Vec::new();
        let mut v: usize = 0;
        while v < cnf.num_vars()
            invariant
                v <= cnf.spec_num_vars(),
                open@.len() == v,
                forall|i: int| 0 <= i < v ==> (#[trigger] open@[i]) is None,
            decreases cnf.spec_num_vars() - v,
        {
            open.push(None);
            v += 1;
        }
        let model = PartialModel::from_vec(open);
        let r = self.from_cnf_with_assignments(cnf, &model);
        proof {
            reveal(is_formula);
            let keep = unsatisfied(cnf@, model@);
            assert forall|a: Seq<bool>| a.len() == self.num_vars() implies #[trigger] self.value(
                r,
                a,
            ) == formula_holds(cnf@, a) by {
                assert forall|k: int| 0 <= k < cnf@.len() implies keep[k] by {
                    if clause_sat(cnf@[k], model@) {
                        let i = choose|i: int|
                            0 <= i < cnf@[k].len() && crate::repr::model::lit_true(
                                model@,
                                #[trigger] cnf@[k][i],
                            );
                    }
                }
            }
        }
        r
    }

    /// The variable and the two children of the node that an edge leads to,
    /// the children negated if the edge is complemented.
    fn children(&self, ptr: BddPtr) -> (r: (VarLabel, BddPtr, BddPtr))
        requires
            self.wf(),
            self.has(ptr),
            ptr.rank() > 0,
        ensures
            r.0 == crate::repr::robdd::node_of(self.nodes(), ptr).var,
            r.1 == low_of(self.nodes(), ptr),
            r.2 == high_of(self.nodes(), ptr),
            self.has(r.1),
            self.has(r.2),
            self.level_of(r.1) > self.level_of(ptr),
            self.level_of(r.2) > self.level_of(ptr),
            r.0.0 < self.num_vars(),
            self.positions()[r.0.0 as int] == self.level_of(ptr),
            crate::repr::robdd::node_of(self.nodes(), ptr).low.rank() < ptr.rank(),
            crate::repr::robdd::node_of(self.nodes(), ptr).high.rank() < ptr.rank(),
    {
        proof {
            reveal(BddManager::wf);
            let i = ptr.rank() - 1;
            assert(node_ok(self.nodes(), self.var_to_pos@, self.nodes()[i], i));
        }
        match ptr {
            BddPtr::Reg(i) => {
                let node = self.compute_table.get(i);
                (node.var, node.low, node.high)
            },
            BddPtr::Compl(i) => {
                let node = self.compute_table.get(i);
                (node.var, node.low.neg(), node.high.neg())
            },
            _ => (VarLabel::new(0), ptr, ptr),
        }
    }

    /// The product, modulo `P`, of the sums of the weights of the variables
    /// at the places from `lo` up to `hi`, without `hi`.
    fn gap<const P: u128>(&self, params: &WmcParams<FiniteField<P>>, lo: usize, hi: usize) -> (r:
        FiniteField<P>)
        requires
            self.wf(),
            modulus_ok(P),
            lo <= hi <= self.num_vars(),
            params.var_to_val@.len() == self.num_vars(),
            weights_ok(params.var_to_val@),
        ensures
            r.wf(),
            r@ == gap_weight(self.spec_order(), field_weights(params.var_to_val@), lo as int, hi as int)
                % (P as nat),
    {
        let ghost order = self.spec_order();
        let ghost w = field_weights(params.var_to_val@);
        let mut acc = FiniteField::<P>::one();
        let mut j: usize = hi;
        proof {
            lemma_small_mod(1, P as nat);
        }
        while j > lo
            invariant
                lo <= j <= hi,
                hi <= self.num_vars(),
                self.wf(),
                modulus_ok(P),
                order == self.spec_order(),
                w == field_weights(params.var_to_val@),
                params.var_to_val@.len() == self.num_vars(),
                weights_ok(params.var_to_val@),
                acc.wf(),
                acc@ == gap_weight(order, w, j as int, hi as int) % (P as nat),
            decreases j,
        {
            j -= 1;
            let x = self.var_at(j);
            proof {
                self.lemma_wf();
                Self::lemma_same_place(self.positions(), x.0 as int, order[j as int].0 as int);
            }
            let (w0, w1) = params.get_var_weight(x);
            let both = w0.plus(&w1);
            proof {
                let g = gap_weight(order, w, j + 1, hi as int) as int;
                let vt = var_total(w, x.0 as int) as int;
                assert(w[x.0 as int] == (w0@ as nat, w1@ as nat));
                lemma_mul_mod_noop_general(vt, g, P as int);
            }
            acc = both.times(&acc);
        }
        acc
    }

    /// The count of an edge modulo `P`, with a memo of the counts that were
    /// found on the way.
    fn count_rec<const P: u128>(
        &self,
        ptr: BddPtr,
        params: &WmcParams<FiniteField<P>>,
        memo: &mut HashMap<u128, FiniteField<P>>,
    ) -> (r: FiniteField<P>)
        requires
            self.wf(),
            self.has(ptr),
            modulus_ok(P),
            params.var_to_val@.len() == self.num_vars(),
            weights_ok(params.var_to_val@),
            counts_sound(
                self.nodes(),
                self.positions(),
                self.spec_order(),
                field_weights(params.var_to_val@),
                old(memo)@,
            ),
        ensures
            r.wf(),
            r@ == edge_count(
                self.nodes(),
                self.positions(),
                self.spec_order(),
                field_weights(params.var_to_val@),
                ptr,
            ) % (P as nat),
            counts_sound(
                self.nodes(),
                self.positions(),
                self.spec_order(),
                field_weights(params.var_to_val@),
                final(memo)@,
            ),
        decreases ptr.rank(),
    {
        let ghost nodes = self.nodes();
        let ghost pos = self.positions();
        let ghost order = self.spec_order();
        let ghost w = field_weights(params.var_to_val@);
        proof {
            lemma_small_mod(1, P as nat);
            lemma_small_mod(0, P as nat);
        }
        match ptr {
            BddPtr::PtrTrue => {
                return FiniteField::one();
            },
            BddPtr::PtrFalse => {
                return FiniteField::zero();
            },
            _ => {},
        }
        let key = code_of(ptr);
        match memo.get(&key) {
            Some(v) => {
                proof {
                    assert(memo@.contains_key(ptr_code(ptr) as u128));
                }
                return *v;
            },
            None => {},
        }
        proof {
            self.lemma_level_bound(ptr);
        }
        let l = self.level(ptr);
        let (x, lo, hi) = self.children(ptr);
        let c_lo = self.count_rec(lo, params, memo);
        let c_hi = self.count_rec(hi, params, memo);
        let l_lo = self.level(lo);
        let l_hi = self.level(hi);
        let g_lo = self.gap(params, l + 1, l_lo);
        let g_hi = self.gap(params, l + 1, l_hi);
        let (w0, w1) = params.get_var_weight(x);
        let r = w0.times(&g_lo.times(&c_lo)).plus(&w1.times(&g_hi.times(&c_hi)));
        proof {
            assert(w[x.0 as int] == (w0@ as nat, w1@ as nat));
            lemma_count_mod(
                P as int,
                w0@,
                g_lo@,
                c_lo@,
                w1@,
                g_hi@,
                c_hi@,
                gap_weight(order, w, l + 1, level(nodes, pos, lo)) as int,
                edge_count(nodes, pos, order, w, lo) as int,
                gap_weight(order, w, l + 1, level(nodes, pos, hi)) as int,
                edge_count(nodes, pos, order, w, hi) as int,
            );
        }
        let ghost before = memo@;
        memo.insert(key, r);
        proof {
            assert forall|p: BddPtr| #[trigger]
                memo@.contains_key(ptr_code(p) as u128) && valid(nodes, p) implies memo@[ptr_code(
                p,
            ) as u128].wf() && memo@[ptr_code(p) as u128]@ == edge_count(nodes, pos, order, w, p)
                % (P as nat) by {
                if ptr_code(p) as u128 == key {
                    assert(p == ptr);
                } else {
                    assert(before.contains_key(ptr_code(p) as u128));
                }
            }
        }
        r
    }

    /// The weighted count of an edge modulo `P`: the sum, over the
    /// assignments under which the function of the edge is true, of the
    /// product of the weights of the values of the variables.
    pub fn wmc<const P: u128>(&self, ptr: BddPtr, params: &WmcParams<FiniteField<P>>) -> (r:
        FiniteField<P>)
        requires
            self.wf(),
            self.has(ptr),
            modulus_ok(P),
            params.var_to_val@.len() == self.num_vars(),
            weights_ok(params.var_to_val@),
        ensures
            r.wf(),
            r@ == smooth(
                self.nodes(),
                self.positions(),
                self.spec_order(),
                field_weights(params.var_to_val@),
                ptr,
                0,
            ) % (P as nat),
    {
        let mut memo: HashMap<u128, FiniteField<P>> = HashMap::new();
        let c = self.count_rec(ptr, params, &mut memo);
        let g = self.gap(params, 0, self.level(ptr));
        proof {
            let w = field_weights(params.var_to_val@);
            lemma_mul_mod_noop_general(
                gap_weight(self.spec_order(), w, 0, self.level_of(ptr)) as int,
                edge_count(self.nodes(), self.positions(), self.spec_order(), w, ptr) as int,
                P as int,
            );
        }
        g.times(&c)
    }

    /// Agreement of the weighted model counts: the count of an edge for a
    /// formula is the weighted model count of the formula, whatever the
    /// order of the manager.
    pub proof fn lemma_wmc_of_formula(
        &self,
        r: BddPtr,
        cs: Seq<Seq<Literal>>,
        w: Seq<(nat, nat)>,
    )
        requires
            self.wf(),
            self.has(r),
            forall|a: Seq<bool>|
                a.len() == self.num_vars() ==> #[trigger] self.value(r, a) == formula_holds(cs, a),
        ensures
            smooth(self.nodes(), self.positions(), self.spec_order(), w, r, 0)
                == crate::repr::wmc::weighted_model_count(cs, w, self.num_vars()),
    {
        self.lemma_wf();
        assert forall|a: Seq<bool>| a.len() == self.num_vars() implies #[trigger] denotes(
            self.nodes(),
            r,
            a,
        ) == formula_holds(cs, a) by {
            assert(self.value(r, a) == formula_holds(cs, a));
        }
        assert forall|v: int| 0 <= v < self.num_vars() implies (#[trigger] self.positions()[v])
            < self.num_vars() && self.spec_order()[self.positions()[v] as int].0 == v by {
            self.lemma_place_of_variable(v);
        }
        assert(self.var_to_pos@.len() == self.var_to_pos.len());
        crate::repr::bdd_wmc::lemma_wmc_agreement(
            self.nodes(),
            self.positions(),
            self.spec_order(),
            w,
            cs,
            r,
        );
    }
}

} // verus!
