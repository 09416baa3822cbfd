//! The weighted model count of a binary decision diagram, and why it is
//! the weighted model count of the formula that the diagram was compiled
//! from.
//!
//! The count of an edge is taken over the variables from the level of the
//! edge on. Where an edge skips levels, each skipped variable is free, and
//! contributes the sum of its two weights.

use crate::repr::assignment_iter::{assignment_of, pow2};
use crate::repr::bdd::{BddNode, BddPtr};
use crate::repr::cnf::formula_holds;
use crate::repr::robdd::{
    denotes, is_branch, lemma_node_branch, lemma_robdd_ordered, level, node_of, node_ordered,
    ordered_ok, robdd_ok, to_node, valid,
};
use crate::repr::var_label::{Literal, VarLabel};
use crate::repr::wmc::{
    assignment_weight, literal_weight, model_weight, weighted_count_below, weighted_model_count,
};
use vstd::prelude::*;

verus! {

/// The sum of the two weights of a variable.
pub open spec fn var_total(w: Seq<(nat, nat)>, x: int) -> nat {
    w[x].0 + w[x].1
}

/// The product of the sums of the weights of the variables at the places
/// from `lo` up to `hi`, without `hi`.
pub open spec fn gap_weight(order: Seq<VarLabel>, w: Seq<(nat, nat)>, lo: int, hi: int) -> nat
    decreases hi - lo,
{
    if lo >= hi {
        1
    } else {
        var_total(w, order[lo].0 as int) * gap_weight(order, w, lo + 1, hi)
    }
}

/// The low child of the node that an edge leads to, negated if the edge is
/// complemented.
pub open spec fn low_of(nodes: Seq<BddNode>, p: BddPtr) -> BddPtr {
    if p is Compl {
        node_of(nodes, p).low.negated()
    } else {
        node_of(nodes, p).low
    }
}

/// The high child of the node that an edge leads to, negated if the edge is
/// complemented.
pub open spec fn high_of(nodes: Seq<BddNode>, p: BddPtr) -> BddPtr {
    if p is Compl {
        node_of(nodes, p).high.negated()
    } else {
        node_of(nodes, p).high
    }
}

/// The weighted count of an edge over the variables from its level on: 1
/// and 0 for the constants, and for an edge to a node the weight of each
/// value of the variable of the node times the count of the child for that
/// value over the variables behind that variable.
pub open spec fn edge_count(
    nodes: Seq<BddNode>,
    pos: Seq<usize>,
    order: Seq<VarLabel>,
    w: Seq<(nat, nat)>,
    ptr: BddPtr,
) -> nat
    decreases ptr.rank(),
{
    match ptr {
        BddPtr::PtrTrue => 1,
        BddPtr::PtrFalse => 0,
        _ => {
            let i = ptr.rank() - 1;
            if i < nodes.len() && nodes[i].low.rank() <= i && nodes[i].high.rank() <= i {
                let x = nodes[i].var.0 as int;
                let l = pos[x] as int;
                let lo = low_of(nodes, ptr);
                let hi = high_of(nodes, ptr);
                w[x].0 * (gap_weight(order, w, l + 1, level(nodes, pos, lo)) * edge_count(
                    nodes,
                    pos,
                    order,
                    w,
                    lo,
                )) + w[x].1 * (gap_weight(order, w, l + 1, level(nodes, pos, hi)) * edge_count(
                    nodes,
                    pos,
                    order,
                    w,
                    hi,
                ))
            } else {
                0
            }
        },
    }
}

/// The weighted count of an edge over the variables from the place `l` on.
pub open spec fn smooth(
    nodes: Seq<BddNode>,
    pos: Seq<usize>,
    order: Seq<VarLabel>,
    w: Seq<(nat, nat)>,
    ptr: BddPtr,
    l: int,
) -> nat {
    gap_weight(order, w, l, level(nodes, pos, ptr)) * edge_count(nodes, pos, order, w, ptr)
}

/// The weighted count of the function of an edge over the variables from
/// the place `l` on, with the values of `a` for the others: the sum, over
/// the values of those variables, of the product of their weights where the
/// function is true.
pub open spec fn bdd_sum(
    nodes: Seq<BddNode>,
    ptr: BddPtr,
    order: Seq<VarLabel>,
    w: Seq<(nat, nat)>,
    l: int,
    a: Seq<bool>,
) -> nat
    decreases order.len() - l,
{
    if l >= order.len() {
        if denotes(nodes, ptr, a) {
            1
        } else {
            0
        }
    } else {
        let x = order[l].0 as int;
        w[x].0 * bdd_sum(nodes, ptr, order, w, l + 1, a.update(x, false)) + w[x].1 * bdd_sum(
            nodes,
            ptr,
            order,
            w,
            l + 1,
            a.update(x, true),
        )
    }
}

/// The same sum for a formula.
pub open spec fn cnf_sum(
    cs: Seq<Seq<Literal>>,
    order: Seq<VarLabel>,
    w: Seq<(nat, nat)>,
    l: int,
    a: Seq<bool>,
) -> nat
    decreases order.len() - l,
{
    if l >= order.len() {
        if formula_holds(cs, a) {
            1
        } else {
            0
        }
    } else {
        let x = order[l].0 as int;
        w[x].0 * cnf_sum(cs, order, w, l + 1, a.update(x, false)) + w[x].1 * cnf_sum(
            cs,
            order,
            w,
            l + 1,
            a.update(x, true),
        )
    }
}

/// `order` lists the variables by their places in `pos`.
pub open spec fn is_inverse(order: Seq<VarLabel>, pos: Seq<usize>) -> bool {
    &&& order.len() == pos.len()
    &&& forall|p: int|
        0 <= p < order.len() ==> (#[trigger] order[p]).0 < pos.len() && pos[order[p].0 as int] == p
}

/// The two edges have the same value under every assignment that gives
/// the variable `x` the value `b`.
#[verifier::opaque]
pub open spec fn agree_where(
    nodes: Seq<BddNode>,
    n: nat,
    p: BddPtr,
    q: BddPtr,
    x: int,
    b: bool,
) -> bool {
    forall|a: Seq<bool>|
        a.len() == n && a[x] == b ==> #[trigger] denotes(nodes, p, a) == denotes(nodes, q, a)
}

/// An edge that branches on a variable agrees with each branch where the
/// variable has the value of the branch.
pub proof fn lemma_branch_agrees(
    nodes: Seq<BddNode>,
    n: nat,
    x: int,
    lo: BddPtr,
    hi: BddPtr,
    r: BddPtr,
)
    requires
        is_branch(nodes, n, x, lo, hi, r),
    ensures
        agree_where(nodes, n, r, lo, x, false),
        agree_where(nodes, n, r, hi, x, true),
{
    reveal(is_branch);
    reveal(agree_where);
}

/// Edges that agree where a variable has a value have the same sum over
/// the variables behind that variable, under that value.
pub proof fn lemma_sum_agree(
    nodes: Seq<BddNode>,
    p: BddPtr,
    q: BddPtr,
    order: Seq<VarLabel>,
    pos: Seq<usize>,
    w: Seq<(nat, nat)>,
    l: int,
    a: Seq<bool>,
    x: int,
    b: bool,
)
    requires
        is_inverse(order, pos),
        0 <= x < pos.len(),
        pos[x] < l <= order.len(),
        a.len() == order.len(),
        a[x] == b,
        agree_where(nodes, order.len(), p, q, x, b),
    ensures
        bdd_sum(nodes, p, order, w, l, a) == bdd_sum(nodes, q, order, w, l, a),
    decreases order.len() - l,
{
    if l >= order.len() {
        reveal(agree_where);
    } else {
        let y = order[l].0 as int;
        assert(pos[y] == l);
        lemma_sum_agree(nodes, p, q, order, pos, w, l + 1, a.update(y, false), x, b);
        lemma_sum_agree(nodes, p, q, order, pos, w, l + 1, a.update(y, true), x, b);
    }
}

/// The count of an edge over the variables from a place on is the sum, over
/// the values of those variables, of the product of their weights where the
/// function of the edge is true.
pub proof fn lemma_smooth_is_sum(
    nodes: Seq<BddNode>,
    pos: Seq<usize>,
    order: Seq<VarLabel>,
    w: Seq<(nat, nat)>,
    ptr: BddPtr,
    l: int,
    a: Seq<bool>,
)
    requires
        ordered_ok(nodes, pos),
        is_inverse(order, pos),
        valid(nodes, ptr),
        0 <= l <= level(nodes, pos, ptr),
        a.len() == order.len(),
    ensures
        smooth(nodes, pos, order, w, ptr, l) == bdd_sum(nodes, ptr, order, w, l, a),
    decreases ptr.rank(), level(nodes, pos, ptr) - l,
{
    let n = order.len();
    let lv = level(nodes, pos, ptr);
    let ec = edge_count(nodes, pos, order, w, ptr);
    if ptr.rank() > 0 {
        assert(node_ordered(nodes, pos, nodes[ptr.rank() - 1], ptr.rank() - 1));
    }
    if l < lv {
        let y = order[l].0 as int;
        lemma_smooth_is_sum(nodes, pos, order, w, ptr, l + 1, a.update(y, false));
        lemma_smooth_is_sum(nodes, pos, order, w, ptr, l + 1, a.update(y, true));
        let s = smooth(nodes, pos, order, w, ptr, l + 1);
        let g = gap_weight(order, w, l + 1, lv);
        assert(gap_weight(order, w, l, lv) == var_total(w, y) * g);
        assert(w[y].0 * s + w[y].1 * s == (var_total(w, y) * g) * ec) by (nonlinear_arith)
            requires
                s == g * ec,
                var_total(w, y) == w[y].0 + w[y].1,
        ;
    } else if ptr.rank() == 0 {
        assert(lv == n);
    } else {
        let i = ptr.rank() - 1;
        let x = nodes[i].var.0 as int;
        let lo = low_of(nodes, ptr);
        let hi = high_of(nodes, ptr);
        assert(to_node(nodes, ptr));
        assert(ptr == BddPtr::Reg(i as usize) || ptr == BddPtr::Compl(i as usize));
        lemma_node_branch(nodes, n, i as usize, lo, hi);
        assert(lo.negated().negated() == lo && hi.negated().negated() == hi);
        assert(is_branch(nodes, n, x, lo, hi, ptr));
        lemma_branch_agrees(nodes, n, x, lo, hi, ptr);
        // the variable of the node stands at the level of the edge
        let y = order[l].0 as int;
        assert(pos[y] == l);
        if x < y {
            assert(pos[x] != pos[y]);
        } else if y < x {
            assert(pos[y] != pos[x]);
        }
        assert(x == y);
        let a0 = a.update(x, false);
        let a1 = a.update(x, true);
        lemma_sum_agree(nodes, ptr, lo, order, pos, w, l + 1, a0, x, false);
        lemma_sum_agree(nodes, ptr, hi, order, pos, w, l + 1, a1, x, true);
        lemma_smooth_is_sum(nodes, pos, order, w, lo, l + 1, a0);
        lemma_smooth_is_sum(nodes, pos, order, w, hi, l + 1, a1);
        assert(gap_weight(order, w, l, lv) == 1);
        assert(ec == w[x].0 * smooth(nodes, pos, order, w, lo, l + 1) + w[x].1 * smooth(
            nodes,
            pos,
            order,
            w,
            hi,
            l + 1,
        ));
        assert(smooth(nodes, pos, order, w, ptr, l) == ec) by (nonlinear_arith)
            requires
                smooth(nodes, pos, order, w, ptr, l) == 1 * ec,
        ;
    }
}

/// An edge for a formula has the sum of the formula.
pub proof fn lemma_sum_of_formula(
    nodes: Seq<BddNode>,
    r: BddPtr,
    cs: Seq<Seq<Literal>>,
    order: Seq<VarLabel>,
    w: Seq<(nat, nat)>,
    l: int,
    a: Seq<bool>,
)
    requires
        forall|a: Seq<bool>|
            a.len() == order.len() ==> #[trigger] denotes(nodes, r, a) == formula_holds(cs, a),
        0 <= l,
        a.len() == order.len(),
        forall|p: int| 0 <= p < order.len() ==> (#[trigger] order[p]).0 < order.len(),
    ensures
        bdd_sum(nodes, r, order, w, l, a) == cnf_sum(cs, order, w, l, a),
    decreases order.len() - l,
{
    if l < order.len() {
        let x = order[l].0 as int;
        lemma_sum_of_formula(nodes, r, cs, order, w, l + 1, a.update(x, false));
        lemma_sum_of_formula(nodes, r, cs, order, w, l + 1, a.update(x, true));
    } else {
        assert(denotes(nodes, r, a) == formula_holds(cs, a));
    }
}

/// The order in which the variables come by their numbers.
pub open spec fn default_order(n: nat) -> Seq<VarLabel> {
    Seq::new(n, |v: int| VarLabel(v as u64))
}

/// The sum of the weights of the models of the formula among the first `k`
/// assignments that begin with the values `p`.
pub open spec fn block_sum(
    cs: Seq<Seq<Literal>>,
    w: Seq<(nat, nat)>,
    n: nat,
    p: Seq<bool>,
    k: nat,
) -> nat
    decreases k,
{
    if k == 0 {
        0
    } else {
        block_sum(cs, w, n, p, (k - 1) as nat) + model_weight(
            cs,
            w,
            p + assignment_of((k - 1) as nat, (n - p.len()) as nat),
        )
    }
}

/// The assignments that begin with `p` are those that begin with `p` and
/// false, and those that begin with `p` and true.
pub proof fn lemma_block_pair(
    cs: Seq<Seq<Literal>>,
    w: Seq<(nat, nat)>,
    n: nat,
    p: Seq<bool>,
    m: nat,
)
    requires
        p.len() < n,
    ensures
        block_sum(cs, w, n, p, 2 * m) == block_sum(cs, w, n, p.push(false), m) + block_sum(
            cs,
            w,
            n,
            p.push(true),
            m,
        ),
    decreases m,
{
    if m > 0 {
        lemma_block_pair(cs, w, n, p, (m - 1) as nat);
        let d = (n - p.len()) as nat;
        let j = (m - 1) as nat;
        let rest = assignment_of(j, (d - 1) as nat);
        assert((2 * j) / 2 == j && (2 * j) % 2 == 0);
        assert((2 * j + 1) / 2 == j && (2 * j + 1) % 2 == 1);
        assert(assignment_of(2 * j, d) == seq![false] + rest);
        assert(assignment_of(2 * j + 1, d) == seq![true] + rest);
        assert(p + (seq![false] + rest) =~= p.push(false) + rest);
        assert(p + (seq![true] + rest) =~= p.push(true) + rest);
        assert((n - p.push(false).len()) as nat == (d - 1) as nat);
        assert((n - p.push(true).len()) as nat == (d - 1) as nat);
        // the two last terms of the sum on the left
        assert(block_sum(cs, w, n, p, 2 * m) == block_sum(cs, w, n, p, (2 * m - 1) as nat)
            + model_weight(cs, w, p + assignment_of((2 * m - 1) as nat, d)));
        assert(block_sum(cs, w, n, p, (2 * m - 1) as nat) == block_sum(
            cs,
            w,
            n,
            p,
            (2 * m - 2) as nat,
        ) + model_weight(cs, w, p + assignment_of((2 * m - 2) as nat, d)));
        assert((2 * m - 2) as nat == 2 * j);
        assert((2 * m - 1) as nat == 2 * j + 1);
    }
}

/// The sum over all assignments that begin with nothing is the weighted
/// model count.
pub proof fn lemma_block_all(cs: Seq<Seq<Literal>>, w: Seq<(nat, nat)>, n: nat, k: nat)
    ensures
        block_sum(cs, w, n, Seq::empty(), k) == weighted_count_below(cs, w, n, k),
    decreases k,
{
    if k > 0 {
        lemma_block_all(cs, w, n, (k - 1) as nat);
        assert(Seq::<bool>::empty() + assignment_of((k - 1) as nat, n) =~= assignment_of(
            (k - 1) as nat,
            n,
        ));
    }
}

/// The sum of a formula over the variables from the one numbered `l` on,
/// times the weight of the values of the variables before it, is the sum
/// of the weights of the models that begin with those values.
pub proof fn lemma_prefix_sum(
    cs: Seq<Seq<Literal>>,
    w: Seq<(nat, nat)>,
    n: nat,
    l: int,
    a: Seq<bool>,
)
    requires
        0 <= l <= n,
        n <= 0x1_0000_0000_0000_0000,
        a.len() == n,
    ensures
        assignment_weight(a.take(l), w) * cnf_sum(cs, default_order(n), w, l, a) == block_sum(
            cs,
            w,
            n,
            a.take(l),
            pow2((n - l) as nat),
        ),
    decreases n - l,
{
    let p = a.take(l);
    let order = default_order(n);
    if l == n {
        assert(p =~= a);
        assert(a + assignment_of(0, 0) =~= a);
        assert(pow2(0) == 1);
        assert(block_sum(cs, w, n, a, 1) == block_sum(cs, w, n, a, 0) + model_weight(
            cs,
            w,
            a + assignment_of(0, (n - a.len()) as nat),
        ));
        assert(assignment_weight(a, w) * cnf_sum(cs, order, w, l, a) == model_weight(cs, w, a)) by {
            if formula_holds(cs, a) {
                assert(cnf_sum(cs, order, w, l, a) == 1);
                assert(assignment_weight(a, w) * 1 == assignment_weight(a, w)) by (nonlinear_arith);
            } else {
                assert(cnf_sum(cs, order, w, l, a) == 0);
                assert(assignment_weight(a, w) * 0 == 0) by (nonlinear_arith);
            }
        }
    } else {
        let x = order[l].0 as int;
        assert(x == l);
        let a0 = a.update(l, false);
        let a1 = a.update(l, true);
        lemma_prefix_sum(cs, w, n, l + 1, a0);
        lemma_prefix_sum(cs, w, n, l + 1, a1);
        assert(a0.take(l + 1) =~= p.push(false));
        assert(a1.take(l + 1) =~= p.push(true));
        let h = pow2((n - l - 1) as nat);
        assert(pow2((n - l) as nat) == 2 * h);
        lemma_block_pair(cs, w, n, p, h);
        let wp = assignment_weight(p, w);
        let s0 = cnf_sum(cs, order, w, l + 1, a0);
        let s1 = cnf_sum(cs, order, w, l + 1, a1);
        assert(p.push(false).drop_last() =~= p);
        assert(p.push(true).drop_last() =~= p);
        assert(assignment_weight(p.push(false), w) == wp * literal_weight(w, l, false));
        assert(assignment_weight(p.push(true), w) == wp * literal_weight(w, l, true));
        assert(wp * (w[l].0 * s0 + w[l].1 * s1) == (wp * w[l].0) * s0 + (wp * w[l].1) * s1)
            by (nonlinear_arith);
    }
}

/// The sum of a formula over all variables, in the order of their numbers,
/// is its weighted model count.
pub proof fn lemma_cnf_sum_is_count(cs: Seq<Seq<Literal>>, w: Seq<(nat, nat)>, n: nat, a: Seq<bool>)
    requires
        a.len() == n,
        n <= 0x1_0000_0000_0000_0000,
    ensures
        cnf_sum(cs, default_order(n), w, 0, a) == weighted_model_count(cs, w, n),
{
    lemma_prefix_sum(cs, w, n, 0, a);
    lemma_block_all(cs, w, n, pow2(n));
    assert(a.take(0) =~= Seq::<bool>::empty());
    assert(assignment_weight(Seq::<bool>::empty(), w) == 1);
    assert(1 * cnf_sum(cs, default_order(n), w, 0, a) == cnf_sum(cs, default_order(n), w, 0, a))
        by (nonlinear_arith);
}

/// The sum over the variables from a place of the order on is the sum over
/// the rest of the order taken by itself.
pub proof fn lemma_sum_of_rest(
    cs: Seq<Seq<Literal>>,
    order: Seq<VarLabel>,
    w: Seq<(nat, nat)>,
    l: int,
    a: Seq<bool>,
)
    requires
        0 <= l <= order.len(),
    ensures
        cnf_sum(cs, order, w, l, a) == cnf_sum(cs, order.skip(l), w, 0, a),
    decreases order.len() - l,
{
    let rest = order.skip(l);
    if l < order.len() {
        let x = order[l].0 as int;
        assert(rest[0] == order[l]);
        assert(rest.skip(1) =~= order.skip(l + 1));
        lemma_sum_of_rest(cs, order, w, l + 1, a.update(x, false));
        lemma_sum_of_rest(cs, order, w, l + 1, a.update(x, true));
        lemma_sum_of_rest(cs, rest, w, 1, a.update(x, false));
        lemma_sum_of_rest(cs, rest, w, 1, a.update(x, true));
    }
}

/// The entries of the order are distinct variables below `n`.
pub open spec fn distinct_below(order: Seq<VarLabel>, n: nat) -> bool {
    &&& forall|i: int| 0 <= i < order.len() ==> (#[trigger] order[i]).0 < n
    &&& forall|i: int, j: int|
        0 <= i < j < order.len() ==> (#[trigger] order[i]).0 != (#[trigger] order[j]).0
}

/// Any variable of the order may be summed over first.
pub proof fn lemma_sum_first(
    cs: Seq<Seq<Literal>>,
    order: Seq<VarLabel>,
    w: Seq<(nat, nat)>,
    k: int,
    a: Seq<bool>,
)
    requires
        0 <= k < order.len(),
        distinct_below(order, a.len()),
    ensures
        cnf_sum(cs, order, w, 0, a) == w[order[k].0 as int].0 * cnf_sum(
            cs,
            order.remove(k),
            w,
            0,
            a.update(order[k].0 as int, false),
        ) + w[order[k].0 as int].1 * cnf_sum(
            cs,
            order.remove(k),
            w,
            0,
            a.update(order[k].0 as int, true),
        ),
    decreases k,
{
    let x = order[k].0 as int;
    let rest = order.skip(1);
    let y = order[0].0 as int;
    lemma_sum_of_rest(cs, order, w, 1, a.update(y, false));
    lemma_sum_of_rest(cs, order, w, 1, a.update(y, true));
    if k == 0 {
        assert(order.remove(0) =~= rest);
    } else {
        let without = order.remove(k);
        assert(rest[k - 1] == order[k]);
        assert(rest.remove(k - 1) =~= without.skip(1));
        assert(without[0] == order[0]);
        assert(distinct_below(rest, a.len())) by {
            assert forall|i: int, j: int| 0 <= i < j < rest.len() implies (#[trigger] rest[i]).0
                != (#[trigger] rest[j]).0 by {
                assert(order[i + 1].0 != order[j + 1].0);
            }
        }
        assert(order[0].0 != order[k].0);
        lemma_sum_first(cs, rest, w, k - 1, a.update(y, false));
        lemma_sum_first(cs, rest, w, k - 1, a.update(y, true));
        let a00 = a.update(y, false).update(x, false);
        let a01 = a.update(y, false).update(x, true);
        let a10 = a.update(y, true).update(x, false);
        let a11 = a.update(y, true).update(x, true);
        assert(a.update(x, false).update(y, false) =~= a00);
        assert(a.update(x, true).update(y, false) =~= a01);
        assert(a.update(x, false).update(y, true) =~= a10);
        assert(a.update(x, true).update(y, true) =~= a11);
        lemma_sum_of_rest(cs, without, w, 1, a00);
        lemma_sum_of_rest(cs, without, w, 1, a01);
        lemma_sum_of_rest(cs, without, w, 1, a10);
        lemma_sum_of_rest(cs, without, w, 1, a11);
        let s00 = cnf_sum(cs, without.skip(1), w, 0, a00);
        let s01 = cnf_sum(cs, without.skip(1), w, 0, a01);
        let s10 = cnf_sum(cs, without.skip(1), w, 0, a10);
        let s11 = cnf_sum(cs, without.skip(1), w, 0, a11);
        let (x0, x1) = (w[x].0, w[x].1);
        let (y0, y1) = (w[y].0, w[y].1);
        assert(cnf_sum(cs, order, w, 0, a) == y0 * (x0 * s00 + x1 * s01) + y1 * (x0 * s10 + x1
            * s11));
        assert(cnf_sum(cs, without, w, 0, a.update(x, false)) == y0 * s00 + y1 * s10);
        assert(cnf_sum(cs, without, w, 0, a.update(x, true)) == y0 * s01 + y1 * s11);
        assert(y0 * (x0 * s00 + x1 * s01) + y1 * (x0 * s10 + x1 * s11) == x0 * (y0 * s00 + y1
            * s10) + x1 * (y0 * s01 + y1 * s11)) by (nonlinear_arith);
    }
}

/// The sum does not depend on the order in which the variables are taken:
/// two orders of the same distinct variables give the same sum.
pub proof fn lemma_sum_any_order(
    cs: Seq<Seq<Literal>>,
    first: Seq<VarLabel>,
    second: Seq<VarLabel>,
    w: Seq<(nat, nat)>,
    a: Seq<bool>,
)
    requires
        distinct_below(first, a.len()),
        distinct_below(second, a.len()),
        first.len() == second.len(),
        forall|i: int| 0 <= i < first.len() ==> second.contains(#[trigger] first[i]),
    ensures
        cnf_sum(cs, first, w, 0, a) == cnf_sum(cs, second, w, 0, a),
    decreases first.len(),
{
    if first.len() > 0 {
        let x = first[0];
        assert(second.contains(x));
        let k = choose|k: int| 0 <= k < second.len() && second[k] == x;
        let f = first.remove(0);
        let s = second.remove(k);
        lemma_sum_first(cs, first, w, 0, a);
        lemma_sum_first(cs, second, w, k, a);
        assert(distinct_below(f, a.len())) by {
            assert forall|i: int, j: int| 0 <= i < j < f.len() implies (#[trigger] f[i]).0 != (
            #[trigger] f[j]).0 by {
                assert(first[i + 1].0 != first[j + 1].0);
            }
        }
        assert(distinct_below(s, a.len())) by {
            assert forall|i: int, j: int| 0 <= i < j < s.len() implies (#[trigger] s[i]).0 != (
            #[trigger] s[j]).0 by {
                let i2 = if i < k { i } else { i + 1 };
                let j2 = if j < k { j } else { j + 1 };
                assert(second[i2].0 != second[j2].0);
            }
            assert forall|i: int| 0 <= i < s.len() implies (#[trigger] s[i]).0 < a.len() by {
                let i2 = if i < k { i } else { i + 1 };
                assert(s[i] == second[i2]);
            }
        }
        assert forall|i: int| 0 <= i < f.len() implies s.contains(#[trigger] f[i]) by {
            assert(f[i] == first[i + 1]);
            assert(first[0].0 != first[i + 1].0);
            assert(second.contains(first[i + 1]));
            let j = choose|j: int| 0 <= j < second.len() && second[j] == first[i + 1];
            assert(j != k);
            if j < k {
                assert(s[j] == second[j]);
            } else {
                assert(s[j - 1] == second[j]);
            }
        }
        lemma_sum_any_order(cs, f, s, w, a.update(x.0 as int, false));
        lemma_sum_any_order(cs, f, s, w, a.update(x.0 as int, true));
    }
}

/// Agreement of the weighted model counts: the count of an edge of a reduced
/// ordered diagram that denotes a formula is the weighted model count of
/// the formula, whatever the order of the variables.
pub proof fn lemma_wmc_agreement(
    nodes: Seq<BddNode>,
    pos: Seq<usize>,
    order: Seq<VarLabel>,
    w: Seq<(nat, nat)>,
    cs: Seq<Seq<Literal>>,
    r: BddPtr,
)
    requires
        robdd_ok(nodes, pos),
        is_inverse(order, pos),
        forall|v: int| 0 <= v < pos.len() ==> (#[trigger] pos[v]) < pos.len() && order[pos[v] as int].0 == v,
        pos.len() <= 0x1_0000_0000_0000_0000,
        valid(nodes, r),
        forall|a: Seq<bool>|
            a.len() == pos.len() ==> #[trigger] denotes(nodes, r, a) == formula_holds(cs, a),
    ensures
        smooth(nodes, pos, order, w, r, 0) == weighted_model_count(cs, w, pos.len()),
{
    let n = pos.len();
    let a = Seq::new(n, |v: int| false);
    lemma_robdd_ordered(nodes, pos);
    if r.rank() > 0 {
        assert(node_ordered(nodes, pos, nodes[r.rank() - 1], r.rank() - 1));
    }
    lemma_smooth_is_sum(nodes, pos, order, w, r, 0, a);
    lemma_sum_of_formula(nodes, r, cs, order, w, 0, a);
    let plain = default_order(n);
    assert(distinct_below(order, n)) by {
        assert forall|i: int, j: int| 0 <= i < j < order.len() implies (#[trigger] order[i]).0 != (
        #[trigger] order[j]).0 by {
            assert(pos[order[i].0 as int] == i);
            assert(pos[order[j].0 as int] == j);
        }
    }
    assert(distinct_below(plain, n));
    assert forall|i: int| 0 <= i < plain.len() implies order.contains(#[trigger] plain[i]) by {
        let p = pos[i] as int;
        assert(order[p].0 == i);
        assert(order[p] == plain[i]);
    }
    lemma_sum_any_order(cs, plain, order, w, a);
    lemma_cnf_sum_is_count(cs, w, n, a);
}

} // verus!
