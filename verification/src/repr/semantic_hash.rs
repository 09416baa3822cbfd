//! Why semantic hashing works: under weights that add up to 1 for each
//! variable, the semantic hash of an edge of an ordered diagram is the
//! weighted count of its function modulo the prime, so that edges for the
//! same function have the same hash.

use crate::repr::bdd::{
    lemma_complement_duality, lemma_semantic_hash_bound, semantic_hash, weight_values, BddNode,
    BddPtr, WmcParams,
};
use crate::repr::bdd_wmc::{
    bdd_sum, edge_count, gap_weight, high_of, is_inverse, lemma_smooth_is_sum, low_of, smooth,
    var_total,
};
use crate::repr::robdd::{
    lemma_same_function_at, level, node_ordered, ordered_ok, same_function, valid,
};
use crate::repr::var_label::VarLabel;
use crate::util::finitefield::{negated, FiniteField};
use vstd::arithmetic::div_mod::{
    lemma_add_mod_noop, lemma_mod_bound, lemma_mul_mod_noop_general, lemma_small_mod,
    lemma_sub_mod_noop,
};
use vstd::prelude::*;

verus! {

/// The weights are residues modulo `p` that add up to 1 modulo `p` for
/// each variable.
pub open spec fn hash_weights_ok(w: Seq<(int, int)>, p: int) -> bool {
    forall|v: int|
        0 <= v < w.len() ==> 0 <= (#[trigger] w[v]).0 < p && 0 <= w[v].1 < p && (w[v].0 + w[v].1) % p
            == 1
}

/// Well-formed parameters over a finite field hold such weights.
pub proof fn lemma_field_weights<const P: u128>(map: WmcParams<FiniteField<P>>)
    requires
        map.wf(),
    ensures
        hash_weights_ok(weight_values(map.var_to_val@), P as int),
{
    let w = weight_values(map.var_to_val@);
    assert forall|v: int| 0 <= v < w.len() implies 0 <= (#[trigger] w[v]).0 < P && 0 <= w[v].1 < P
        && (w[v].0 + w[v].1) % (P as int) == 1 by {
        let (l, h) = map.var_to_val@[v];
        assert(l.wf() && h.wf());
    }
}

/// The weights as natural numbers.
pub open spec fn as_nats(w: Seq<(int, int)>) -> Seq<(nat, nat)> {
    Seq::new(w.len(), |v: int| (w[v].0 as nat, w[v].1 as nat))
}

/// Free variables count for nothing: the product of the sums of their
/// weights is 1 modulo `p`.
pub proof fn lemma_gap_is_one(
    order: Seq<VarLabel>,
    pos: Seq<usize>,
    w: Seq<(int, int)>,
    p: int,
    lo: int,
    hi: int,
)
    requires
        p >= 2,
        is_inverse(order, pos),
        hash_weights_ok(w, p),
        w.len() >= pos.len(),
        0 <= lo <= hi <= order.len(),
    ensures
        gap_weight(order, as_nats(w), lo, hi) % (p as nat) == 1,
    decreases hi - lo,
{
    lemma_small_mod(1, p as nat);
    if lo < hi {
        lemma_gap_is_one(order, pos, w, p, lo + 1, hi);
        let x = order[lo].0 as int;
        let vt = var_total(as_nats(w), x) as int;
        let g = gap_weight(order, as_nats(w), lo + 1, hi) as int;
        assert(vt == w[x].0 + w[x].1);
        lemma_mul_mod_noop_general(vt, g, p);
        assert((vt % p) * (g % p) == 1) by (nonlinear_arith)
            requires
                vt % p == 1,
                g % p == 1,
        ;
    }
}

/// The hash of a node from the hashes of its children, and that of the
/// complemented edge from the hashes of their negations.
proof fn lemma_dual_mod(p: int, w0: int, w1: int, hl: int, hh: int)
    requires
        p >= 2,
        (w0 + w1) % p == 1,
        0 <= hl < p,
        0 <= hh < p,
    ensures
        (w0 * negated(hl, p) + w1 * negated(hh, p)) % p == negated((w0 * hl + w1 * hh) % p, p),
{
    let s = w0 * hl + w1 * hh;
    let nl = p + 1 - hl;
    let nh = p + 1 - hh;
    // the residues of the negations may stand for the negations
    lemma_mul_mod_noop_general(w0, nl, p);
    lemma_mul_mod_noop_general(w1, nh, p);
    lemma_add_mod_noop(w0 * (nl % p), w1 * (nh % p), p);
    lemma_add_mod_noop(w0 * nl, w1 * nh, p);
    assert((w0 * negated(hl, p) + w1 * negated(hh, p)) % p == (w0 * nl + w1 * nh) % p);
    // the sum with the negations is a multiple of `p`, and the sum of the weights, less `s`
    assert(w0 * nl + w1 * nh == p * (w0 + w1) + (w0 + w1) - s) by (nonlinear_arith)
        requires
            nl == p + 1 - hl,
            nh == p + 1 - hh,
            s == w0 * hl + w1 * hh,
    ;
    vstd::arithmetic::div_mod::lemma_mod_multiples_vanish(w0 + w1, (w0 + w1) - s, p);
    lemma_sub_mod_noop(w0 + w1, s, p);
    lemma_sub_mod_noop(1, s % p, p);
    lemma_small_mod(1, p as nat);
    vstd::arithmetic::div_mod::lemma_mod_twice(s, p);
    vstd::arithmetic::div_mod::lemma_mod_add_multiples_vanish(1 - s % p, p);
    assert(p + (1 - s % p) == p + 1 - s % p);
}

/// The semantic hash of an edge of an ordered diagram is the weighted count
/// of the edge modulo `p`.
pub proof fn lemma_hash_is_count(
    nodes: Seq<BddNode>,
    pos: Seq<usize>,
    order: Seq<VarLabel>,
    w: Seq<(int, int)>,
    p: int,
    ptr: BddPtr,
)
    requires
        p >= 2,
        ordered_ok(nodes, pos),
        is_inverse(order, pos),
        hash_weights_ok(w, p),
        w.len() >= pos.len(),
        valid(nodes, ptr),
    ensures
        semantic_hash(nodes, w, p, ptr) == edge_count(nodes, pos, order, as_nats(w), ptr) % (
        p as nat),
    decreases ptr.rank(),
{
    let wn = as_nats(w);
    lemma_small_mod(1, p as nat);
    lemma_small_mod(0, p as nat);
    if ptr.rank() > 0 {
        let i = ptr.rank() - 1;
        let node = nodes[i];
        assert(node_ordered(nodes, pos, node, i));
        let x = node.var.0 as int;
        let l = pos[x] as int;
        let lo = low_of(nodes, ptr);
        let hi = high_of(nodes, ptr);
        lemma_hash_is_count(nodes, pos, order, w, p, lo);
        lemma_hash_is_count(nodes, pos, order, w, p, hi);
        let g_lo = gap_weight(order, wn, l + 1, level(nodes, pos, lo)) as int;
        let g_hi = gap_weight(order, wn, l + 1, level(nodes, pos, hi)) as int;
        let c_lo = edge_count(nodes, pos, order, wn, lo) as int;
        let c_hi = edge_count(nodes, pos, order, wn, hi) as int;
        assert(level(nodes, pos, lo) <= pos.len() && level(nodes, pos, hi) <= pos.len()) by {
            if lo.rank() > 0 {
                assert(node_ordered(nodes, pos, nodes[lo.rank() - 1], lo.rank() - 1));
            }
            if hi.rank() > 0 {
                assert(node_ordered(nodes, pos, nodes[hi.rank() - 1], hi.rank() - 1));
            }
        }
        lemma_gap_is_one(order, pos, w, p, l + 1, level(nodes, pos, lo));
        lemma_gap_is_one(order, pos, w, p, l + 1, level(nodes, pos, hi));
        let h_lo = semantic_hash(nodes, w, p, lo);
        let h_hi = semantic_hash(nodes, w, p, hi);
        // the count modulo `p`, from the hashes of the children
        lemma_mul_mod_noop_general(g_lo, c_lo, p);
        lemma_mul_mod_noop_general(g_hi, c_hi, p);
        assert((g_lo * c_lo) % p == h_lo) by {
            assert((g_lo % p) * (c_lo % p) == c_lo % p) by (nonlinear_arith)
                requires
                    g_lo % p == 1,
            ;
            lemma_mod_bound(c_lo, p);
            lemma_small_mod((c_lo % p) as nat, p as nat);
        }
        assert((g_hi * c_hi) % p == h_hi) by {
            assert((g_hi % p) * (c_hi % p) == c_hi % p) by (nonlinear_arith)
                requires
                    g_hi % p == 1,
            ;
            lemma_mod_bound(c_hi, p);
            lemma_small_mod((c_hi % p) as nat, p as nat);
        }
        let ec = edge_count(nodes, pos, order, wn, ptr) as int;
        assert(ec == w[x].0 * (g_lo * c_lo) + w[x].1 * (g_hi * c_hi));
        lemma_mul_mod_noop_general(w[x].0, g_lo * c_lo, p);
        lemma_mul_mod_noop_general(w[x].1, g_hi * c_hi, p);
        lemma_add_mod_noop(w[x].0 * (g_lo * c_lo), w[x].1 * (g_hi * c_hi), p);
        lemma_add_mod_noop(w[x].0 * h_lo, w[x].1 * h_hi, p);
        assert(ec % p == (w[x].0 * h_lo + w[x].1 * h_hi) % p);
        match ptr {
            BddPtr::Compl(n) => {
                lemma_complement_duality(nodes, w, p, node.low);
                lemma_complement_duality(nodes, w, p, node.high);
                lemma_semantic_hash_bound(nodes, w, p, node.low);
                lemma_semantic_hash_bound(nodes, w, p, node.high);
                lemma_dual_mod(
                    p,
                    w[x].0,
                    w[x].1,
                    semantic_hash(nodes, w, p, node.low),
                    semantic_hash(nodes, w, p, node.high),
                );
                assert(semantic_hash(nodes, w, p, BddPtr::Reg(n)) == (w[x].0 * semantic_hash(
                    nodes,
                    w,
                    p,
                    node.low,
                ) + w[x].1 * semantic_hash(nodes, w, p, node.high)) % p);
            },
            _ => {
                assert(ptr == BddPtr::Reg(i as usize));
            },
        }
    }
}

/// Edges for the same function have the same sum.
pub proof fn lemma_sum_same(
    nodes: Seq<BddNode>,
    p: BddPtr,
    q: BddPtr,
    order: Seq<VarLabel>,
    w: Seq<(nat, nat)>,
    l: int,
    a: Seq<bool>,
)
    requires
        same_function(nodes, order.len(), p, q),
        0 <= l,
        a.len() == order.len(),
        forall|j: int| 0 <= j < order.len() ==> (#[trigger] order[j]).0 < order.len(),
    ensures
        bdd_sum(nodes, p, order, w, l, a) == bdd_sum(nodes, q, order, w, l, a),
    decreases order.len() - l,
{
    if l < order.len() {
        let x = order[l].0 as int;
        lemma_sum_same(nodes, p, q, order, w, l + 1, a.update(x, false));
        lemma_sum_same(nodes, p, q, order, w, l + 1, a.update(x, true));
    } else {
        lemma_same_function_at(nodes, order.len(), p, q, a);
    }
}

/// Equivalent edges collide: two edges of an ordered diagram that denote
/// the same function have the same semantic hash.
pub proof fn lemma_equivalent_hash(
    nodes: Seq<BddNode>,
    pos: Seq<usize>,
    order: Seq<VarLabel>,
    w: Seq<(int, int)>,
    p: int,
    a: BddPtr,
    b: BddPtr,
)
    requires
        p >= 2,
        ordered_ok(nodes, pos),
        is_inverse(order, pos),
        hash_weights_ok(w, p),
        w.len() >= pos.len(),
        valid(nodes, a),
        valid(nodes, b),
        same_function(nodes, pos.len(), a, b),
    ensures
        semantic_hash(nodes, w, p, a) == semantic_hash(nodes, w, p, b),
{
    let wn = as_nats(w);
    let zeros = Seq::new(pos.len(), |v: int| false);
    let la = level(nodes, pos, a);
    let lb = level(nodes, pos, b);
    if a.rank() > 0 {
        assert(node_ordered(nodes, pos, nodes[a.rank() - 1], a.rank() - 1));
    }
    if b.rank() > 0 {
        assert(node_ordered(nodes, pos, nodes[b.rank() - 1], b.rank() - 1));
    }
    lemma_smooth_is_sum(nodes, pos, order, wn, a, 0, zeros);
    lemma_smooth_is_sum(nodes, pos, order, wn, b, 0, zeros);
    lemma_sum_same(nodes, a, b, order, wn, 0, zeros);
    lemma_hash_is_count(nodes, pos, order, w, p, a);
    lemma_hash_is_count(nodes, pos, order, w, p, b);
    lemma_gap_is_one(order, pos, w, p, 0, la);
    lemma_gap_is_one(order, pos, w, p, 0, lb);
    let ga = gap_weight(order, wn, 0, la) as int;
    let gb = gap_weight(order, wn, 0, lb) as int;
    let ca = edge_count(nodes, pos, order, wn, a) as int;
    let cb = edge_count(nodes, pos, order, wn, b) as int;
    lemma_mul_mod_noop_general(ga, ca, p);
    lemma_mul_mod_noop_general(gb, cb, p);
    assert((ga % p) * (ca % p) == ca % p) by (nonlinear_arith)
        requires
            ga % p == 1,
    ;
    assert((gb % p) * (cb % p) == cb % p) by (nonlinear_arith)
        requires
            gb % p == 1,
    ;
    lemma_mod_bound(ca, p);
    lemma_mod_bound(cb, p);
    lemma_small_mod((ca % p) as nat, p as nat);
    lemma_small_mod((cb % p) as nat, p as nat);
    assert(smooth(nodes, pos, order, wn, a, 0) == ga * ca);
    assert(smooth(nodes, pos, order, wn, b, 0) == gb * cb);
}

} // verus!
