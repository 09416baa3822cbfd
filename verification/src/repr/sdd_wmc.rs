//! The weighted model count of an edge of a sentential decision diagram:
//! the sum over the assignments of the variables of a subtree of the
//! variable tree, and why it is the sum of the products of the counts of
//! the primes and the subs of a decision node.

use crate::repr::bdd_wmc::{
    cnf_sum, default_order, distinct_below, lemma_cnf_sum_is_count, lemma_sum_any_order,
};
use crate::repr::cnf::formula_holds;
use crate::repr::sdd::{SddAnd, SddPtr};
use crate::repr::sdd_canonical::{agree_in, lemma_depends};
use crate::repr::sdd_semantics::{
    denotes, is_partition, lemma_count_of, list_holds, prime_count, respects, structured,
    tables_ok, unit, SddTables,
};
use crate::repr::var_label::{Literal, VarLabel};
use crate::repr::wmc::weighted_model_count;
use crate::repr::vtree::{
    inside, leaves_below, leaves_ok, left_of, node_shape, right_of, shape_ok, VTreeNode,
};
use vstd::prelude::*;

verus! {

/// The variables at the leaves among the first `k` nodes of the row, from
/// left to right.
pub open spec fn leaf_vars(row: Seq<VTreeNode>, k: int) -> Seq<VarLabel>
    decreases k,
{
    if k <= 0 {
        Seq::empty()
    } else if row[k - 1].leaf {
        leaf_vars(row, k - 1).push(row[k - 1].var)
    } else {
        leaf_vars(row, k - 1)
    }
}

/// The variables of the tree, from left to right.
pub open spec fn leaf_order(row: Seq<VTreeNode>) -> Seq<VarLabel> {
    leaf_vars(row, row.len() as int)
}

/// The leaves before a node are among those before a later node, in the
/// same places.
pub proof fn lemma_leaf_vars(row: Seq<VTreeNode>, j: int, k: int)
    requires
        0 <= j <= k <= row.len(),
    ensures
        leaf_vars(row, j).len() == leaves_below(row, j),
        leaf_vars(row, k).len() == leaves_below(row, k),
        leaves_below(row, j) <= leaves_below(row, k),
        leaves_below(row, k) <= leaves_below(row, j) + (k - j),
        forall|i: int|
            0 <= i < leaves_below(row, j) ==> #[trigger] leaf_vars(row, j)[i] == leaf_vars(row, k)[i],
    decreases k,
{
    if j < k {
        lemma_leaf_vars(row, j, k - 1);
        lemma_leaf_vars(row, k - 1, k - 1);
    } else if j > 0 {
        lemma_leaf_vars(row, j - 1, j - 1);
    }
}

/// The variable of a leaf stands in the order at the number of the leaves
/// before it.
pub proof fn lemma_leaf_at(row: Seq<VTreeNode>, x: int)
    requires
        0 <= x < row.len(),
        row[x].leaf,
    ensures
        leaves_below(row, x) < leaf_order(row).len(),
        leaf_order(row)[leaves_below(row, x) as int] == row[x].var,
        leaves_below(row, x + 1) == leaves_below(row, x) + 1,
{
    lemma_leaf_vars(row, x, x);
    lemma_leaf_vars(row, x + 1, row.len() as int);
    let at = leaves_below(row, x) as int;
    assert(leaf_vars(row, x + 1) == leaf_vars(row, x).push(row[x].var));
    assert(leaf_vars(row, x + 1)[at] == row[x].var);
}

/// Each variable of the order is a variable of the tables.
pub open spec fn order_ok(t: SddTables) -> bool {
    forall|k: int|
        0 <= k < leaf_order(t.row).len() ==> (#[trigger] leaf_order(t.row)[k]).0 < t.leaf_of.len()
}

/// The variables at the leaves among the first nodes are variables of the
/// tables.
proof fn lemma_vars_known(t: SddTables, k: int)
    requires
        leaves_ok(t.row, t.leaf_of),
        0 <= k <= t.row.len(),
    ensures
        forall|i: int|
            0 <= i < leaf_vars(t.row, k).len() ==> (#[trigger] leaf_vars(t.row, k)[i]).0
                < t.leaf_of.len(),
    decreases k,
{
    if k > 0 {
        lemma_vars_known(t, k - 1);
        let before = leaf_vars(t.row, k - 1);
        assert forall|i: int| 0 <= i < leaf_vars(t.row, k).len() implies (#[trigger] leaf_vars(
            t.row,
            k,
        )[i]).0 < t.leaf_of.len() by {
            if t.row[k - 1].leaf {
                assert(leaf_vars(t.row, k) == before.push(t.row[k - 1].var));
                assert(t.row[k - 1].var.0 < t.leaf_of.len());
                if i < before.len() {
                    assert(leaf_vars(t.row, k)[i] == before[i]);
                }
            }
        }
    }
}

/// Each variable of the order of well-formed tables is a variable of the
/// tables.
pub proof fn lemma_order_ok(t: SddTables)
    requires
        tables_ok(t),
    ensures
        order_ok(t),
{
    lemma_vars_known(t, t.row.len() as int);
}

/// The number of the first variable of the subtree of the node at `c`.
pub open spec fn first_var(row: Seq<VTreeNode>, c: int) -> int {
    leaves_below(row, c) as int
}

/// One more than the number of the last variable of the subtree of the
/// node at `c`.
pub open spec fn end_var(row: Seq<VTreeNode>, c: int) -> int {
    leaves_below(row, c + row[c].size) as int
}

/// The variables of a leaf are the one of the leaf, and the variables of
/// another node are those of its left child and then those of its right
/// child.
pub proof fn lemma_var_range(row: Seq<VTreeNode>, c: int)
    requires
        shape_ok(row),
        0 <= c < row.len(),
    ensures
        0 <= first_var(row, c) <= end_var(row, c) <= leaf_order(row).len(),
        row[c].leaf ==> end_var(row, c) == first_var(row, c) + 1,
        !row[c].leaf ==> first_var(row, left_of(c)) == first_var(row, c) && end_var(
            row,
            left_of(c),
        ) == first_var(row, right_of(row, c)) && end_var(row, right_of(row, c)) == end_var(row, c),
{
    assert(node_shape(row, c));
    lemma_leaf_vars(row, c, c + row[c].size);
    lemma_leaf_vars(row, c + row[c].size, row.len() as int);
    if row[c].leaf {
        lemma_leaf_at(row, c);
    } else {
        assert(node_shape(row, c + 1));
        assert(node_shape(row, right_of(row, c)));
        lemma_leaf_vars(row, c, c + 1);
    }
}

/// A leaf lies in the subtree of a node if and only if its variable is one
/// of the variables of the subtree.
pub proof fn lemma_leaf_inside(row: Seq<VTreeNode>, c: int, x: int)
    requires
        shape_ok(row),
        0 <= c < row.len(),
        0 <= x < row.len(),
        row[x].leaf,
    ensures
        inside(row, c, x) <==> first_var(row, c) <= leaves_below(row, x) < end_var(row, c),
{
    assert(node_shape(row, c));
    lemma_leaf_at(row, x);
    if x < c {
        lemma_leaf_vars(row, x + 1, c);
    } else if x >= c + row[c].size {
        lemma_leaf_vars(row, c + row[c].size, x);
    } else {
        lemma_leaf_vars(row, c, x);
        lemma_leaf_vars(row, x + 1, c + row[c].size);
    }
}

/// The integrand of a sum: the sum of the numbers of those edges of the
/// list that are true under the assignment.
pub open spec fn term_sum(t: SddTables, l: Seq<(SddPtr, nat)>, a: Seq<bool>) -> nat
    decreases l.len(),
{
    if l.len() == 0 {
        0
    } else {
        term_sum(t, l.drop_last(), a) + unit(denotes(t, l.last().0, a)) * l.last().1
    }
}

/// The weighted sum of the integrand over the assignments of the variables
/// with the numbers from `lo` to `hi`, the other variables as in `a`.
pub open spec fn range_sum(
    t: SddTables,
    w: Seq<(nat, nat)>,
    l: Seq<(SddPtr, nat)>,
    lo: int,
    hi: int,
    a: Seq<bool>,
) -> nat
    decreases hi - lo,
{
    if lo >= hi {
        term_sum(t, l, a)
    } else {
        let x = leaf_order(t.row)[lo].0 as int;
        w[x].0 * range_sum(t, w, l, lo + 1, hi, a.update(x, false)) + w[x].1 * range_sum(
            t,
            w,
            l,
            lo + 1,
            hi,
            a.update(x, true),
        )
    }
}

/// The integrand that is 1 where the edge is true.
pub open spec fn single(p: SddPtr) -> Seq<(SddPtr, nat)> {
    seq![(p, 1nat)]
}

/// The weighted model count of the edge over the variables of the subtree
/// of the node at `c`.
pub open spec fn edge_sum(t: SddTables, w: Seq<(nat, nat)>, c: int, p: SddPtr) -> nat {
    range_sum(
        t,
        w,
        single(p),
        first_var(t.row, c),
        end_var(t.row, c),
        Seq::new(t.leaf_of.len(), |v: int| false),
    )
}

/// The integrand for an edge is 1 where the edge is true, and 0 elsewhere.
pub proof fn lemma_single(t: SddTables, p: SddPtr, a: Seq<bool>)
    ensures
        term_sum(t, single(p), a) == unit(denotes(t, p, a)),
{
    assert(single(p).drop_last().len() == 0);
    assert(single(p).last() == (p, 1nat));
    assert(term_sum(t, single(p).drop_last(), a) == 0);
}

/// A sum over a range is the sum over its first part of the sums over the
/// rest: where the sum of one integrand over the rest is another
/// integrand, the sum of the one over the range is the sum of the other
/// over the first part.
pub proof fn lemma_sum_split(
    t: SddTables,
    w: Seq<(nat, nat)>,
    l: Seq<(SddPtr, nat)>,
    m: Seq<(SddPtr, nat)>,
    lo: int,
    mid: int,
    hi: int,
    a: Seq<bool>,
)
    requires
        order_ok(t),
        0 <= lo <= mid <= hi,
        mid <= leaf_order(t.row).len(),
        a.len() == t.leaf_of.len(),
        forall|b: Seq<bool>|
            b.len() == t.leaf_of.len() ==> #[trigger] range_sum(t, w, l, mid, hi, b) == term_sum(
                t,
                m,
                b,
            ),
    ensures
        range_sum(t, w, l, lo, hi, a) == range_sum(t, w, m, lo, mid, a),
    decreases mid - lo,
{
    if lo < mid {
        let x = leaf_order(t.row)[lo].0 as int;
        lemma_sum_split(t, w, l, m, lo + 1, mid, hi, a.update(x, false));
        lemma_sum_split(t, w, l, m, lo + 1, mid, hi, a.update(x, true));
    }
}

/// A sum is linear in its integrand: the sum of a list is the sum of the
/// list without its last edge and the number of that edge times the sum of
/// the edge.
pub proof fn lemma_sum_linear(
    t: SddTables,
    w: Seq<(nat, nat)>,
    l: Seq<(SddPtr, nat)>,
    lo: int,
    hi: int,
    a: Seq<bool>,
)
    requires
        l.len() > 0,
    ensures
        range_sum(t, w, l, lo, hi, a) == range_sum(t, w, l.drop_last(), lo, hi, a) + l.last().1
            * range_sum(t, w, single(l.last().0), lo, hi, a),
    decreases hi - lo,
{
    let p = l.last().0;
    let k = l.last().1;
    if lo >= hi {
        lemma_single(t, p, a);
        assert(unit(denotes(t, p, a)) * k == k * unit(denotes(t, p, a))) by (nonlinear_arith);
    } else {
        let x = leaf_order(t.row)[lo].0 as int;
        let a0 = a.update(x, false);
        let a1 = a.update(x, true);
        lemma_sum_linear(t, w, l, lo + 1, hi, a0);
        lemma_sum_linear(t, w, l, lo + 1, hi, a1);
        let r0 = range_sum(t, w, l.drop_last(), lo + 1, hi, a0);
        let r1 = range_sum(t, w, l.drop_last(), lo + 1, hi, a1);
        let s0 = range_sum(t, w, single(p), lo + 1, hi, a0);
        let s1 = range_sum(t, w, single(p), lo + 1, hi, a1);
        let (w0, w1) = (w[x].0, w[x].1);
        assert(w0 * (r0 + k * s0) + w1 * (r1 + k * s1) == (w0 * r0 + w1 * r1) + k * (w0 * s0 + w1
            * s1)) by (nonlinear_arith);
    }
}

/// The number of the variable in the order of the variables.
pub open spec fn pos_of(t: SddTables, v: int) -> int {
    leaves_below(t.row, t.leaf_of[v] as int) as int
}

/// Each variable stands in the order at its number.
pub proof fn lemma_pos_of(t: SddTables, v: int)
    requires
        tables_ok(t),
        0 <= v < t.leaf_of.len(),
    ensures
        0 <= pos_of(t, v) < leaf_order(t.row).len(),
        leaf_order(t.row)[pos_of(t, v)].0 == v,
{
    lemma_leaf_at(t.row, t.leaf_of[v] as int);
}

/// Among the first nodes there is a leaf for each number below the number
/// of their leaves.
proof fn lemma_leaf_exists(row: Seq<VTreeNode>, k: int, upto: int) -> (x: int)
    requires
        0 <= upto <= row.len(),
        0 <= k < leaves_below(row, upto),
    ensures
        0 <= x < upto,
        row[x].leaf,
        leaves_below(row, x) == k,
    decreases upto,
{
    if k < leaves_below(row, upto - 1) {
        lemma_leaf_exists(row, k, upto - 1)
    } else {
        upto - 1
    }
}

/// The variable at a number of the order has that number.
pub proof fn lemma_pos_at(t: SddTables, k: int)
    requires
        tables_ok(t),
        0 <= k < leaf_order(t.row).len(),
    ensures
        leaf_order(t.row)[k].0 < t.leaf_of.len(),
        pos_of(t, leaf_order(t.row)[k].0 as int) == k,
{
    lemma_leaf_vars(t.row, t.row.len() as int, t.row.len() as int);
    let x = lemma_leaf_exists(t.row, k, t.row.len() as int);
    lemma_leaf_at(t.row, x);
    assert(t.row[x].var.0 < t.leaf_of.len());
    assert(t.leaf_of[t.row[x].var.0 as int] == x);
}

/// The two assignments agree on the variables with the numbers from `lo`
/// to `hi`.
pub open spec fn same_inside(t: SddTables, lo: int, hi: int, a: Seq<bool>, b: Seq<bool>) -> bool {
    forall|v: int| 0 <= v < t.leaf_of.len() && lo <= #[trigger] pos_of(t, v) < hi ==> a[v] == b[v]
}

/// The two assignments agree on the variables with other numbers than
/// those from `lo` to `hi`.
pub open spec fn same_outside(t: SddTables, lo: int, hi: int, a: Seq<bool>, b: Seq<bool>) -> bool {
    forall|v: int|
        0 <= v < t.leaf_of.len() && !(lo <= #[trigger] pos_of(t, v) < hi) ==> a[v] == b[v]
}

/// Assignments that agree on the variables of a subtree, by their numbers,
/// agree in the subtree.
pub proof fn lemma_agree_range(t: SddTables, c: int, a: Seq<bool>, b: Seq<bool>)
    requires
        tables_ok(t),
        0 <= c < t.row.len(),
        same_inside(t, first_var(t.row, c), end_var(t.row, c), a, b),
    ensures
        agree_in(t, c, a, b),
{
    assert forall|v: int|
        0 <= v < t.leaf_of.len() && inside(t.row, c, #[trigger] t.leaf_of[v] as int) implies a[v]
        == b[v] by {
        lemma_leaf_inside(t.row, c, t.leaf_of[v] as int);
        assert(first_var(t.row, c) <= pos_of(t, v) < end_var(t.row, c));
    }
}

/// Assignments that agree outside a range of numbers agree in each
/// subtree whose variables have other numbers.
pub proof fn lemma_agree_outside(
    t: SddTables,
    c: int,
    lo: int,
    hi: int,
    a: Seq<bool>,
    b: Seq<bool>,
)
    requires
        tables_ok(t),
        0 <= c < t.row.len(),
        same_outside(t, lo, hi, a, b),
        end_var(t.row, c) <= lo || hi <= first_var(t.row, c),
    ensures
        agree_in(t, c, a, b),
{
    assert forall|v: int|
        0 <= v < t.leaf_of.len() && inside(t.row, c, #[trigger] t.leaf_of[v] as int) implies a[v]
        == b[v] by {
        lemma_leaf_inside(t.row, c, t.leaf_of[v] as int);
        assert(!(lo <= pos_of(t, v) < hi));
    }
}

/// Two integrands that agree on all assignments that differ from `a` only
/// in the variables of a range have the same sum over the range.
pub proof fn lemma_sum_pointwise(
    t: SddTables,
    w: Seq<(nat, nat)>,
    l: Seq<(SddPtr, nat)>,
    m: Seq<(SddPtr, nat)>,
    lo: int,
    hi: int,
    a: Seq<bool>,
)
    requires
        tables_ok(t),
        0 <= lo <= hi <= leaf_order(t.row).len(),
        a.len() == t.leaf_of.len(),
        forall|b: Seq<bool>|
            b.len() == t.leaf_of.len() && #[trigger] same_outside(t, lo, hi, a, b) ==> term_sum(
                t,
                l,
                b,
            ) == term_sum(t, m, b),
    ensures
        range_sum(t, w, l, lo, hi, a) == range_sum(t, w, m, lo, hi, a),
    decreases hi - lo,
{
    if lo < hi {
        let x = leaf_order(t.row)[lo].0 as int;
        lemma_pos_at(t, lo);
        let a0 = a.update(x, false);
        let a1 = a.update(x, true);
        assert forall|b: Seq<bool>|
            b.len() == t.leaf_of.len() && #[trigger] same_outside(
                t,
                lo + 1,
                hi,
                a0,
                b,
            ) implies term_sum(t, l, b) == term_sum(t, m, b) by {
            assert(same_outside(t, lo, hi, a, b)) by {
                assert forall|v: int|
                    0 <= v < t.leaf_of.len() && !(lo <= #[trigger] pos_of(t, v) < hi) implies a[v]
                    == b[v] by {
                    assert(a0[v] == b[v]);
                }
            }
        }
        assert forall|b: Seq<bool>|
            b.len() == t.leaf_of.len() && #[trigger] same_outside(
                t,
                lo + 1,
                hi,
                a1,
                b,
            ) implies term_sum(t, l, b) == term_sum(t, m, b) by {
            assert(same_outside(t, lo, hi, a, b)) by {
                assert forall|v: int|
                    0 <= v < t.leaf_of.len() && !(lo <= #[trigger] pos_of(t, v) < hi) implies a[v]
                    == b[v] by {
                    assert(a1[v] == b[v]);
                }
            }
        }
        lemma_sum_pointwise(t, w, l, m, lo + 1, hi, a0);
        lemma_sum_pointwise(t, w, l, m, lo + 1, hi, a1);
    } else {
        assert(same_outside(t, lo, hi, a, a));
    }
}

/// The integrand has the same value under assignments that agree on the
/// variables with the numbers from `lo` to `hi`.
pub open spec fn depends_on(t: SddTables, l: Seq<(SddPtr, nat)>, lo: int, hi: int) -> bool {
    forall|a: Seq<bool>, b: Seq<bool>|
        a.len() == t.leaf_of.len() && b.len() == t.leaf_of.len() && #[trigger] same_inside(
            t,
            lo,
            hi,
            a,
            b,
        ) ==> term_sum(t, l, a) == term_sum(t, l, b)
}

/// The sum over a range of an integrand that depends on the variables of
/// the range alone is the same, whatever the other variables are.
pub proof fn lemma_sum_independent(
    t: SddTables,
    w: Seq<(nat, nat)>,
    l: Seq<(SddPtr, nat)>,
    from: int,
    lo: int,
    hi: int,
    a: Seq<bool>,
    b: Seq<bool>,
)
    requires
        tables_ok(t),
        0 <= from <= lo <= hi <= leaf_order(t.row).len(),
        a.len() == t.leaf_of.len(),
        b.len() == t.leaf_of.len(),
        depends_on(t, l, from, hi),
        same_inside(t, from, lo, a, b),
    ensures
        range_sum(t, w, l, lo, hi, a) == range_sum(t, w, l, lo, hi, b),
    decreases hi - lo,
{
    if lo < hi {
        let x = leaf_order(t.row)[lo].0 as int;
        lemma_pos_at(t, lo);
        assert forall|v: int|
            0 <= v < t.leaf_of.len() && from <= #[trigger] pos_of(t, v) < lo + 1 implies a.update(
            x,
            false,
        )[v] == b.update(x, false)[v] && a.update(x, true)[v] == b.update(x, true)[v] by {
            if v != x {
                lemma_pos_of(t, v);
                assert(pos_of(t, v) != lo);
                assert(a[v] == b[v]);
            }
        }
        lemma_sum_independent(t, w, l, from, lo + 1, hi, a.update(x, false), b.update(x, false));
        lemma_sum_independent(t, w, l, from, lo + 1, hi, a.update(x, true), b.update(x, true));
    }
}

/// The primes of the elements, each with the count of its sub over the
/// variables of the right subtree of the node at `c`.
pub open spec fn weighted(t: SddTables, w: Seq<(nat, nat)>, c: int, e: Seq<SddAnd>) -> Seq<
    (SddPtr, nat),
> {
    Seq::new(e.len(), |i: int| (e[i].prime, edge_sum(t, w, right_of(t.row, c), e[i].sub)))
}

/// The sum of the products of the count of the prime, over the variables
/// of the left subtree of the node at `c`, and the count of the sub, over
/// those of the right subtree, of each element.
pub open spec fn pair_sum(t: SddTables, w: Seq<(nat, nat)>, c: int, e: Seq<SddAnd>) -> nat
    decreases e.len(),
{
    if e.len() == 0 {
        0
    } else {
        pair_sum(t, w, c, e.drop_last()) + edge_sum(t, w, left_of(c), e.last().prime) * edge_sum(
            t,
            w,
            right_of(t.row, c),
            e.last().sub,
        )
    }
}

/// The all-false assignment of the variables of the tables.
pub open spec fn zeros(t: SddTables) -> Seq<bool> {
    Seq::new(t.leaf_of.len(), |v: int| false)
}

/// The integrand for an edge that belongs to a subtree depends on the
/// variables of the subtree alone.
pub proof fn lemma_single_depends(t: SddTables, c: int, p: SddPtr)
    requires
        tables_ok(t),
        0 <= c < t.row.len(),
        respects(t, c, p),
    ensures
        depends_on(t, single(p), first_var(t.row, c), end_var(t.row, c)),
{
    assert forall|a: Seq<bool>, b: Seq<bool>|
        a.len() == t.leaf_of.len() && b.len() == t.leaf_of.len() && #[trigger] same_inside(
            t,
            first_var(t.row, c),
            end_var(t.row, c),
            a,
            b,
        ) implies term_sum(t, single(p), a) == term_sum(t, single(p), b) by {
        lemma_agree_range(t, c, a, b);
        lemma_depends(t, c, p, a, b);
        lemma_single(t, p, a);
        lemma_single(t, p, b);
    }
}

/// The count of an edge over the variables of a subtree that it belongs
/// to is its sum over those variables, whatever the other variables are.
pub proof fn lemma_edge_sum(t: SddTables, w: Seq<(nat, nat)>, c: int, p: SddPtr, a: Seq<bool>)
    requires
        tables_ok(t),
        0 <= c < t.row.len(),
        respects(t, c, p),
        a.len() == t.leaf_of.len(),
    ensures
        range_sum(t, w, single(p), first_var(t.row, c), end_var(t.row, c), a) == edge_sum(
            t,
            w,
            c,
            p,
        ),
{
    lemma_single_depends(t, c, p);
    lemma_var_range(t.row, c);
    let lo = first_var(t.row, c);
    lemma_sum_independent(t, w, single(p), lo, lo, end_var(t.row, c), a, zeros(t));
}

/// Where no prime of the elements is true, the integrand of the primes is
/// 0; where the prime of one element is true, and no other, it is the
/// number of that element.
proof fn lemma_term_of(t: SddTables, w: Seq<(nat, nat)>, c: int, e: Seq<SddAnd>, a: Seq<bool>)
    ensures
        prime_count(t, e, a) == 0 ==> term_sum(t, weighted(t, w, c, e), a) == 0,
        forall|i: int|
            0 <= i < e.len() && prime_count(t, e, a) == 1 && denotes(t, (#[trigger] e[i]).prime, a)
                ==> term_sum(t, weighted(t, w, c, e), a) == edge_sum(
                t,
                w,
                right_of(t.row, c),
                e[i].sub,
            ),
    decreases e.len(),
{
    if e.len() > 0 {
        let m = e.drop_last();
        lemma_term_of(t, w, c, m, a);
        assert(weighted(t, w, c, e).drop_last() =~= weighted(t, w, c, m));
        let k = edge_sum(t, w, right_of(t.row, c), e.last().sub);
        assert(weighted(t, w, c, e).last() == (e.last().prime, k));
        assert(1 * k == k && 0 * k == 0) by (nonlinear_arith);
        assert forall|i: int|
            0 <= i < e.len() && prime_count(t, e, a) == 1 && denotes(
                t,
                (#[trigger] e[i]).prime,
                a,
            ) implies term_sum(t, weighted(t, w, c, e), a) == edge_sum(
            t,
            w,
            right_of(t.row, c),
            e[i].sub,
        ) by {
            if i < m.len() {
                assert(m[i] == e[i]);
                lemma_count_of(t, m, i, a);
            }
        }
    }
}

/// The sum of the integrand of the primes over the variables of the left
/// subtree is the sum of the products of the counts.
proof fn lemma_weighted_sum(t: SddTables, w: Seq<(nat, nat)>, c: int, e: Seq<SddAnd>, a: Seq<bool>)
    requires
        tables_ok(t),
        0 <= c < t.row.len(),
        !t.row[c].leaf,
        structured(t, c, e),
        a.len() == t.leaf_of.len(),
    ensures
        range_sum(
            t,
            w,
            weighted(t, w, c, e),
            first_var(t.row, left_of(c)),
            end_var(t.row, left_of(c)),
            a,
        ) == pair_sum(t, w, c, e),
    decreases e.len(),
{
    let lo = first_var(t.row, left_of(c));
    let hi = end_var(t.row, left_of(c));
    assert(node_shape(t.row, c));
    lemma_var_range(t.row, c);
    if e.len() == 0 {
        lemma_sum_zero(t, w, weighted(t, w, c, e), lo, hi, a);
    } else {
        let m = e.drop_last();
        assert(weighted(t, w, c, e).drop_last() =~= weighted(t, w, c, m));
        assert(structured(t, c, m)) by {
            assert forall|k: int| 0 <= k < m.len() implies respects(
                t,
                left_of(c),
                (#[trigger] m[k]).prime,
            ) && respects(t, right_of(t.row, c), m[k].sub) by {
                assert(m[k] == e[k]);
                assert(respects(t, left_of(c), e[k].prime));
            }
        }
        lemma_weighted_sum(t, w, c, m, a);
        lemma_sum_linear(t, w, weighted(t, w, c, e), lo, hi, a);
        assert(respects(t, left_of(c), e[e.len() - 1].prime));
        lemma_edge_sum(t, w, left_of(c), e.last().prime, a);
        let k = edge_sum(t, w, right_of(t.row, c), e.last().sub);
        let x = edge_sum(t, w, left_of(c), e.last().prime);
        assert(k * x == x * k) by (nonlinear_arith);
    }
}

/// The sum of the empty integrand is 0.
proof fn lemma_sum_zero(
    t: SddTables,
    w: Seq<(nat, nat)>,
    l: Seq<(SddPtr, nat)>,
    lo: int,
    hi: int,
    a: Seq<bool>,
)
    requires
        l.len() == 0,
    ensures
        range_sum(t, w, l, lo, hi, a) == 0,
    decreases hi - lo,
{
    if lo < hi {
        let x = leaf_order(t.row)[lo].0 as int;
        lemma_sum_zero(t, w, l, lo + 1, hi, a.update(x, false));
        lemma_sum_zero(t, w, l, lo + 1, hi, a.update(x, true));
        assert(w[x].0 * 0 + w[x].1 * 0 == 0) by (nonlinear_arith);
    }
}

/// The count of a partition: the count of an edge over the variables of
/// the subtree of a node is the sum, over the elements of a structured
/// partition at the node that denotes what the edge denotes, of the
/// products of the counts of the prime and of the sub.
pub proof fn lemma_partition_sum(
    t: SddTables,
    w: Seq<(nat, nat)>,
    c: int,
    f: SddPtr,
    e: Seq<SddAnd>,
)
    requires
        tables_ok(t),
        0 <= c < t.row.len(),
        !t.row[c].leaf,
        structured(t, c, e),
        is_partition(t, e),
        forall|a: Seq<bool>| #[trigger] list_holds(t, e, a) == denotes(t, f, a),
    ensures
        edge_sum(t, w, c, f) == pair_sum(t, w, c, e),
{
    let lo = first_var(t.row, c);
    let mid = first_var(t.row, right_of(t.row, c));
    let hi = end_var(t.row, c);
    assert(node_shape(t.row, c));
    assert(node_shape(t.row, c + 1));
    assert(node_shape(t.row, right_of(t.row, c)));
    lemma_var_range(t.row, c);
    lemma_var_range(t.row, left_of(c));
    lemma_var_range(t.row, right_of(t.row, c));
    lemma_order_ok(t);
    assert forall|b: Seq<bool>| b.len() == t.leaf_of.len() implies #[trigger] range_sum(
        t,
        w,
        single(f),
        mid,
        hi,
        b,
    ) == term_sum(t, weighted(t, w, c, e), b) by {
        assert(prime_count(t, e, b) == 1);
        crate::repr::sdd_semantics::lemma_count_some(t, e, b);
        let i = choose|i: int| 0 <= i < e.len() && denotes(t, (#[trigger] e[i]).prime, b);
        assert(respects(t, left_of(c), e[i].prime));
        lemma_term_of(t, w, c, e, b);
        // over the right subtree the edge is the sub of the element
        assert forall|d: Seq<bool>|
            d.len() == t.leaf_of.len() && #[trigger] same_outside(
                t,
                mid,
                hi,
                b,
                d,
            ) implies term_sum(t, single(f), d) == term_sum(t, single(e[i].sub), d) by {
            lemma_agree_outside(t, left_of(c), mid, hi, b, d);
            lemma_depends(t, left_of(c), e[i].prime, b, d);
            lemma_count_of(t, e, i, d);
            assert(prime_count(t, e, d) == 1);
            assert(list_holds(t, e, d) == denotes(t, f, d));
            lemma_single(t, f, d);
            lemma_single(t, e[i].sub, d);
        }
        lemma_sum_pointwise(t, w, single(f), single(e[i].sub), mid, hi, b);
        lemma_edge_sum(t, w, right_of(t.row, c), e[i].sub, b);
    }
    lemma_sum_split(t, w, single(f), weighted(t, w, c, e), lo, mid, hi, zeros(t));
    lemma_weighted_sum(t, w, c, e, zeros(t));
}

/// The count of the constant false is 0.
pub proof fn lemma_false_sum(t: SddTables, w: Seq<(nat, nat)>, c: int)
    ensures
        edge_sum(t, w, c, SddPtr::PtrFalse) == 0,
{
    lemma_none(t, w, first_var(t.row, c), end_var(t.row, c), zeros(t));
}

/// The sum of the integrand for the constant false is 0.
proof fn lemma_none(t: SddTables, w: Seq<(nat, nat)>, lo: int, hi: int, a: Seq<bool>)
    ensures
        range_sum(t, w, single(SddPtr::PtrFalse), lo, hi, a) == 0,
    decreases hi - lo,
{
    if lo < hi {
        let x = leaf_order(t.row)[lo].0 as int;
        lemma_none(t, w, lo + 1, hi, a.update(x, false));
        lemma_none(t, w, lo + 1, hi, a.update(x, true));
        assert(w[x].0 * 0 + w[x].1 * 0 == 0) by (nonlinear_arith);
    } else {
        lemma_single(t, SddPtr::PtrFalse, a);
    }
}

/// The counts at a leaf: the constant true counts the sum of the two
/// weights of the variable of the leaf, and a literal its weight.
pub proof fn lemma_leaf_sum(t: SddTables, w: Seq<(nat, nat)>, c: int, b: bool)
    requires
        tables_ok(t),
        0 <= c < t.row.len(),
        t.row[c].leaf,
    ensures
        edge_sum(t, w, c, SddPtr::PtrTrue) == w[t.row[c].var.0 as int].0 + w[t.row[c].var.0 as int].1,
        edge_sum(t, w, c, SddPtr::Literal(t.row[c].var, b)) == (if b {
            w[t.row[c].var.0 as int].1
        } else {
            w[t.row[c].var.0 as int].0
        }),
{
    lemma_var_range(t.row, c);
    lemma_leaf_at(t.row, c);
    let x = t.row[c].var.0 as int;
    let lo = first_var(t.row, c);
    assert(leaf_order(t.row)[lo].0 == x);
    assert(x < t.leaf_of.len());
    let a0 = zeros(t).update(x, false);
    let a1 = zeros(t).update(x, true);
    let lit = SddPtr::Literal(t.row[c].var, b);
    lemma_single(t, SddPtr::PtrTrue, a0);
    lemma_single(t, SddPtr::PtrTrue, a1);
    lemma_single(t, lit, a0);
    lemma_single(t, lit, a1);
    let (w0, w1) = (w[x].0, w[x].1);
    assert(range_sum(t, w, single(SddPtr::PtrTrue), lo + 1, lo + 1, a0) == 1);
    assert(range_sum(t, w, single(SddPtr::PtrTrue), lo + 1, lo + 1, a1) == 1);
    assert(w0 * 1 + w1 * 1 == w0 + w1) by (nonlinear_arith);
    assert(w0 * 0 + w1 * 1 == w1 && w0 * 1 + w1 * 0 == w0) by (nonlinear_arith);
    assert(range_sum(t, w, single(lit), lo + 1, lo + 1, a0) == unit(!b));
    assert(range_sum(t, w, single(lit), lo + 1, lo + 1, a1) == unit(b));
}

/// The list of the one element of the constant true for prime and sub.
pub open spec fn whole_list() -> Seq<SddAnd> {
    seq![SddAnd { prime: SddPtr::PtrTrue, sub: SddPtr::PtrTrue }]
}

/// What holds of the list of the one element of the constant true: it is a
/// structured partition that denotes the constant true.
pub proof fn lemma_whole_list(t: SddTables, c: int)
    ensures
        structured(t, c, whole_list()),
        is_partition(t, whole_list()),
        forall|a: Seq<bool>| #[trigger] list_holds(t, whole_list(), a),
        whole_list().len() == 1,
{
    let e = whole_list();
    assert(e.drop_last().len() == 0);
    assert forall|a: Seq<bool>| #[trigger] prime_count(t, e, a) == 1 by {
        assert(prime_count(t, e.drop_last(), a) == 0);
    }
    assert forall|a: Seq<bool>| #[trigger] list_holds(t, e, a) by {
        assert(denotes(t, e.last().prime, a) && denotes(t, e.last().sub, a));
    }
}

/// The sum of an edge over all variables from a number on is the sum of
/// the formula that the edge denotes.
proof fn lemma_sum_of_formula(
    t: SddTables,
    w: Seq<(nat, nat)>,
    cs: Seq<Seq<Literal>>,
    r: SddPtr,
    lo: int,
    a: Seq<bool>,
)
    requires
        tables_ok(t),
        0 <= lo <= leaf_order(t.row).len(),
        a.len() == t.leaf_of.len(),
        forall|b: Seq<bool>|
            b.len() == t.leaf_of.len() ==> #[trigger] denotes(t, r, b) == formula_holds(cs, b),
    ensures
        range_sum(t, w, single(r), lo, leaf_order(t.row).len() as int, a) == cnf_sum(
            cs,
            leaf_order(t.row),
            w,
            lo,
            a,
        ),
    decreases leaf_order(t.row).len() - lo,
{
    if lo < leaf_order(t.row).len() {
        let x = leaf_order(t.row)[lo].0 as int;
        lemma_pos_at(t, lo);
        lemma_sum_of_formula(t, w, cs, r, lo + 1, a.update(x, false));
        lemma_sum_of_formula(t, w, cs, r, lo + 1, a.update(x, true));
    } else {
        lemma_single(t, r, a);
    }
}

/// Agreement of the weighted model counts: the count of an edge that
/// denotes a formula, over all variables, is the weighted model count of
/// the formula.
pub proof fn lemma_wmc_agreement(
    t: SddTables,
    w: Seq<(nat, nat)>,
    cs: Seq<Seq<Literal>>,
    r: SddPtr,
)
    requires
        tables_ok(t),
        leaf_order(t.row).len() == t.leaf_of.len(),
        t.leaf_of.len() <= 0x1_0000_0000_0000_0000,
        forall|b: Seq<bool>|
            b.len() == t.leaf_of.len() ==> #[trigger] denotes(t, r, b) == formula_holds(cs, b),
    ensures
        edge_sum(t, w, 0, r) == weighted_model_count(cs, w, t.leaf_of.len()),
{
    let n = t.leaf_of.len();
    let order = leaf_order(t.row);
    assert(node_shape(t.row, 0));
    lemma_leaf_vars(t.row, t.row.len() as int, t.row.len() as int);
    assert(first_var(t.row, 0) == 0);
    assert(end_var(t.row, 0) == order.len());
    lemma_sum_of_formula(t, w, cs, r, 0, zeros(t));
    let plain = default_order(n);
    assert(distinct_below(order, n)) by {
        assert forall|i: int| 0 <= i < order.len() implies (#[trigger] order[i]).0 < n by {
            lemma_pos_at(t, i);
        }
        assert forall|i: int, j: int| 0 <= i < j < order.len() implies (#[trigger] order[i]).0 != (
        #[trigger] order[j]).0 by {
            lemma_pos_at(t, i);
            lemma_pos_at(t, j);
        }
    }
    assert(distinct_below(plain, n));
    assert forall|i: int| 0 <= i < plain.len() implies order.contains(#[trigger] plain[i]) by {
        lemma_pos_of(t, i);
        assert(order[pos_of(t, i)] == plain[i]);
    }
    lemma_sum_any_order(cs, plain, order, w, zeros(t));
    lemma_cnf_sum_is_count(cs, w, n, zeros(t));
}

} // verus!
