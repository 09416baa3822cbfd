//! Why a builder of sentential decision diagrams gives one edge to each
//! function: two edges of tables whose decision nodes are structured,
//! compressed, trimmed, in order and partitions with primes that can be
//! true, denote the same function only if they are the same edge.

use crate::repr::sdd::{SddAnd, SddPtr};
use crate::repr::sdd_semantics::{
    compressed, denotes, grown, is_partition, key_before, lemma_child_room, lemma_count_of,
    lemma_count_some, lemma_grown_denotes, lemma_key_order, lemma_negated, lemma_negated_list,
    lemma_node_is_list, lemma_push_ok, list_holds, list_ok, negated_subs, or_ok, place, prime_count,
    prime_sorted, ptr_ok, respects, room, structured, tables_ok, trimmed, SddTables,
};
use crate::repr::vtree::{inside, left_of, node_shape, right_of, shape_ok, VTreeNode};
use vstd::prelude::*;

verus! {

/// The subtree of a node that lies in the subtree of another lies within
/// it.
pub proof fn lemma_nested(row: Seq<VTreeNode>, c: int, x: int)
    requires
        shape_ok(row),
        0 <= c < row.len(),
        inside(row, c, x),
    ensures
        x + row[x].size <= c + row[c].size,
        x < row.len(),
    decreases row[c].size,
{
    assert(node_shape(row, c));
    if x != c {
        assert(node_shape(row, c + 1));
        assert(node_shape(row, right_of(row, c)));
        if x < right_of(row, c) {
            lemma_nested(row, c + 1, x);
        } else {
            lemma_nested(row, right_of(row, c), x);
        }
    }
}

/// The two assignments agree on the variables of the subtree of the node
/// at `c`.
pub open spec fn agree_in(t: SddTables, c: int, a: Seq<bool>, b: Seq<bool>) -> bool {
    forall|v: int|
        0 <= v < t.leaf_of.len() && inside(t.row, c, #[trigger] t.leaf_of[v] as int) ==> a[v] == b[v]
}

/// The assignment of the variables of the tables that takes the values of
/// `a` in the subtree of the node at `c` and those of `b` elsewhere.
pub open spec fn mixed(t: SddTables, c: int, a: Seq<bool>, b: Seq<bool>) -> Seq<bool> {
    Seq::new(
        t.leaf_of.len(),
        |v: int|
            if inside(t.row, c, t.leaf_of[v] as int) {
                a[v]
            } else {
                b[v]
            },
    )
}

/// Assignments that agree in a subtree agree in each subtree within it.
pub proof fn lemma_agree_inside(t: SddTables, c: int, x: int, a: Seq<bool>, b: Seq<bool>)
    requires
        shape_ok(t.row),
        0 <= c < t.row.len(),
        inside(t.row, c, x),
        agree_in(t, c, a, b),
    ensures
        agree_in(t, x, a, b),
{
    lemma_nested(t.row, c, x);
}

/// What an edge denotes depends on the variables of the subtree that the
/// edge belongs to, and on no others.
pub proof fn lemma_depends(t: SddTables, c: int, p: SddPtr, a: Seq<bool>, b: Seq<bool>)
    requires
        tables_ok(t),
        0 <= c < t.row.len(),
        respects(t, c, p),
        agree_in(t, c, a, b),
    ensures
        denotes(t, p, a) == denotes(t, p, b),
    decreases room(t, p), 1nat,
{
    match p {
        SddPtr::Literal(v, _) => {
            assert(inside(t.row, c, t.leaf_of[v.0 as int] as int));
        },
        SddPtr::Reg(h) => {
            lemma_agree_inside(t, c, place(t, p), a, b);
            lemma_depends_list(t, h, t.ors[h as int].1.len(), a, b);
            lemma_node_is_list(t, h, a);
            lemma_node_is_list(t, h, b);
            assert(t.ors[h as int].1.take(t.ors[h as int].1.len() as int) =~= t.ors[h as int].1);
        },
        SddPtr::Compl(h) => {
            lemma_agree_inside(t, c, place(t, p), a, b);
            lemma_depends_list(t, h, t.ors[h as int].1.len(), a, b);
            lemma_node_is_list(t, h, a);
            lemma_node_is_list(t, h, b);
            assert(t.ors[h as int].1.take(t.ors[h as int].1.len() as int) =~= t.ors[h as int].1);
        },
        _ => {},
    }
}

/// What the first elements of a decision node denote depends on the
/// variables of the subtree of the node, and on no others.
proof fn lemma_depends_list(t: SddTables, h: usize, k: nat, a: Seq<bool>, b: Seq<bool>)
    requires
        tables_ok(t),
        h < t.ors.len(),
        k <= t.ors[h as int].1.len(),
        agree_in(t, t.ors[h as int].0 as int, a, b),
    ensures
        list_holds(t, t.ors[h as int].1.take(k as int), a) == list_holds(
            t,
            t.ors[h as int].1.take(k as int),
            b,
        ),
    decreases room(t, SddPtr::Reg(h)), 0nat, k,
{
    let l = t.ors[h as int].1;
    let c = t.ors[h as int].0 as int;
    if k > 0 {
        assert(or_ok(t, h as int));
        lemma_depends_list(t, h, (k - 1) as nat, a, b);
        assert(l.take(k as int).drop_last() =~= l.take(k - 1));
        assert(l.take(k as int).last() == l[k - 1]);
        let e = l[k - 1];
        assert(respects(t, left_of(c), e.prime));
        lemma_child_room(t, c, e.prime);
        lemma_child_room(t, c, e.sub);
        assert(node_shape(t.row, c));
        lemma_agree_child(t, c, a, b);
        lemma_depends(t, left_of(c), e.prime, a, b);
        lemma_depends(t, right_of(t.row, c), e.sub, a, b);
    } else {
        assert(l.take(0).len() == 0);
    }
}

/// Assignments that agree in a subtree agree in the subtrees of its
/// children.
pub proof fn lemma_agree_child(t: SddTables, c: int, a: Seq<bool>, b: Seq<bool>)
    requires
        shape_ok(t.row),
        0 <= c < t.row.len(),
        !t.row[c].leaf,
        agree_in(t, c, a, b),
    ensures
        agree_in(t, left_of(c), a, b),
        agree_in(t, right_of(t.row, c), a, b),
        0 <= left_of(c) < t.row.len(),
        0 <= right_of(t.row, c) < t.row.len(),
{
    assert(node_shape(t.row, c));
    assert(node_shape(t.row, c + 1));
    assert(node_shape(t.row, right_of(t.row, c)));
}

/// The two edges denote the same function of the variables of the tables.
#[verifier::opaque]
pub open spec fn same_fn(t: SddTables, p: SddPtr, q: SddPtr) -> bool {
    forall|a: Seq<bool>|
        a.len() == t.leaf_of.len() ==> #[trigger] denotes(t, p, a) == denotes(t, q, a)
}

/// The two lists denote the same function of the variables of the tables.
#[verifier::opaque]
pub open spec fn same_list(t: SddTables, l: Seq<SddAnd>, m: Seq<SddAnd>) -> bool {
    forall|a: Seq<bool>|
        a.len() == t.leaf_of.len() ==> #[trigger] list_holds(t, l, a) == list_holds(t, m, a)
}

/// The edge is true under some assignment of the variables of the tables.
pub open spec fn satisfiable(t: SddTables, p: SddPtr) -> bool {
    exists|a: Seq<bool>| a.len() == t.leaf_of.len() && #[trigger] denotes(t, p, a)
}

/// Each prime of the list is true under some assignment.
pub open spec fn primes_sat(t: SddTables, l: Seq<SddAnd>) -> bool {
    forall|k: int| 0 <= k < l.len() ==> satisfiable(t, (#[trigger] l[k]).prime)
}

/// No two handles lead to the same decision node.
pub open spec fn nodes_distinct(t: SddTables) -> bool {
    forall|i: int, j: int| 0 <= i < j < t.ors.len() ==> #[trigger] t.ors[i] != #[trigger] t.ors[j]
}

/// The tables are as they should be, and each prime of each decision node
/// is true under some assignment.
pub open spec fn tables_sat(t: SddTables) -> bool {
    &&& tables_ok(t)
    &&& nodes_distinct(t)
    &&& forall|h: int| 0 <= h < t.ors.len() ==> primes_sat(t, (#[trigger] t.ors[h]).1)
}

/// Two edges that belong to the subtree of the node at `c` and denote the
/// same function are the same edge.
pub open spec fn canon_in(t: SddTables, c: int) -> bool {
    forall|p: SddPtr, q: SddPtr|
        respects(t, c, p) && respects(t, c, q) && #[trigger] same_fn(t, p, q) ==> p == q
}

/// Where the prime of an element of a partition is true, the list denotes
/// what the sub of the element denotes.
pub proof fn lemma_value_at(t: SddTables, l: Seq<SddAnd>, i: int, a: Seq<bool>)
    requires
        is_partition(t, l),
        0 <= i < l.len(),
        denotes(t, l[i].prime, a),
    ensures
        list_holds(t, l, a) == denotes(t, l[i].sub, a),
{
    lemma_count_of(t, l, i, a);
    assert(prime_count(t, l, a) == 1);
}

/// The mixed assignment agrees with the first in the left subtree and
/// with the second in the right subtree, when it is mixed on the left, and
/// the other way round, when it is mixed on the right.
pub proof fn lemma_mixed(t: SddTables, c: int, a: Seq<bool>, b: Seq<bool>)
    requires
        shape_ok(t.row),
        0 <= c < t.row.len(),
        !t.row[c].leaf,
    ensures
        mixed(t, left_of(c), a, b).len() == t.leaf_of.len(),
        agree_in(t, left_of(c), mixed(t, left_of(c), a, b), a),
        agree_in(t, right_of(t.row, c), mixed(t, left_of(c), a, b), b),
        mixed(t, right_of(t.row, c), a, b).len() == t.leaf_of.len(),
        agree_in(t, right_of(t.row, c), mixed(t, right_of(t.row, c), a, b), a),
        agree_in(t, left_of(c), mixed(t, right_of(t.row, c), a, b), b),
        0 <= left_of(c) < t.row.len(),
        0 <= right_of(t.row, c) < t.row.len(),
{
    assert(node_shape(t.row, c));
    assert(node_shape(t.row, c + 1));
    assert(node_shape(t.row, right_of(t.row, c)));
}

/// Two partitions at a node that denote the same function: where the
/// primes of two of their elements are true together, the subs of the two
/// denote the same function.
pub proof fn lemma_same_sub(
    t: SddTables,
    c: int,
    l: Seq<SddAnd>,
    m: Seq<SddAnd>,
    i: int,
    j: int,
    x: Seq<bool>,
)
    requires
        tables_ok(t),
        0 <= c < t.row.len(),
        !t.row[c].leaf,
        structured(t, c, l),
        structured(t, c, m),
        is_partition(t, l),
        is_partition(t, m),
        same_list(t, l, m),
        0 <= i < l.len(),
        0 <= j < m.len(),
        denotes(t, l[i].prime, x),
        denotes(t, m[j].prime, x),
    ensures
        same_fn(t, l[i].sub, m[j].sub),
{
    reveal(same_fn);
    reveal(same_list);
    lemma_mixed(t, c, x, x);
    assert forall|a: Seq<bool>| a.len() == t.leaf_of.len() implies #[trigger] denotes(
        t,
        l[i].sub,
        a,
    ) == denotes(t, m[j].sub, a) by {
        let b = mixed(t, left_of(c), x, a);
        lemma_mixed(t, c, x, a);
        assert(respects(t, left_of(c), l[i].prime));
        assert(respects(t, left_of(c), m[j].prime));
        lemma_depends(t, left_of(c), l[i].prime, b, x);
        lemma_depends(t, left_of(c), m[j].prime, b, x);
        lemma_depends(t, right_of(t.row, c), l[i].sub, b, a);
        lemma_depends(t, right_of(t.row, c), m[j].sub, b, a);
        lemma_value_at(t, l, i, b);
        lemma_value_at(t, m, j, b);
        assert(list_holds(t, l, b) == list_holds(t, m, b));
    }
}

/// Two partitions at a node that denote the same function: the primes of
/// two of their elements with the same sub denote the same function.
pub proof fn lemma_same_prime(
    t: SddTables,
    c: int,
    l: Seq<SddAnd>,
    m: Seq<SddAnd>,
    i: int,
    j: int,
)
    requires
        tables_ok(t),
        0 <= c < t.row.len(),
        !t.row[c].leaf,
        canon_in(t, right_of(t.row, c)),
        structured(t, c, l),
        structured(t, c, m),
        compressed(l),
        compressed(m),
        is_partition(t, l),
        is_partition(t, m),
        same_list(t, l, m),
        0 <= i < l.len(),
        0 <= j < m.len(),
        l[i].sub == m[j].sub,
    ensures
        same_fn(t, l[i].prime, m[j].prime),
{
    assert forall|a: Seq<bool>| a.len() == t.leaf_of.len() implies #[trigger] denotes(
        t,
        l[i].prime,
        a,
    ) == denotes(t, m[j].prime, a) by {
        if denotes(t, l[i].prime, a) {
            assert(prime_count(t, m, a) == 1);
            lemma_count_some(t, m, a);
            let k = choose|k: int| 0 <= k < m.len() && denotes(t, (#[trigger] m[k]).prime, a);
            lemma_same_sub(t, c, l, m, i, k, a);
            assert(respects(t, left_of(c), l[i].prime));
            assert(respects(t, left_of(c), m[k].prime));
            assert(l[i].sub == m[k].sub);
            if k != j {
                if k < j {
                    assert(m[k].sub != m[j].sub);
                } else {
                    assert(m[j].sub != m[k].sub);
                }
            }
        }
        if denotes(t, m[j].prime, a) {
            assert(prime_count(t, l, a) == 1);
            lemma_count_some(t, l, a);
            let k = choose|k: int| 0 <= k < l.len() && denotes(t, (#[trigger] l[k]).prime, a);
            lemma_same_sub(t, c, l, m, k, j, a);
            assert(respects(t, left_of(c), l[k].prime));
            assert(respects(t, left_of(c), m[j].prime));
            assert(l[k].sub == m[j].sub);
            if k != i {
                if k < i {
                    assert(l[k].sub != l[i].sub);
                } else {
                    assert(l[i].sub != l[k].sub);
                }
            }
        }
    }
    reveal(same_fn);
}

/// Two partitions at a node that denote the same function: each element
/// of the first, its prime true under some assignment, is an element of
/// the second.
pub proof fn lemma_element_found(
    t: SddTables,
    c: int,
    l: Seq<SddAnd>,
    m: Seq<SddAnd>,
    i: int,
)
    requires
        tables_ok(t),
        0 <= c < t.row.len(),
        !t.row[c].leaf,
        canon_in(t, left_of(c)),
        canon_in(t, right_of(t.row, c)),
        structured(t, c, l),
        structured(t, c, m),
        compressed(l),
        compressed(m),
        is_partition(t, l),
        is_partition(t, m),
        same_list(t, l, m),
        0 <= i < l.len(),
        satisfiable(t, l[i].prime),
    ensures
        m.contains(l[i]),
{
    let x = choose|x: Seq<bool>| x.len() == t.leaf_of.len() && #[trigger] denotes(t, l[i].prime, x);
    assert(prime_count(t, m, x) == 1);
    lemma_count_some(t, m, x);
    let j = choose|j: int| 0 <= j < m.len() && denotes(t, (#[trigger] m[j]).prime, x);
    lemma_same_sub(t, c, l, m, i, j, x);
    assert(respects(t, left_of(c), l[i].prime));
    assert(respects(t, left_of(c), m[j].prime));
    assert(l[i].sub == m[j].sub);
    lemma_same_prime(t, c, l, m, i, j);
    assert(l[i].prime == m[j].prime);
    assert(m[j] == l[i]);
}

/// No two elements of a partition whose primes can be true have the same
/// prime.
pub proof fn lemma_primes_differ(t: SddTables, l: Seq<SddAnd>, i: int, j: int)
    requires
        is_partition(t, l),
        primes_sat(t, l),
        0 <= i < l.len(),
        0 <= j < l.len(),
        i != j,
    ensures
        l[i].prime != l[j].prime,
{
    let x = choose|x: Seq<bool>| x.len() == t.leaf_of.len() && #[trigger] denotes(t, l[i].prime, x);
    if l[i].prime == l[j].prime {
        lemma_count_of(t, l, i, x);
        assert(denotes(t, l[j].prime, x));
        assert(prime_count(t, l, x) == 1);
    }
}

/// The primes of the list are pairwise different.
pub open spec fn primes_differ(l: Seq<SddAnd>) -> bool {
    forall|i: int, j: int|
        0 <= i < l.len() && 0 <= j < l.len() && i != j ==> (#[trigger] l[i]).prime != (
        #[trigger] l[j]).prime
}

/// Each element of the first list is one of the second.
pub open spec fn all_found(l: Seq<SddAnd>, m: Seq<SddAnd>) -> bool {
    forall|i: int| 0 <= i < l.len() ==> m.contains(#[trigger] l[i])
}

/// Two lists in the order of their primes, each with different primes and
/// each element of one an element of the other, agree as far as both go.
proof fn lemma_sorted_agree(l: Seq<SddAnd>, m: Seq<SddAnd>, k: int)
    requires
        prime_sorted(l),
        prime_sorted(m),
        primes_differ(l),
        primes_differ(m),
        all_found(l, m),
        all_found(m, l),
        0 <= k < l.len(),
        k < m.len(),
    ensures
        l[k] == m[k],
    decreases k,
{
    assert forall|i: int| 0 <= i < k implies l[i] == m[i] by {
        lemma_sorted_agree(l, m, i);
    }
    assert(m.contains(l[k]));
    let j = choose|j: int| 0 <= j < m.len() && m[j] == l[k];
    assert(l.contains(m[k]));
    let i = choose|i: int| 0 <= i < l.len() && l[i] == m[k];
    if j < k {
        assert(l[j] == m[j]);
        assert(l[j].prime != l[k].prime);
    } else if i < k {
        assert(l[i] == m[i]);
        assert(m[i].prime != m[k].prime);
    } else if j > k && i > k {
        // m[k] comes before m[j] == l[k], which comes before l[i] == m[k]
        assert(!key_before(m[j].prime, m[k].prime));
        assert(!key_before(l[i].prime, l[k].prime));
        assert(m[k].prime != m[j].prime);
        lemma_key_order(m[k].prime, m[j].prime, m[k].prime);
    }
}

/// Two lists in the order of their primes, each with different primes and
/// each element of one an element of the other, are the same list.
pub proof fn lemma_sorted_same(l: Seq<SddAnd>, m: Seq<SddAnd>)
    requires
        prime_sorted(l),
        prime_sorted(m),
        primes_differ(l),
        primes_differ(m),
        all_found(l, m),
        all_found(m, l),
    ensures
        l == m,
{
    assert forall|k: int| 0 <= k < l.len() && k < m.len() implies l[k] == m[k] by {
        lemma_sorted_agree(l, m, k);
    }
    if l.len() > m.len() {
        let k = m.len() as int;
        assert(m.contains(l[k]));
        let j = choose|j: int| 0 <= j < m.len() && m[j] == l[k];
        assert(l[j] == m[j]);
        assert(l[j].prime != l[k].prime);
    }
    if m.len() > l.len() {
        let k = l.len() as int;
        assert(l.contains(m[k]));
        let j = choose|j: int| 0 <= j < l.len() && l[j] == m[k];
        assert(l[j] == m[j]);
        assert(m[j].prime != m[k].prime);
    }
    assert(l =~= m);
}

/// What should hold of the list of a decision node at the node `c`, but
/// for what holds of its first sub.
pub open spec fn list_normal(t: SddTables, c: int, l: Seq<SddAnd>) -> bool {
    &&& structured(t, c, l)
    &&& compressed(l)
    &&& trimmed(l)
    &&& prime_sorted(l)
    &&& is_partition(t, l)
    &&& primes_sat(t, l)
}

/// Two lists at a node of which holds what should hold of the list of a
/// decision node are the same list, if they denote the same function.
pub proof fn lemma_lists_same(t: SddTables, c: int, l: Seq<SddAnd>, m: Seq<SddAnd>)
    requires
        tables_ok(t),
        0 <= c < t.row.len(),
        !t.row[c].leaf,
        canon_in(t, left_of(c)),
        canon_in(t, right_of(t.row, c)),
        list_normal(t, c, l),
        list_normal(t, c, m),
        same_list(t, l, m),
    ensures
        l == m,
{
    assert(same_list(t, m, l)) by {
        reveal(same_list);
    }
    assert forall|i: int| 0 <= i < l.len() implies m.contains(#[trigger] l[i]) by {
        lemma_element_found(t, c, l, m, i);
    }
    assert forall|i: int| 0 <= i < m.len() implies l.contains(#[trigger] m[i]) by {
        lemma_element_found(t, c, m, l, i);
    }
    assert forall|i: int, j: int|
        0 <= i < l.len() && 0 <= j < l.len() && i != j implies (#[trigger] l[i]).prime != (
    #[trigger] l[j]).prime by {
        lemma_primes_differ(t, l, i, j);
    }
    assert forall|i: int, j: int|
        0 <= i < m.len() && 0 <= j < m.len() && i != j implies (#[trigger] m[i]).prime != (
    #[trigger] m[j]).prime by {
        lemma_primes_differ(t, m, i, j);
    }
    lemma_sorted_same(l, m);
}

/// A list of which holds what should hold of the list of a decision node
/// has two elements or more.
pub proof fn lemma_not_single(t: SddTables, c: int, l: Seq<SddAnd>)
    requires
        tables_ok(t),
        0 <= c < t.row.len(),
        !t.row[c].leaf,
        canon_in(t, left_of(c)),
        list_normal(t, c, l),
    ensures
        l.len() >= 2,
{
    if l.len() == 1 {
        assert(l.drop_last().len() == 0);
        assert(respects(t, left_of(c), l[0].prime));
        assert(same_fn(t, l[0].prime, SddPtr::PtrTrue)) by {
            reveal(same_fn);
            assert forall|a: Seq<bool>| a.len() == t.leaf_of.len() implies #[trigger] denotes(
                t,
                l[0].prime,
                a,
            ) by {
                assert(prime_count(t, l, a) == 1);
                assert(prime_count(t, l.drop_last(), a) == 0);
            }
        }
        assert(respects(t, left_of(c), SddPtr::PtrTrue));
    }
}

/// A list of which holds what should hold of the list of a decision node
/// has a sub that is no constant.
pub proof fn lemma_some_sub(t: SddTables, c: int, l: Seq<SddAnd>) -> (i: int)
    requires
        tables_ok(t),
        0 <= c < t.row.len(),
        !t.row[c].leaf,
        canon_in(t, left_of(c)),
        list_normal(t, c, l),
    ensures
        0 <= i < l.len(),
        !l[i].sub.is_constant(),
{
    lemma_not_single(t, c, l);
    if !l[0].sub.is_constant() {
        0
    } else if !l[1].sub.is_constant() {
        1
    } else {
        assert(l[0].sub != l[1].sub);
        assert(l.len() > 2);
        assert(l[0].sub != l[2].sub);
        assert(l[1].sub != l[2].sub);
        2
    }
}

/// An edge that is no constant and belongs to a subtree in which edges
/// for the same function are the same, is true under one assignment and
/// false under another.
pub proof fn lemma_both_values(t: SddTables, c: int, p: SddPtr) -> (r: (Seq<bool>, Seq<bool>))
    requires
        canon_in(t, c),
        respects(t, c, p),
        !p.is_constant(),
    ensures
        r.0.len() == t.leaf_of.len(),
        r.1.len() == t.leaf_of.len(),
        denotes(t, p, r.0),
        !denotes(t, p, r.1),
{
    reveal(same_fn);
    assert(respects(t, c, SddPtr::PtrTrue));
    assert(respects(t, c, SddPtr::PtrFalse));
    assert(!same_fn(t, p, SddPtr::PtrTrue));
    assert(!same_fn(t, p, SddPtr::PtrFalse));
    let no = choose|a: Seq<bool>|
        a.len() == t.leaf_of.len() && #[trigger] denotes(t, p, a) != denotes(t, SddPtr::PtrTrue, a);
    let yes = choose|a: Seq<bool>|
        a.len() == t.leaf_of.len() && #[trigger] denotes(t, p, a) != denotes(
            t,
            SddPtr::PtrFalse,
            a,
        );
    (yes, no)
}

/// What a list denotes of which holds what should hold of the list of a
/// decision node depends on a variable of the right subtree: it differs
/// under two assignments that agree in the left subtree.
pub proof fn lemma_needs_right(t: SddTables, c: int, l: Seq<SddAnd>) -> (r: (Seq<bool>, Seq<bool>))
    requires
        tables_ok(t),
        0 <= c < t.row.len(),
        !t.row[c].leaf,
        canon_in(t, left_of(c)),
        canon_in(t, right_of(t.row, c)),
        list_normal(t, c, l),
    ensures
        r.0.len() == t.leaf_of.len(),
        r.1.len() == t.leaf_of.len(),
        agree_in(t, left_of(c), r.0, r.1),
        list_holds(t, l, r.0) != list_holds(t, l, r.1),
{
    let i = lemma_some_sub(t, c, l);
    assert(respects(t, left_of(c), l[i].prime));
    let (yes, no) = lemma_both_values(t, right_of(t.row, c), l[i].sub);
    let x = choose|x: Seq<bool>| x.len() == t.leaf_of.len() && #[trigger] denotes(t, l[i].prime, x);
    let a = mixed(t, right_of(t.row, c), yes, x);
    let b = mixed(t, right_of(t.row, c), no, x);
    lemma_mixed(t, c, yes, x);
    lemma_mixed(t, c, no, x);
    lemma_depends(t, left_of(c), l[i].prime, a, x);
    lemma_depends(t, left_of(c), l[i].prime, b, x);
    lemma_depends(t, right_of(t.row, c), l[i].sub, a, yes);
    lemma_depends(t, right_of(t.row, c), l[i].sub, b, no);
    lemma_value_at(t, l, i, a);
    lemma_value_at(t, l, i, b);
    (a, b)
}

/// What a list denotes of which holds what should hold of the list of a
/// decision node depends on a variable of the left subtree: it differs
/// under two assignments that agree in the right subtree.
pub proof fn lemma_needs_left(t: SddTables, c: int, l: Seq<SddAnd>) -> (r: (Seq<bool>, Seq<bool>))
    requires
        tables_ok(t),
        0 <= c < t.row.len(),
        !t.row[c].leaf,
        canon_in(t, left_of(c)),
        canon_in(t, right_of(t.row, c)),
        list_normal(t, c, l),
    ensures
        r.0.len() == t.leaf_of.len(),
        r.1.len() == t.leaf_of.len(),
        agree_in(t, right_of(t.row, c), r.0, r.1),
        list_holds(t, l, r.0) != list_holds(t, l, r.1),
{
    lemma_not_single(t, c, l);
    reveal(same_fn);
    assert(respects(t, left_of(c), l[0].prime));
    assert(respects(t, left_of(c), l[1].prime));
    assert(l[0].sub != l[1].sub);
    assert(!same_fn(t, l[0].sub, l[1].sub));
    let y = choose|y: Seq<bool>|
        y.len() == t.leaf_of.len() && #[trigger] denotes(t, l[0].sub, y) != denotes(t, l[1].sub, y);
    let x0 = choose|x: Seq<bool>|
        x.len() == t.leaf_of.len() && #[trigger] denotes(t, l[0].prime, x);
    let x1 = choose|x: Seq<bool>|
        x.len() == t.leaf_of.len() && #[trigger] denotes(t, l[1].prime, x);
    let a = mixed(t, left_of(c), x0, y);
    let b = mixed(t, left_of(c), x1, y);
    lemma_mixed(t, c, x0, y);
    lemma_mixed(t, c, x1, y);
    lemma_depends(t, left_of(c), l[0].prime, a, x0);
    lemma_depends(t, left_of(c), l[1].prime, b, x1);
    lemma_depends(t, right_of(t.row, c), l[0].sub, a, y);
    lemma_depends(t, right_of(t.row, c), l[1].sub, b, y);
    lemma_value_at(t, l, 0, a);
    lemma_value_at(t, l, 1, b);
    assert(agree_in(t, right_of(t.row, c), a, b));
    (a, b)
}

/// What should hold of the list of a decision node holds of the list of
/// each decision node of the tables.
pub proof fn lemma_node_normal(t: SddTables, h: int)
    requires
        tables_sat(t),
        0 <= h < t.ors.len(),
    ensures
        list_normal(t, t.ors[h].0 as int, t.ors[h].1),
        t.ors[h].0 < t.row.len(),
        !t.row[t.ors[h].0 as int].leaf,
        !t.ors[h].1[0].sub.is_negated(),
{
    assert(or_ok(t, h));
    assert(primes_sat(t, t.ors[h].1));
}

/// The handle of the decision node that the edge leads to.
pub open spec fn handle_of(p: SddPtr) -> int {
    match p {
        SddPtr::Reg(h) => h as int,
        SddPtr::Compl(h) => h as int,
        _ => 0,
    }
}

/// The edge leads to a decision node at the node `c` of the variable tree.
pub open spec fn stands_at(t: SddTables, c: int, p: SddPtr) -> bool {
    (p is Reg || p is Compl) && ptr_ok(t, p) && place(t, p) == c
}

/// An edge to a decision node at a node of the variable tree denotes
/// another function than any edge that belongs to a subtree of a child of
/// that node.
pub proof fn lemma_node_and_below(t: SddTables, c: int, p: SddPtr, q: SddPtr)
    requires
        tables_sat(t),
        0 <= c < t.row.len(),
        !t.row[c].leaf,
        canon_in(t, left_of(c)),
        canon_in(t, right_of(t.row, c)),
        stands_at(t, c, p),
        respects(t, left_of(c), q) || respects(t, right_of(t.row, c), q),
    ensures
        !same_fn(t, p, q),
{
    let h = handle_of(p);
    let l = t.ors[h].1;
    lemma_node_normal(t, h);
    lemma_mixed(t, c, Seq::empty(), Seq::empty());
    let (a, b) = if respects(t, left_of(c), q) {
        lemma_needs_right(t, c, l)
    } else {
        lemma_needs_left(t, c, l)
    };
    if respects(t, left_of(c), q) {
        lemma_depends(t, left_of(c), q, a, b);
    } else {
        lemma_depends(t, right_of(t.row, c), q, a, b);
    }
    lemma_node_is_list(t, h as usize, a);
    lemma_node_is_list(t, h as usize, b);
    assert(denotes(t, p, a) != denotes(t, p, b));
    reveal(same_fn);
}

/// An edge that is no constant and belongs to the left subtree of a node
/// denotes another function than any edge that belongs to the right
/// subtree.
pub proof fn lemma_left_and_right(t: SddTables, c: int, p: SddPtr, q: SddPtr)
    requires
        tables_ok(t),
        0 <= c < t.row.len(),
        !t.row[c].leaf,
        canon_in(t, left_of(c)),
        respects(t, left_of(c), p),
        respects(t, right_of(t.row, c), q),
        !p.is_constant(),
    ensures
        !same_fn(t, p, q),
{
    if same_fn(t, p, q) {
        reveal(same_fn);
        let zero = Seq::new(t.leaf_of.len(), |v: int| false);
        assert forall|a: Seq<bool>| a.len() == t.leaf_of.len() implies #[trigger] denotes(t, p, a)
            == denotes(t, p, zero) by {
            let m = mixed(t, left_of(c), a, zero);
            lemma_mixed(t, c, a, zero);
            lemma_depends(t, left_of(c), p, m, a);
            lemma_depends(t, right_of(t.row, c), q, m, zero);
            assert(denotes(t, p, m) == denotes(t, q, m));
            assert(denotes(t, p, zero) == denotes(t, q, zero));
        }
        assert(respects(t, left_of(c), SddPtr::PtrTrue));
        assert(respects(t, left_of(c), SddPtr::PtrFalse));
        if denotes(t, p, zero) {
            assert(same_fn(t, p, SddPtr::PtrTrue));
        } else {
            assert(same_fn(t, p, SddPtr::PtrFalse));
        }
    }
}

/// Two edges to decision nodes at one node of the variable tree that
/// denote the same function are the same edge.
pub proof fn lemma_both_at(t: SddTables, c: int, p: SddPtr, q: SddPtr)
    requires
        tables_sat(t),
        0 <= c < t.row.len(),
        !t.row[c].leaf,
        canon_in(t, left_of(c)),
        canon_in(t, right_of(t.row, c)),
        stands_at(t, c, p),
        stands_at(t, c, q),
        same_fn(t, p, q),
    ensures
        p == q,
{
    let h = handle_of(p);
    let k = handle_of(q);
    let l = t.ors[h].1;
    let m = t.ors[k].1;
    lemma_node_normal(t, h);
    lemma_node_normal(t, k);
    reveal(same_fn);
    reveal(same_list);
    if (p is Reg) == (q is Reg) {
        assert forall|a: Seq<bool>| a.len() == t.leaf_of.len() implies #[trigger] list_holds(
            t,
            l,
            a,
        ) == list_holds(t, m, a) by {
            lemma_node_is_list(t, h as usize, a);
            lemma_node_is_list(t, k as usize, a);
            assert(denotes(t, p, a) == denotes(t, q, a));
        }
        lemma_lists_same(t, c, l, m);
        assert(t.ors[h] == t.ors[k]);
        if h < k {
            assert(t.ors[h] != t.ors[k]);
        } else if k < h {
            assert(t.ors[k] != t.ors[h]);
        }
    } else {
        let n = negated_subs(m);
        lemma_negated_list(t, c, m);
        assert(primes_sat(t, n)) by {
            assert forall|i: int| 0 <= i < n.len() implies satisfiable(
                t,
                (#[trigger] n[i]).prime,
            ) by {
                assert(satisfiable(t, m[i].prime));
            }
        }
        assert forall|a: Seq<bool>| a.len() == t.leaf_of.len() implies #[trigger] list_holds(
            t,
            l,
            a,
        ) == list_holds(t, n, a) by {
            lemma_node_is_list(t, h as usize, a);
            lemma_node_is_list(t, k as usize, a);
            assert(denotes(t, p, a) == denotes(t, q, a));
            assert(list_holds(t, n, a) == !list_holds(t, m, a));
        }
        lemma_lists_same(t, c, l, n);
        assert(l[0] == n[0]);
    }
}

/// Two edges that belong to a leaf of the variable tree and denote the
/// same function are the same edge.
pub proof fn lemma_canon_leaf(t: SddTables, c: int)
    requires
        tables_ok(t),
        0 <= c < t.row.len(),
        t.row[c].leaf,
    ensures
        canon_in(t, c),
{
    assert(node_shape(t.row, c));
    let yes = Seq::new(t.leaf_of.len(), |v: int| true);
    let no = Seq::new(t.leaf_of.len(), |v: int| false);
    assert forall|p: SddPtr, q: SddPtr|
        respects(t, c, p) && respects(t, c, q) && #[trigger] same_fn(t, p, q) implies p == q by {
        reveal(same_fn);
        assert(denotes(t, p, yes) == denotes(t, q, yes));
        assert(denotes(t, p, no) == denotes(t, q, no));
        match p {
            SddPtr::Reg(h) => {
                assert(or_ok(t, h as int));
            },
            SddPtr::Compl(h) => {
                assert(or_ok(t, h as int));
            },
            _ => {},
        }
        match q {
            SddPtr::Reg(h) => {
                assert(or_ok(t, h as int));
            },
            SddPtr::Compl(h) => {
                assert(or_ok(t, h as int));
            },
            _ => {},
        }
    }
}

/// Two edges that belong to the subtree of a node of the variable tree and
/// denote the same function are the same edge, if that holds in the
/// subtrees of the children of the node.
pub proof fn lemma_pair(t: SddTables, c: int, p: SddPtr, q: SddPtr)
    requires
        tables_sat(t),
        0 <= c < t.row.len(),
        !t.row[c].leaf,
        canon_in(t, left_of(c)),
        canon_in(t, right_of(t.row, c)),
        respects(t, c, p),
        respects(t, c, q),
        same_fn(t, p, q),
    ensures
        p == q,
{
    assert(node_shape(t.row, c));
    assert(node_shape(t.row, c + 1));
    assert(node_shape(t.row, right_of(t.row, c)));
    let left = left_of(c);
    let right = right_of(t.row, c);
    assert(same_fn(t, q, p)) by {
        reveal(same_fn);
    }
    lemma_at_is_node(t, c, p);
    lemma_at_is_node(t, c, q);
    if respects(t, left, p) && respects(t, left, q) {
    } else if respects(t, right, p) && respects(t, right, q) {
    } else if stands_at(t, c, p) && stands_at(t, c, q) {
        lemma_both_at(t, c, p, q);
    } else if stands_at(t, c, p) {
        lemma_node_and_below(t, c, p, q);
    } else if stands_at(t, c, q) {
        lemma_node_and_below(t, c, q, p);
    } else if respects(t, left, p) {
        lemma_left_and_right(t, c, p, q);
    } else {
        lemma_left_and_right(t, c, q, p);
    }
}

/// An edge that belongs to an inner node of the variable tree itself
/// leads to a decision node.
proof fn lemma_at_is_node(t: SddTables, c: int, p: SddPtr)
    requires
        tables_ok(t),
        0 <= c < t.row.len(),
        !t.row[c].leaf,
        respects(t, c, p),
    ensures
        stands_at(t, c, p) || respects(t, left_of(c), p) || respects(t, right_of(t.row, c), p),
{
    assert(node_shape(t.row, c));
    assert(node_shape(t.row, c + 1));
    assert(node_shape(t.row, right_of(t.row, c)));
}

/// Two edges that belong to the subtree of a node of the variable tree and
/// denote the same function are the same edge.
pub proof fn lemma_canon_at(t: SddTables, c: int)
    requires
        tables_sat(t),
        0 <= c < t.row.len(),
    ensures
        canon_in(t, c),
    decreases t.row[c].size,
{
    assert(node_shape(t.row, c));
    if t.row[c].leaf {
        lemma_canon_leaf(t, c);
    } else {
        assert(node_shape(t.row, c + 1));
        assert(node_shape(t.row, right_of(t.row, c)));
        lemma_canon_at(t, left_of(c));
        lemma_canon_at(t, right_of(t.row, c));
        assert forall|p: SddPtr, q: SddPtr|
            respects(t, c, p) && respects(t, c, q) && #[trigger] same_fn(t, p, q) implies p
            == q by {
            lemma_pair(t, c, p, q);
        }
    }
}

/// Canonicity: two edges of the tables that denote the same function of
/// the variables are the same edge.
pub proof fn lemma_canonical(t: SddTables, p: SddPtr, q: SddPtr)
    requires
        tables_sat(t),
        ptr_ok(t, p),
        ptr_ok(t, q),
        forall|a: Seq<bool>|
            a.len() == t.leaf_of.len() ==> #[trigger] denotes(t, p, a) == denotes(t, q, a),
    ensures
        p == q,
{
    assert(node_shape(t.row, 0));
    lemma_canon_at(t, 0);
    lemma_in_tree(t, p);
    lemma_in_tree(t, q);
    assert(same_fn(t, p, q)) by {
        reveal(same_fn);
    }
}

/// Every edge of the tables belongs to the whole variable tree.
pub proof fn lemma_in_tree(t: SddTables, p: SddPtr)
    requires
        tables_ok(t),
        ptr_ok(t, p),
    ensures
        respects(t, 0, p),
{
    match p {
        SddPtr::Reg(h) => {
            assert(or_ok(t, h as int));
        },
        SddPtr::Compl(h) => {
            assert(or_ok(t, h as int));
        },
        _ => {},
    }
}

/// Primes of edges of the tables that can be true can be true in tables
/// that have grown.
pub proof fn lemma_grown_sat(t: SddTables, u: SddTables, l: Seq<SddAnd>)
    requires
        tables_ok(t),
        grown(t, u),
        list_ok(t, l),
        primes_sat(t, l),
    ensures
        primes_sat(u, l),
{
    assert forall|k: int| 0 <= k < l.len() implies satisfiable(u, (#[trigger] l[k]).prime) by {
        assert(satisfiable(t, l[k].prime));
        let a = choose|a: Seq<bool>|
            a.len() == t.leaf_of.len() && #[trigger] denotes(t, l[k].prime, a);
        lemma_grown_denotes(t, u, l[k].prime, a);
    }
}

/// Tables stay as they should be, the primes of their nodes such as can be
/// true, when a decision node is added of which that holds.
pub proof fn lemma_push_sat(t: SddTables, u: SddTables, c: usize, l: Seq<SddAnd>)
    requires
        tables_sat(t),
        grown(t, u),
        u.ors == t.ors.push((c, l)),
        nodes_distinct(u),
        c < t.row.len(),
        !t.row[c as int].leaf,
        list_normal(t, c as int, l),
        !l[0].sub.is_negated(),
    ensures
        tables_sat(u),
{
    lemma_push_ok(t, u, c, l);
    assert forall|h: int| 0 <= h < u.ors.len() implies primes_sat(u, (#[trigger] u.ors[h]).1) by {
        let m = u.ors[h].1;
        if h < t.ors.len() {
            assert(u.ors[h] == t.ors[h]);
            assert(or_ok(t, h));
            assert(primes_sat(t, t.ors[h].1));
        }
        crate::repr::sdd_semantics::lemma_grown_structured(t, u, u.ors[h].0 as int, m);
        lemma_grown_sat(t, u, m);
    }
}

/// The constant true and each edge that is no constant can be true, and the
/// negation of an edge that is no constant can be true.
pub proof fn lemma_can_be_true(t: SddTables, p: SddPtr)
    requires
        tables_sat(t),
        ptr_ok(t, p),
        !(p is BDD),
        p != SddPtr::PtrFalse,
    ensures
        satisfiable(t, p),
        !p.is_constant() ==> satisfiable(t, p.negated()),
{
    assert(node_shape(t.row, 0));
    if p.is_constant() {
        let zero = Seq::new(t.leaf_of.len(), |v: int| false);
        assert(denotes(t, p, zero));
    } else {
        lemma_canon_at(t, 0);
        lemma_in_tree(t, p);
        let (yes, no) = lemma_both_values(t, 0, p);
        lemma_negated(t, p, no);
    }
}

} // verus!
