//! What a sentential decision diagram denotes, and what holds of the lists
//! of elements that its decision nodes are made of.
//!
//! A decision node denotes the disjunction of its elements, an element the
//! conjunction of its prime and its sub. The primes of a node part the
//! assignments among them: under each assignment one prime is true.

use crate::repr::sdd::{BinarySDD, SddAnd, SddPtr};
use crate::repr::vtree::{inside, leaves_ok, left_of, node_shape, right_of, shape_ok, VTreeNode};
use vstd::prelude::*;

verus! {

/// What edges are read in: the decision nodes and the binary nodes by
/// their handles, the variable tree in a row, and the places of the leaves
/// of the variables.
pub struct SddTables {
    pub ors: Seq<(usize, Seq<SddAnd>)>,
    pub bdds: Seq<BinarySDD>,
    pub row: Seq<VTreeNode>,
    pub leaf_of: Seq<usize>,
}

impl SddPtr {
    /// The edge for the negation, for every edge but one to a binary node.
    pub open spec fn negated(self) -> SddPtr {
        match self {
            SddPtr::PtrTrue => SddPtr::PtrFalse,
            SddPtr::PtrFalse => SddPtr::PtrTrue,
            SddPtr::Literal(v, b) => SddPtr::Literal(v, !b),
            SddPtr::BDD(h) => SddPtr::BDD(h),
            SddPtr::Reg(h) => SddPtr::Compl(h),
            SddPtr::Compl(h) => SddPtr::Reg(h),
        }
    }

    /// The edge is a constant.
    pub open spec fn is_constant(self) -> bool {
        self is PtrTrue || self is PtrFalse
    }

    /// The edge is the negated one of the two edges for a function and its
    /// negation.
    pub open spec fn is_negated(self) -> bool {
        match self {
            SddPtr::PtrFalse => true,
            SddPtr::Literal(_, b) => !b,
            SddPtr::Compl(_) => true,
            _ => false,
        }
    }

    /// A number by which edges are ordered: different edges have different
    /// numbers.
    pub open spec fn key(self) -> (int, int, int) {
        match self {
            SddPtr::PtrTrue => (0, 0, 0),
            SddPtr::PtrFalse => (1, 0, 0),
            SddPtr::Literal(v, b) => (2, v.0 as int, if b {
                1int
            } else {
                0int
            }),
            SddPtr::BDD(h) => (3, h as int, 0),
            SddPtr::Reg(h) => (4, h as int, 0),
            SddPtr::Compl(h) => (5, h as int, 0),
        }
    }
}

/// The first edge comes before the second.
pub open spec fn key_before(p: SddPtr, q: SddPtr) -> bool {
    let (a, b, c) = p.key();
    let (x, y, z) = q.key();
    a < x || (a == x && (b < y || (b == y && c < z)))
}

/// The edge leads to a node of the tables, to a literal of a variable of
/// the tree, or to a constant.
pub open spec fn ptr_ok(t: SddTables, p: SddPtr) -> bool {
    match p {
        SddPtr::PtrTrue => true,
        SddPtr::PtrFalse => true,
        SddPtr::Literal(v, _) => v.0 < t.leaf_of.len(),
        SddPtr::BDD(h) => h < t.bdds.len(),
        SddPtr::Reg(h) => h < t.ors.len(),
        SddPtr::Compl(h) => h < t.ors.len(),
    }
}

/// The place in the row of the node of the variable tree that the edge
/// belongs to; for a constant and for an edge to nothing, the length of
/// the row.
pub open spec fn place(t: SddTables, p: SddPtr) -> int {
    if !ptr_ok(t, p) {
        t.row.len() as int
    } else {
        match p {
            SddPtr::PtrTrue => t.row.len() as int,
            SddPtr::PtrFalse => t.row.len() as int,
            SddPtr::Literal(v, _) => t.leaf_of[v.0 as int] as int,
            SddPtr::BDD(h) => t.bdds[h as int].vtree as int,
            SddPtr::Reg(h) => t.ors[h as int].0 as int,
            SddPtr::Compl(h) => t.ors[h as int].0 as int,
        }
    }
}

/// How far the place of the edge is from the end of the row.
pub open spec fn room(t: SddTables, p: SddPtr) -> nat {
    if place(t, p) < t.row.len() {
        (t.row.len() - place(t, p)) as nat
    } else {
        0
    }
}

/// The number of elements of the node of the edge.
pub open spec fn width(t: SddTables, p: SddPtr) -> nat {
    match p {
        SddPtr::Reg(h) if h < t.ors.len() => t.ors[h as int].1.len(),
        SddPtr::Compl(h) if h < t.ors.len() => t.ors[h as int].1.len(),
        _ => 0,
    }
}

/// The value of the function of the edge under the assignment.
pub open spec fn denotes(t: SddTables, p: SddPtr, a: Seq<bool>) -> bool
    decreases room(t, p), width(t, p) + 1,
{
    match p {
        SddPtr::PtrTrue => true,
        SddPtr::PtrFalse => false,
        SddPtr::Literal(v, b) => a[v.0 as int] == b,
        SddPtr::BDD(h) => {
            if h < t.bdds.len() && room(t, t.bdds[h as int].low) < room(t, p) && room(
                t,
                t.bdds[h as int].high,
            ) < room(t, p) {
                if a[t.bdds[h as int].label.0 as int] {
                    denotes(t, t.bdds[h as int].high, a)
                } else {
                    denotes(t, t.bdds[h as int].low, a)
                }
            } else {
                false
            }
        },
        SddPtr::Reg(h) => h < t.ors.len() && some_element(t, h, t.ors[h as int].1.len(), a),
        SddPtr::Compl(h) => !(h < t.ors.len() && some_element(t, h, t.ors[h as int].1.len(), a)),
    }
}

/// One of the first `k` elements of the decision node `h` is true under
/// the assignment.
pub open spec fn some_element(t: SddTables, h: usize, k: nat, a: Seq<bool>) -> bool
    decreases room(t, SddPtr::Reg(h)), k,
{
    if k == 0 || h >= t.ors.len() || k > t.ors[h as int].1.len() {
        false
    } else {
        let e = t.ors[h as int].1[k - 1];
        some_element(t, h, (k - 1) as nat, a) || (room(t, e.prime) < room(t, SddPtr::Reg(h))
            && room(t, e.sub) < room(t, SddPtr::Reg(h)) && denotes(t, e.prime, a) && denotes(
            t,
            e.sub,
            a,
        ))
    }
}

/// The element is true under the assignment.
pub open spec fn element_holds(t: SddTables, e: SddAnd, a: Seq<bool>) -> bool {
    denotes(t, e.prime, a) && denotes(t, e.sub, a)
}

/// One of the elements is true under the assignment.
pub open spec fn list_holds(t: SddTables, l: Seq<SddAnd>, a: Seq<bool>) -> bool
    decreases l.len(),
{
    l.len() > 0 && (list_holds(t, l.drop_last(), a) || element_holds(t, l.last(), a))
}

/// 1 for true, 0 for false.
pub open spec fn unit(b: bool) -> nat {
    if b {
        1
    } else {
        0
    }
}

/// The number of elements whose prime is true under the assignment.
pub open spec fn prime_count(t: SddTables, l: Seq<SddAnd>, a: Seq<bool>) -> nat
    decreases l.len(),
{
    if l.len() == 0 {
        0
    } else {
        prime_count(t, l.drop_last(), a) + unit(denotes(t, l.last().prime, a))
    }
}

/// Under each assignment one prime of the list is true.
pub open spec fn is_partition(t: SddTables, l: Seq<SddAnd>) -> bool {
    forall|a: Seq<bool>| #[trigger] prime_count(t, l, a) == 1
}

/// The edge is valid and belongs to the subtree of the node at `c`, if it
/// is no constant.
pub open spec fn respects(t: SddTables, c: int, p: SddPtr) -> bool {
    &&& ptr_ok(t, p)
    &&& !(p is BDD)
    &&& p.is_constant() || inside(t.row, c, place(t, p))
}

/// Each prime belongs to the left subtree of the node at `c`, and each sub
/// belongs to the right subtree.
pub open spec fn structured(t: SddTables, c: int, l: Seq<SddAnd>) -> bool {
    forall|k: int|
        0 <= k < l.len() ==> respects(t, left_of(c), (#[trigger] l[k]).prime) && respects(
            t,
            right_of(t.row, c),
            l[k].sub,
        )
}

/// No two elements have the same sub.
pub open spec fn compressed(l: Seq<SddAnd>) -> bool {
    forall|i: int, j: int| 0 <= i < j < l.len() ==> (#[trigger] l[i]).sub != (#[trigger] l[j]).sub
}

/// The list is not one that stands for an edge of its own: not the one
/// element of the prime true, and not two elements with the constants for
/// subs.
pub open spec fn trimmed(l: Seq<SddAnd>) -> bool {
    &&& l.len() > 0
    &&& !(l.len() == 1 && l[0].prime == SddPtr::PtrTrue)
    &&& !(l.len() == 2 && l[0].sub.is_constant() && l[1].sub.is_constant())
}

/// The elements stand in the order of their primes: none comes before an
/// earlier one.
pub open spec fn prime_sorted(l: Seq<SddAnd>) -> bool {
    forall|i: int, j: int|
        0 <= i < j < l.len() ==> !key_before((#[trigger] l[j]).prime, (#[trigger] l[i]).prime)
}

/// What holds of the decision node `h`: it stands at an inner node of the
/// variable tree, and its list of elements is structured, compressed,
/// trimmed, in order, a partition, and of the two lists for a function and
/// its negation the one whose first sub is not negated.
pub open spec fn or_ok(t: SddTables, h: int) -> bool {
    let (c, l) = t.ors[h];
    &&& c < t.row.len()
    &&& !t.row[c as int].leaf
    &&& structured(t, c as int, l)
    &&& compressed(l)
    &&& trimmed(l)
    &&& prime_sorted(l)
    &&& !l[0].sub.is_negated()
    &&& is_partition(t, l)
}

/// The row is that of a variable tree with the leaves where the tables say,
/// the tables hold no binary node, and what holds of a decision node holds
/// of each.
pub open spec fn tables_ok(t: SddTables) -> bool {
    &&& shape_ok(t.row)
    &&& leaves_ok(t.row, t.leaf_of)
    &&& t.bdds.len() == 0
    &&& forall|h: int| 0 <= h < t.ors.len() ==> #[trigger] or_ok(t, h)
}

/// The second tables hold what the first hold, and maybe more decision
/// nodes.
pub open spec fn grown(t: SddTables, u: SddTables) -> bool {
    &&& t.row == u.row
    &&& t.leaf_of == u.leaf_of
    &&& t.bdds == u.bdds
    &&& t.ors.len() <= u.ors.len()
    &&& forall|h: int| 0 <= h < t.ors.len() ==> #[trigger] u.ors[h] == t.ors[h]
}

/// The negated edge denotes the negation.
pub proof fn lemma_negated(t: SddTables, p: SddPtr, a: Seq<bool>)
    requires
        !(p is BDD),
    ensures
        denotes(t, p.negated(), a) == !denotes(t, p, a),
        ptr_ok(t, p.negated()) == ptr_ok(t, p),
        place(t, p.negated()) == place(t, p),
        p.negated().negated() == p,
        p.negated().is_negated() == !p.is_negated(),
{
}

/// An edge that respects a child of a node has less room than the node.
pub proof fn lemma_child_room(t: SddTables, c: int, p: SddPtr)
    requires
        shape_ok(t.row),
        0 <= c < t.row.len(),
        !t.row[c].leaf,
        respects(t, left_of(c), p) || respects(t, right_of(t.row, c), p),
    ensures
        room(t, p) < t.row.len() - c,
        p.is_constant() || (c < place(t, p) < t.row.len() && inside(t.row, c, place(t, p))),
{
    assert(node_shape(t.row, c));
    assert(node_shape(t.row, c + 1));
    assert(node_shape(t.row, right_of(t.row, c)));
}

/// What the first elements of a node denote is what the list of them
/// denotes.
proof fn lemma_some_is_list(t: SddTables, h: usize, k: nat, a: Seq<bool>)
    requires
        tables_ok(t),
        h < t.ors.len(),
        k <= t.ors[h as int].1.len(),
    ensures
        some_element(t, h, k, a) == list_holds(t, t.ors[h as int].1.take(k as int), a),
    decreases k,
{
    let l = t.ors[h as int].1;
    if k > 0 {
        lemma_some_is_list(t, h, (k - 1) as nat, a);
        assert(l.take(k as int).drop_last() =~= l.take(k - 1));
        assert(l.take(k as int).last() == l[k - 1]);
        assert(or_ok(t, h as int));
        let c = t.ors[h as int].0 as int;
        assert(respects(t, left_of(c), l[k - 1].prime));
        lemma_child_room(t, c, l[k - 1].prime);
        lemma_child_room(t, c, l[k - 1].sub);
    } else {
        assert(l.take(0).len() == 0);
    }
}

/// A decision node denotes what the list of its elements denotes.
pub proof fn lemma_node_is_list(t: SddTables, h: usize, a: Seq<bool>)
    requires
        tables_ok(t),
        h < t.ors.len(),
    ensures
        denotes(t, SddPtr::Reg(h), a) == list_holds(t, t.ors[h as int].1, a),
        denotes(t, SddPtr::Compl(h), a) == !list_holds(t, t.ors[h as int].1, a),
{
    let l = t.ors[h as int].1;
    lemma_some_is_list(t, h, l.len(), a);
    assert(l.take(l.len() as int) =~= l);
}

/// An edge of the tables denotes the same in tables that have grown.
pub proof fn lemma_grown_denotes(t: SddTables, u: SddTables, p: SddPtr, a: Seq<bool>)
    requires
        tables_ok(t),
        grown(t, u),
        ptr_ok(t, p),
    ensures
        denotes(u, p, a) == denotes(t, p, a),
        ptr_ok(u, p),
        place(u, p) == place(t, p),
    decreases room(t, p), width(t, p) + 1,
{
    match p {
        SddPtr::Reg(h) => {
            lemma_grown_some(t, u, h, t.ors[h as int].1.len(), a);
        },
        SddPtr::Compl(h) => {
            lemma_grown_some(t, u, h, t.ors[h as int].1.len(), a);
        },
        _ => {},
    }
}

/// The first elements of a node denote the same in tables that have grown.
proof fn lemma_grown_some(t: SddTables, u: SddTables, h: usize, k: nat, a: Seq<bool>)
    requires
        tables_ok(t),
        grown(t, u),
        h < t.ors.len(),
        k <= t.ors[h as int].1.len(),
    ensures
        some_element(u, h, k, a) == some_element(t, h, k, a),
    decreases room(t, SddPtr::Reg(h)), k,
{
    if k > 0 {
        let l = t.ors[h as int].1;
        let c = t.ors[h as int].0 as int;
        assert(u.ors[h as int] == t.ors[h as int]);
        assert(or_ok(t, h as int));
        lemma_grown_some(t, u, h, (k - 1) as nat, a);
        let e = l[k - 1];
        assert(respects(t, left_of(c), e.prime));
        lemma_child_room(t, c, e.prime);
        lemma_child_room(t, c, e.sub);
        lemma_grown_denotes(t, u, e.prime, a);
        lemma_grown_denotes(t, u, e.sub, a);
    }
}

/// Every edge of the list is valid.
pub open spec fn list_ok(t: SddTables, l: Seq<SddAnd>) -> bool {
    forall|k: int| 0 <= k < l.len() ==> ptr_ok(t, (#[trigger] l[k]).prime) && ptr_ok(t, l[k].sub)
}

/// A list of edges of the tables denotes the same, with as many true
/// primes, in tables that have grown.
pub proof fn lemma_grown_list(t: SddTables, u: SddTables, l: Seq<SddAnd>, a: Seq<bool>)
    requires
        tables_ok(t),
        grown(t, u),
        list_ok(t, l),
    ensures
        list_holds(u, l, a) == list_holds(t, l, a),
        prime_count(u, l, a) == prime_count(t, l, a),
    decreases l.len(),
{
    if l.len() > 0 {
        lemma_grown_list(t, u, l.drop_last(), a);
        assert(ptr_ok(t, l[l.len() - 1].prime));
        lemma_grown_denotes(t, u, l.last().prime, a);
        lemma_grown_denotes(t, u, l.last().sub, a);
    }
}

/// What a list with one more element at its end denotes, and how many of
/// its primes are true.
pub proof fn lemma_list_push(t: SddTables, l: Seq<SddAnd>, e: SddAnd, a: Seq<bool>)
    ensures
        list_holds(t, l.push(e), a) == (list_holds(t, l, a) || element_holds(t, e, a)),
        prime_count(t, l.push(e), a) == prime_count(t, l, a) + unit(denotes(t, e.prime, a)),
{
    assert(l.push(e).drop_last() =~= l);
}

/// What a list denotes in which one element is replaced, and how many of
/// its primes are true.
pub proof fn lemma_list_update(t: SddTables, l: Seq<SddAnd>, k: int, e: SddAnd, a: Seq<bool>)
    requires
        0 <= k < l.len(),
    ensures
        element_holds(t, e, a) ==> list_holds(t, l.update(k, e), a),
        list_holds(t, l.update(k, e), a) ==> list_holds(t, l, a) || element_holds(t, e, a),
        list_holds(t, l, a) ==> list_holds(t, l.update(k, e), a) || element_holds(t, l[k], a),
        prime_count(t, l.update(k, e), a) + unit(denotes(t, l[k].prime, a)) == prime_count(t, l, a)
            + unit(denotes(t, e.prime, a)),
    decreases l.len(),
{
    if k == l.len() - 1 {
        assert(l.update(k, e).drop_last() =~= l.drop_last());
    } else {
        lemma_list_update(t, l.drop_last(), k, e, a);
        assert(l.update(k, e).drop_last() =~= l.drop_last().update(k, e));
    }
}

/// What a list denotes into which one element is put, and how many of its
/// primes are true.
pub proof fn lemma_list_insert(t: SddTables, l: Seq<SddAnd>, k: int, e: SddAnd, a: Seq<bool>)
    requires
        0 <= k <= l.len(),
    ensures
        list_holds(t, l.insert(k, e), a) == (list_holds(t, l, a) || element_holds(t, e, a)),
        prime_count(t, l.insert(k, e), a) == prime_count(t, l, a) + unit(denotes(t, e.prime, a)),
    decreases l.len(),
{
    if k == l.len() {
        assert(l.insert(k, e) =~= l.push(e));
        lemma_list_push(t, l, e, a);
    } else {
        lemma_list_insert(t, l.drop_last(), k, e, a);
        assert(l.insert(k, e).drop_last() =~= l.drop_last().insert(k, e));
        assert(l.insert(k, e).last() == l.last());
    }
}

/// Where the prime of an element is true, one prime is counted at least,
/// and two if the prime of another element is true as well; the list holds
/// if the element does, and where just one prime is counted, only then.
pub proof fn lemma_count_of(t: SddTables, l: Seq<SddAnd>, i: int, a: Seq<bool>)
    requires
        0 <= i < l.len(),
        denotes(t, l[i].prime, a),
    ensures
        prime_count(t, l, a) >= 1,
        forall|j: int|
            0 <= j < l.len() && j != i && denotes(t, (#[trigger] l[j]).prime, a) ==> prime_count(
                t,
                l,
                a,
            ) >= 2,
        element_holds(t, l[i], a) ==> list_holds(t, l, a),
        prime_count(t, l, a) == 1 && list_holds(t, l, a) ==> element_holds(t, l[i], a),
    decreases l.len(),
{
    let m = l.drop_last();
    if i == l.len() - 1 {
        assert forall|j: int|
            0 <= j < l.len() && j != i && denotes(t, (#[trigger] l[j]).prime, a) implies prime_count(
            t,
            l,
            a,
        ) >= 2 by {
            lemma_count_of(t, m, j, a);
        }
        if prime_count(t, l, a) == 1 && list_holds(t, m, a) {
            lemma_holds_some(t, m, a);
            let j = choose|j: int| 0 <= j < m.len() && element_holds(t, m[j], a);
            lemma_count_of(t, m, j, a);
        }
    } else {
        lemma_count_of(t, m, i, a);
        assert forall|j: int|
            0 <= j < l.len() && j != i && denotes(t, (#[trigger] l[j]).prime, a) implies prime_count(
            t,
            l,
            a,
        ) >= 2 by {
            if j < m.len() {
                assert(m[j] == l[j]);
            }
        }
    }
}

/// A list that holds has an element that holds.
pub proof fn lemma_holds_some(t: SddTables, l: Seq<SddAnd>, a: Seq<bool>)
    requires
        list_holds(t, l, a),
    ensures
        exists|j: int| 0 <= j < l.len() && element_holds(t, #[trigger] l[j], a),
    decreases l.len(),
{
    if element_holds(t, l.last(), a) {
        assert(element_holds(t, l[l.len() - 1], a));
    } else {
        lemma_holds_some(t, l.drop_last(), a);
        let j = choose|j: int|
            0 <= j < l.drop_last().len() && element_holds(t, #[trigger] l.drop_last()[j], a);
        assert(l[j] == l.drop_last()[j]);
    }
}

/// A list of which a prime is counted has an element whose prime is true.
pub proof fn lemma_count_some(t: SddTables, l: Seq<SddAnd>, a: Seq<bool>)
    requires
        prime_count(t, l, a) >= 1,
    ensures
        exists|j: int| 0 <= j < l.len() && denotes(t, (#[trigger] l[j]).prime, a),
    decreases l.len(),
{
    if denotes(t, l.last().prime, a) {
        assert(denotes(t, l[l.len() - 1].prime, a));
    } else {
        lemma_count_some(t, l.drop_last(), a);
        let j = choose|j: int|
            0 <= j < l.drop_last().len() && denotes(t, (#[trigger] l.drop_last()[j]).prime, a);
        assert(l[j] == l.drop_last()[j]);
    }
}

/// A structured list is structured in tables that have grown, and each of
/// its edges is valid.
pub proof fn lemma_grown_structured(t: SddTables, u: SddTables, c: int, l: Seq<SddAnd>)
    requires
        tables_ok(t),
        grown(t, u),
        structured(t, c, l),
    ensures
        structured(u, c, l),
        list_ok(t, l),
{
    assert forall|k: int| 0 <= k < l.len() implies respects(u, left_of(c), (#[trigger] l[k]).prime)
        && respects(u, right_of(u.row, c), l[k].sub) && ptr_ok(t, l[k].prime) && ptr_ok(
        t,
        l[k].sub,
    ) by {
        assert(respects(t, left_of(c), l[k].prime));
        lemma_grown_denotes(t, u, l[k].prime, Seq::empty());
        lemma_grown_denotes(t, u, l[k].sub, Seq::empty());
    }
}

/// A partition of edges of the tables is one in tables that have grown.
pub proof fn lemma_grown_partition(t: SddTables, u: SddTables, l: Seq<SddAnd>)
    requires
        tables_ok(t),
        grown(t, u),
        list_ok(t, l),
        is_partition(t, l),
    ensures
        is_partition(u, l),
{
    assert forall|a: Seq<bool>| #[trigger] prime_count(u, l, a) == 1 by {
        lemma_grown_list(t, u, l, a);
        assert(prime_count(t, l, a) == 1);
    }
}

/// Tables stay as they should be when a decision node is added of which
/// holds what should hold of one.
pub proof fn lemma_push_ok(t: SddTables, u: SddTables, c: usize, l: Seq<SddAnd>)
    requires
        tables_ok(t),
        grown(t, u),
        u.ors == t.ors.push((c, l)),
        c < t.row.len(),
        !t.row[c as int].leaf,
        structured(t, c as int, l),
        compressed(l),
        trimmed(l),
        prime_sorted(l),
        !l[0].sub.is_negated(),
        is_partition(t, l),
    ensures
        tables_ok(u),
{
    assert forall|h: int| 0 <= h < u.ors.len() implies #[trigger] or_ok(u, h) by {
        if h < t.ors.len() {
            assert(or_ok(t, h));
            assert(u.ors[h] == t.ors[h]);
        }
        let (d, m) = u.ors[h];
        lemma_grown_structured(t, u, d as int, m);
        lemma_grown_partition(t, u, m);
    }
}

/// The order of the edges: of two different edges one comes before the
/// other, and what comes before an edge comes before what comes after it.
pub proof fn lemma_key_order(p: SddPtr, q: SddPtr, r: SddPtr)
    ensures
        p != q ==> key_before(p, q) || key_before(q, p),
        !(key_before(p, q) && key_before(q, p)),
        key_before(p, q) && !key_before(r, q) ==> key_before(p, r),
        !key_before(q, p) && key_before(q, r) ==> key_before(p, r),
        !key_before(q, p) && !key_before(r, q) ==> !key_before(r, p),
{
}

/// The list with each sub negated.
pub open spec fn negated_subs(l: Seq<SddAnd>) -> Seq<SddAnd> {
    Seq::new(l.len(), |k: int| SddAnd { prime: l[k].prime, sub: l[k].sub.negated() })
}

/// No sub of the list is an edge to a binary node.
pub open spec fn subs_plain(l: Seq<SddAnd>) -> bool {
    forall|k: int| 0 <= k < l.len() ==> !((#[trigger] l[k]).sub is BDD)
}

/// Where one prime is true, the list with the subs negated denotes the
/// negation; it has as many true primes as the list.
pub proof fn lemma_negated_subs(t: SddTables, l: Seq<SddAnd>, a: Seq<bool>)
    requires
        subs_plain(l),
    ensures
        prime_count(t, negated_subs(l), a) == prime_count(t, l, a),
        prime_count(t, l, a) == 0 ==> !list_holds(t, l, a) && !list_holds(t, negated_subs(l), a),
        prime_count(t, l, a) == 1 ==> list_holds(t, negated_subs(l), a) == !list_holds(t, l, a),
    decreases l.len(),
{
    if l.len() > 0 {
        let m = l.drop_last();
        lemma_negated_subs(t, m, a);
        assert(negated_subs(l).drop_last() =~= negated_subs(m));
        assert(!(l[l.len() - 1].sub is BDD));
        lemma_negated(t, l.last().sub, a);
    }
}

/// What holds of a list holds of the list with each sub negated, which
/// denotes the negation.
pub proof fn lemma_negated_list(t: SddTables, c: int, l: Seq<SddAnd>)
    requires
        structured(t, c, l),
        compressed(l),
        trimmed(l),
        prime_sorted(l),
        is_partition(t, l),
    ensures
        structured(t, c, negated_subs(l)),
        compressed(negated_subs(l)),
        trimmed(negated_subs(l)),
        prime_sorted(negated_subs(l)),
        is_partition(t, negated_subs(l)),
        negated_subs(l)[0].sub.is_negated() == !l[0].sub.is_negated(),
        forall|a: Seq<bool>| #[trigger]
            list_holds(t, negated_subs(l), a) == !list_holds(t, l, a),
{
    let n = negated_subs(l);
    assert forall|k: int| 0 <= k < l.len() implies !((#[trigger] l[k]).sub is BDD) by {
        assert(respects(t, right_of(t.row, c), l[k].sub));
    }
    assert forall|k: int| 0 <= k < n.len() implies respects(t, left_of(c), (#[trigger] n[k]).prime)
        && respects(t, right_of(t.row, c), n[k].sub) by {
        assert(respects(t, left_of(c), l[k].prime));
        lemma_negated(t, l[k].sub, Seq::empty());
    }
    assert forall|i: int, j: int| 0 <= i < j < n.len() implies (#[trigger] n[i]).sub != (
    #[trigger] n[j]).sub by {
        assert(l[i].sub != l[j].sub);
        lemma_negated(t, l[i].sub, Seq::empty());
        lemma_negated(t, l[j].sub, Seq::empty());
    }
    assert forall|i: int, j: int| 0 <= i < j < n.len() implies !key_before(
        (#[trigger] n[j]).prime,
        (#[trigger] n[i]).prime,
    ) by {
        assert(!key_before(l[j].prime, l[i].prime));
    }
    lemma_negated(t, l[0].sub, Seq::empty());
    assert forall|a: Seq<bool>| #[trigger] prime_count(t, n, a) == 1 by {
        lemma_negated_subs(t, l, a);
        assert(prime_count(t, l, a) == 1);
    }
    assert forall|a: Seq<bool>| #[trigger] list_holds(t, n, a) == !list_holds(t, l, a) by {
        lemma_negated_subs(t, l, a);
        assert(prime_count(t, l, a) == 1);
    }
}

} // verus!
