//! Reduced ordered binary decision diagrams with complemented edges: what
//! an edge denotes, what makes a table of nodes a diagram in canonical
//! form, and why two edges of such a table that denote the same function
//! are the same edge.

use crate::repr::bdd::{BddNode, BddPtr};
use crate::repr::cnf::{clause_holds, literal_holds};
use crate::repr::force::is_ranking;
use crate::repr::var_label::Literal;
use vstd::prelude::*;

verus! {

/// The value of the function of an edge under the total assignment `a`.
pub open spec fn denotes(nodes: Seq<BddNode>, ptr: BddPtr, a: Seq<bool>) -> bool
    decreases ptr.rank(), (if ptr is Compl { 1nat } else { 0nat }),
{
    match ptr {
        BddPtr::PtrTrue => true,
        BddPtr::PtrFalse => false,
        BddPtr::Reg(n) => {
            if n < nodes.len() && nodes[n as int].low.rank() <= n && nodes[n as int].high.rank()
                <= n {
                let node = nodes[n as int];
                if a[node.var.0 as int] {
                    denotes(nodes, node.high, a)
                } else {
                    denotes(nodes, node.low, a)
                }
            } else {
                false
            }
        },
        BddPtr::Compl(n) => !denotes(nodes, BddPtr::Reg(n), a),
    }
}

/// The edge leads into the table.
pub open spec fn valid(nodes: Seq<BddNode>, ptr: BddPtr) -> bool {
    ptr.rank() <= nodes.len()
}

/// The place in the order of the variable that the edge tests first; the
/// number of variables for a constant.
pub open spec fn level(nodes: Seq<BddNode>, pos: Seq<usize>, ptr: BddPtr) -> int {
    match ptr {
        BddPtr::PtrTrue => pos.len() as int,
        BddPtr::PtrFalse => pos.len() as int,
        BddPtr::Reg(n) => pos[nodes[n as int].var.0 as int] as int,
        BddPtr::Compl(n) => pos[nodes[n as int].var.0 as int] as int,
    }
}

/// The node is one of an ordered diagram over the nodes before it: its
/// variable comes before those of its children in the order.
pub open spec fn node_ordered(nodes: Seq<BddNode>, pos: Seq<usize>, node: BddNode, i: int) -> bool {
    &&& node.low.rank() <= i
    &&& node.high.rank() <= i
    &&& node.var.0 < pos.len()
    &&& pos[node.var.0 as int] < level(nodes, pos, node.low)
    &&& pos[node.var.0 as int] < level(nodes, pos, node.high)
}

/// The table is an ordered diagram: on every path the variables come in the
/// order of their places.
pub open spec fn ordered_ok(nodes: Seq<BddNode>, pos: Seq<usize>) -> bool {
    &&& is_ranking(pos)
    &&& forall|i: int| 0 <= i < nodes.len() ==> #[trigger] node_ordered(nodes, pos, nodes[i], i)
}

/// The node is one of a diagram in canonical form over the nodes before
/// it: its variable comes before those of its children in the order, its
/// children differ, and the edge to its high child is not complemented.
pub open spec fn node_ok(nodes: Seq<BddNode>, pos: Seq<usize>, node: BddNode, i: int) -> bool {
    &&& node_ordered(nodes, pos, node, i)
    &&& node.low != node.high
    &&& !node.high.is_negated()
}

/// The table is a diagram in canonical form: ordered, reduced, with no
/// complemented high edge, and with no node twice.
pub open spec fn robdd_ok(nodes: Seq<BddNode>, pos: Seq<usize>) -> bool {
    &&& is_ranking(pos)
    &&& forall|i: int| 0 <= i < nodes.len() ==> #[trigger] node_ok(nodes, pos, nodes[i], i)
    &&& forall|i: int, j: int|
        0 <= i < j < nodes.len() ==> #[trigger] nodes[i] != #[trigger] nodes[j]
}

/// A diagram in canonical form is ordered.
pub proof fn lemma_robdd_ordered(nodes: Seq<BddNode>, pos: Seq<usize>)
    requires
        robdd_ok(nodes, pos),
    ensures
        ordered_ok(nodes, pos),
{
    assert forall|i: int| 0 <= i < nodes.len() implies #[trigger] node_ordered(
        nodes,
        pos,
        nodes[i],
        i,
    ) by {
        assert(node_ok(nodes, pos, nodes[i], i));
    }
}

/// What an edge denotes stays what it is when nodes are added to the
/// table.
pub proof fn lemma_denotes_grows(
    nodes: Seq<BddNode>,
    more: Seq<BddNode>,
    ptr: BddPtr,
    a: Seq<bool>,
)
    requires
        nodes.len() <= more.len(),
        forall|i: int| 0 <= i < nodes.len() ==> #[trigger] more[i] == nodes[i],
        valid(nodes, ptr),
    ensures
        denotes(more, ptr, a) == denotes(nodes, ptr, a),
    decreases ptr.rank(), (if ptr is Compl { 1nat } else { 0nat }),
{
    match ptr {
        BddPtr::PtrTrue => {},
        BddPtr::PtrFalse => {},
        BddPtr::Reg(n) => {
            assert(more[n as int] == nodes[n as int]);
            if nodes[n as int].low.rank() <= n && nodes[n as int].high.rank() <= n {
                lemma_denotes_grows(nodes, more, nodes[n as int].low, a);
                lemma_denotes_grows(nodes, more, nodes[n as int].high, a);
            }
        },
        BddPtr::Compl(n) => {
            lemma_denotes_grows(nodes, more, BddPtr::Reg(n), a);
        },
    }
}

/// The negation of an edge denotes the negation of what the edge denotes.
pub proof fn lemma_denotes_negated(nodes: Seq<BddNode>, ptr: BddPtr, a: Seq<bool>)
    ensures
        denotes(nodes, ptr.negated(), a) == !denotes(nodes, ptr, a),
        ptr.negated().negated() == ptr,
        ptr.negated().rank() == ptr.rank(),
{
}

/// What an edge denotes does not depend on the variables whose places
/// come before the level of the edge.
pub proof fn lemma_denotes_independent(
    nodes: Seq<BddNode>,
    pos: Seq<usize>,
    ptr: BddPtr,
    a: Seq<bool>,
    b: Seq<bool>,
)
    requires
        robdd_ok(nodes, pos),
        valid(nodes, ptr),
        a.len() == pos.len(),
        b.len() == pos.len(),
        forall|v: int|
            0 <= v < pos.len() && #[trigger] pos[v] >= level(nodes, pos, ptr) ==> a[v] == b[v],
    ensures
        denotes(nodes, ptr, a) == denotes(nodes, ptr, b),
    decreases ptr.rank(), (if ptr is Compl { 1nat } else { 0nat }),
{
    match ptr {
        BddPtr::PtrTrue => {},
        BddPtr::PtrFalse => {},
        BddPtr::Reg(n) => {
            let node = nodes[n as int];
            assert(node_ok(nodes, pos, node, n as int));
            let v = node.var.0 as int;
            assert(pos[v] >= level(nodes, pos, ptr));
            assert(a[v] == b[v]);
            lemma_denotes_independent(nodes, pos, node.low, a, b);
            lemma_denotes_independent(nodes, pos, node.high, a, b);
        },
        BddPtr::Compl(n) => {
            lemma_denotes_independent(nodes, pos, BddPtr::Reg(n), a, b);
        },
    }
}

/// The two edges denote the same function of `n` variables.
#[verifier::opaque]
pub open spec fn same_function(nodes: Seq<BddNode>, n: nat, p: BddPtr, q: BddPtr) -> bool {
    forall|a: Seq<bool>| a.len() == n ==> #[trigger] denotes(nodes, p, a) == denotes(nodes, q, a)
}

/// Edges that denote the same function have the same value under every
/// assignment.
pub proof fn lemma_same_function_at(
    nodes: Seq<BddNode>,
    n: nat,
    p: BddPtr,
    q: BddPtr,
    a: Seq<bool>,
)
    requires
        same_function(nodes, n, p, q),
        a.len() == n,
    ensures
        denotes(nodes, p, a) == denotes(nodes, q, a),
{
    reveal(same_function);
}

/// The greater of the ranks of two edges.
pub open spec fn max_rank(p: BddPtr, q: BddPtr) -> nat {
    if p.rank() >= q.rank() {
        p.rank()
    } else {
        q.rank()
    }
}

/// The edge leads to a node.
pub open spec fn to_node(nodes: Seq<BddNode>, p: BddPtr) -> bool {
    1 <= p.rank() <= nodes.len()
}

/// The node that the edge leads to.
pub open spec fn node_of(nodes: Seq<BddNode>, p: BddPtr) -> BddNode {
    nodes[p.rank() - 1]
}

/// Under an assignment that gives the variable of a node the value `b`, an
/// edge to the node has the value of the child for `b`, negated if the edge
/// is complemented.
pub proof fn lemma_edge_cofactor(
    nodes: Seq<BddNode>,
    pos: Seq<usize>,
    p: BddPtr,
    a: Seq<bool>,
    b: bool,
)
    requires
        robdd_ok(nodes, pos),
        to_node(nodes, p),
        a.len() == pos.len(),
    ensures
        denotes(nodes, p, a.update(node_of(nodes, p).var.0 as int, b)) == (denotes(
            nodes,
            if b {
                node_of(nodes, p).high
            } else {
                node_of(nodes, p).low
            },
            a,
        ) != (p is Compl)),
{
    let i = (p.rank() - 1) as int;
    let node = nodes[i];
    let x = node.var.0 as int;
    assert(node_ok(nodes, pos, node, i));
    assert(p == BddPtr::Reg(i as usize) || p == BddPtr::Compl(i as usize));
    let ab = a.update(x, b);
    if b {
        lemma_denotes_independent(nodes, pos, node.high, a, ab);
    } else {
        lemma_denotes_independent(nodes, pos, node.low, a, ab);
    }
    assert(denotes(nodes, BddPtr::Reg(i as usize), ab) == denotes(
        nodes,
        if b {
            node.high
        } else {
            node.low
        },
        ab,
    ));
}

/// What a node denotes depends on its variable: there is an assignment
/// under which each edge to the node has one value with the variable true
/// and the other with the variable false.
pub proof fn lemma_node_depends(nodes: Seq<BddNode>, pos: Seq<usize>, p: BddPtr) -> (a: Seq<bool>)
    requires
        robdd_ok(nodes, pos),
        to_node(nodes, p),
    ensures
        a.len() == pos.len(),
        denotes(nodes, p, a.update(node_of(nodes, p).var.0 as int, true)) != denotes(
            nodes,
            p,
            a.update(node_of(nodes, p).var.0 as int, false),
        ),
    decreases p.rank(), 0nat,
{
    let i = (p.rank() - 1) as int;
    let node = nodes[i];
    let n = pos.len();
    assert(node_ok(nodes, pos, node, i));
    if same_function(nodes, n, node.low, node.high) {
        lemma_canonical(nodes, pos, node.low, node.high);
    }
    let a = lemma_differ(nodes, n, node.low, node.high);
    lemma_edge_cofactor(nodes, pos, p, a, true);
    lemma_edge_cofactor(nodes, pos, p, a, false);
    a
}

/// Edges that do not denote the same function differ under some
/// assignment.
pub proof fn lemma_differ(nodes: Seq<BddNode>, n: nat, p: BddPtr, q: BddPtr) -> (a: Seq<bool>)
    requires
        !same_function(nodes, n, p, q),
    ensures
        a.len() == n,
        denotes(nodes, p, a) != denotes(nodes, q, a),
{
    reveal(same_function);
    choose|a: Seq<bool>| a.len() == n && #[trigger] denotes(nodes, p, a) != denotes(nodes, q, a)
}

/// An edge whose level comes first denotes another function than an edge
/// of a later level.
pub proof fn lemma_earlier_level_differs(
    nodes: Seq<BddNode>,
    pos: Seq<usize>,
    p: BddPtr,
    q: BddPtr,
)
    requires
        robdd_ok(nodes, pos),
        valid(nodes, p),
        valid(nodes, q),
        level(nodes, pos, p) < level(nodes, pos, q),
    ensures
        !same_function(nodes, pos.len(), p, q),
        !same_function(nodes, pos.len(), q, p),
        to_node(nodes, p),
    decreases p.rank(), 1nat,
{
    assert(to_node(nodes, p)) by {
        if q.rank() >= 1 {
            assert(node_ok(nodes, pos, nodes[q.rank() - 1], q.rank() - 1));
        }
    }
    let x = node_of(nodes, p).var.0 as int;
    let a = lemma_node_depends(nodes, pos, p);
    let a1 = a.update(x, true);
    let a2 = a.update(x, false);
    assert(node_ok(nodes, pos, node_of(nodes, p), p.rank() - 1));
    lemma_denotes_independent(nodes, pos, q, a1, a2);
    if same_function(nodes, pos.len(), p, q) {
        lemma_same_function_at(nodes, pos.len(), p, q, a1);
        lemma_same_function_at(nodes, pos.len(), p, q, a2);
    }
    if same_function(nodes, pos.len(), q, p) {
        lemma_same_function_at(nodes, pos.len(), q, p, a1);
        lemma_same_function_at(nodes, pos.len(), q, p, a2);
    }
}

/// Two edges to nodes of one variable that denote the same function are
/// both complemented or both not, and the children of the nodes denote the
/// same functions.
pub proof fn lemma_children_same(nodes: Seq<BddNode>, pos: Seq<usize>, p: BddPtr, q: BddPtr)
    requires
        robdd_ok(nodes, pos),
        to_node(nodes, p),
        to_node(nodes, q),
        node_of(nodes, p).var == node_of(nodes, q).var,
        same_function(nodes, pos.len(), p, q),
    ensures
        (p is Compl) == (q is Compl) ==> same_function(
            nodes,
            pos.len(),
            node_of(nodes, p).high,
            node_of(nodes, q).high,
        ) && same_function(nodes, pos.len(), node_of(nodes, p).low, node_of(nodes, q).low),
        (p is Compl) != (q is Compl) ==> same_function(
            nodes,
            pos.len(),
            node_of(nodes, p).high,
            node_of(nodes, q).high.negated(),
        ),
{
    let n = pos.len();
    let np = node_of(nodes, p);
    let nq = node_of(nodes, q);
    let x = np.var.0 as int;
    assert(node_ok(nodes, pos, np, p.rank() - 1));
    assert forall|a: Seq<bool>| a.len() == n implies (denotes(nodes, np.high, a) != (p is Compl))
        == (denotes(nodes, nq.high, a) != (q is Compl)) && (denotes(nodes, np.low, a) != (
    p is Compl)) == (denotes(nodes, nq.low, a) != (q is Compl)) by {
        lemma_edge_cofactor(nodes, pos, p, a, true);
        lemma_edge_cofactor(nodes, pos, q, a, true);
        lemma_same_function_at(nodes, n, p, q, a.update(x, true));
        lemma_edge_cofactor(nodes, pos, p, a, false);
        lemma_edge_cofactor(nodes, pos, q, a, false);
        lemma_same_function_at(nodes, n, p, q, a.update(x, false));
    }
    reveal(same_function);
    if (p is Compl) == (q is Compl) {
        assert forall|a: Seq<bool>| a.len() == n implies #[trigger] denotes(nodes, np.high, a)
            == denotes(nodes, nq.high, a) by {
            assert((denotes(nodes, np.high, a) != (p is Compl)) == (denotes(nodes, nq.high, a) != (
            q is Compl)));
        }
        assert forall|a: Seq<bool>| a.len() == n implies #[trigger] denotes(nodes, np.low, a)
            == denotes(nodes, nq.low, a) by {
            assert((denotes(nodes, np.low, a) != (p is Compl)) == (denotes(nodes, nq.low, a) != (
            q is Compl)));
        }
    } else {
        assert forall|a: Seq<bool>| a.len() == n implies #[trigger] denotes(nodes, np.high, a)
            == denotes(nodes, nq.high.negated(), a) by {
            lemma_denotes_negated(nodes, nq.high, a);
            assert((denotes(nodes, np.high, a) != (p is Compl)) == (denotes(nodes, nq.high, a) != (
            q is Compl)));
        }
    }
}

/// Canonicity: in a diagram in canonical form, two edges that denote the
/// same function are the same edge.
pub proof fn lemma_canonical(nodes: Seq<BddNode>, pos: Seq<usize>, p: BddPtr, q: BddPtr)
    requires
        robdd_ok(nodes, pos),
        valid(nodes, p),
        valid(nodes, q),
        same_function(nodes, pos.len(), p, q),
    ensures
        p == q,
    decreases max_rank(p, q), 2nat,
{
    let n = pos.len();
    if p.rank() == 0 && q.rank() == 0 {
        let zeros = Seq::new(n, |v: int| false);
        lemma_same_function_at(nodes, n, p, q, zeros);
    } else if level(nodes, pos, p) < level(nodes, pos, q) {
        lemma_earlier_level_differs(nodes, pos, p, q);
    } else if level(nodes, pos, q) < level(nodes, pos, p) {
        lemma_earlier_level_differs(nodes, pos, q, p);
    } else {
        // both edges lead to nodes, and the nodes test the same variable
        if p.rank() == 0 {
            assert(node_ok(nodes, pos, node_of(nodes, q), q.rank() - 1));
        }
        if q.rank() == 0 {
            assert(node_ok(nodes, pos, node_of(nodes, p), p.rank() - 1));
        }
        let i = (p.rank() - 1) as int;
        let j = (q.rank() - 1) as int;
        let np = nodes[i];
        let nq = nodes[j];
        assert(node_ok(nodes, pos, np, i));
        assert(node_ok(nodes, pos, nq, j));
        let x = np.var.0 as int;
        let y = nq.var.0 as int;
        if x < y {
            assert(pos[x] != pos[y]);
        } else if y < x {
            assert(pos[y] != pos[x]);
        }
        assert(np.var == nq.var);
        lemma_children_same(nodes, pos, p, q);
        if (p is Compl) != (q is Compl) {
            lemma_canonical(nodes, pos, np.high, nq.high.negated());
        } else {
            lemma_canonical(nodes, pos, np.high, nq.high);
            lemma_canonical(nodes, pos, np.low, nq.low);
            assert(np == nq);
            if i < j {
                assert(nodes[i] != nodes[j]);
            } else if j < i {
                assert(nodes[j] != nodes[i]);
            }
        }
    }
}

/// The table `more` begins with the nodes of `nodes`.
pub open spec fn is_prefix(nodes: Seq<BddNode>, more: Seq<BddNode>) -> bool {
    &&& nodes.len() <= more.len()
    &&& forall|i: int| 0 <= i < nodes.len() ==> #[trigger] more[i] == nodes[i]
}

/// The edge `r` denotes the function that is `hi` where the variable `x`
/// is true and `lo` where it is false.
#[verifier::opaque]
pub open spec fn is_branch(
    nodes: Seq<BddNode>,
    n: nat,
    x: int,
    lo: BddPtr,
    hi: BddPtr,
    r: BddPtr,
) -> bool {
    forall|a: Seq<bool>|
        a.len() == n ==> #[trigger] denotes(nodes, r, a) == (if a[x] {
            denotes(nodes, hi, a)
        } else {
            denotes(nodes, lo, a)
        })
}

/// The edge `r` denotes the function that is `g` where `f` is true and `h`
/// where `f` is false.
#[verifier::opaque]
pub open spec fn is_ite(
    nodes: Seq<BddNode>,
    n: nat,
    f: BddPtr,
    g: BddPtr,
    h: BddPtr,
    r: BddPtr,
) -> bool {
    forall|a: Seq<bool>|
        a.len() == n ==> #[trigger] denotes(nodes, r, a) == (if denotes(nodes, f, a) {
            denotes(nodes, g, a)
        } else {
            denotes(nodes, h, a)
        })
}

/// The edge `r` denotes the function of `f` with the variable `x` fixed to
/// the value `b`.
#[verifier::opaque]
pub open spec fn is_restriction(
    nodes: Seq<BddNode>,
    n: nat,
    f: BddPtr,
    x: int,
    b: bool,
    r: BddPtr,
) -> bool {
    forall|a: Seq<bool>|
        a.len() == n ==> #[trigger] denotes(nodes, r, a) == denotes(nodes, f, a.update(x, b))
}

/// The least of the levels of three edges.
pub open spec fn min_level(
    nodes: Seq<BddNode>,
    pos: Seq<usize>,
    f: BddPtr,
    g: BddPtr,
    h: BddPtr,
) -> int {
    let lf = level(nodes, pos, f);
    let lg = level(nodes, pos, g);
    let lh = level(nodes, pos, h);
    if lf <= lg && lf <= lh {
        lf
    } else if lg <= lh {
        lg
    } else {
        lh
    }
}

/// The level of an edge into a table is its level in every table that the
/// table is the beginning of.
pub proof fn lemma_level_grows(
    nodes: Seq<BddNode>,
    more: Seq<BddNode>,
    pos: Seq<usize>,
    ptr: BddPtr,
)
    requires
        is_prefix(nodes, more),
        valid(nodes, ptr),
    ensures
        level(more, pos, ptr) == level(nodes, pos, ptr),
        valid(more, ptr),
{
}

/// A diagram in canonical form stays one when a node is added that fits
/// behind the others and differs from them.
pub proof fn lemma_push_node(nodes: Seq<BddNode>, pos: Seq<usize>, node: BddNode)
    requires
        robdd_ok(nodes, pos),
        node_ok(nodes, pos, node, nodes.len() as int),
        forall|i: int| 0 <= i < nodes.len() ==> #[trigger] nodes[i] != node,
    ensures
        robdd_ok(nodes.push(node), pos),
        is_prefix(nodes, nodes.push(node)),
{
    let more = nodes.push(node);
    assert forall|i: int| 0 <= i < more.len() implies #[trigger] node_ok(more, pos, more[i], i) by {
        if i < nodes.len() {
            assert(node_ok(nodes, pos, nodes[i], i));
        }
        lemma_level_grows(nodes, more, pos, more[i].low);
        lemma_level_grows(nodes, more, pos, more[i].high);
    }
}

/// What holds of edges of a table holds of them in every table that the
/// table is the beginning of.
pub proof fn lemma_relations_grow(
    nodes: Seq<BddNode>,
    more: Seq<BddNode>,
    n: nat,
    f: BddPtr,
    g: BddPtr,
    h: BddPtr,
    r: BddPtr,
    x: int,
    b: bool,
)
    requires
        is_prefix(nodes, more),
        valid(nodes, f),
        valid(nodes, g),
        valid(nodes, h),
        valid(nodes, r),
    ensures
        is_ite(nodes, n, f, g, h, r) ==> is_ite(more, n, f, g, h, r),
        is_branch(nodes, n, x, f, g, r) ==> is_branch(more, n, x, f, g, r),
        is_restriction(nodes, n, f, x, b, r) ==> is_restriction(more, n, f, x, b, r),
        same_function(nodes, n, f, g) ==> same_function(more, n, f, g),
{
    reveal(is_ite);
    reveal(is_branch);
    reveal(is_restriction);
    reveal(same_function);
    assert forall|a: Seq<bool>|
        #![trigger denotes(more, r, a)]
        #![trigger denotes(more, f, a)]
        a.len() == n implies denotes(more, r, a) == denotes(nodes, r, a) && denotes(more, f, a)
        == denotes(nodes, f, a) && denotes(more, g, a) == denotes(nodes, g, a) && denotes(
        more,
        h,
        a,
    ) == denotes(nodes, h, a) && denotes(more, f, a.update(x, b)) == denotes(
        nodes,
        f,
        a.update(x, b),
    ) by {
        lemma_denotes_grows(nodes, more, r, a);
        lemma_denotes_grows(nodes, more, f, a);
        lemma_denotes_grows(nodes, more, g, a);
        lemma_denotes_grows(nodes, more, h, a);
        lemma_denotes_grows(nodes, more, f, a.update(x, b));
    }
}

/// An edge to a node denotes the branch on the variable of the node
/// between the children of the node, and a complemented edge to it the
/// branch between their negations.
pub proof fn lemma_node_branch(nodes: Seq<BddNode>, n: nat, i: usize, lo: BddPtr, hi: BddPtr)
    requires
        i < nodes.len(),
        nodes[i as int].low.rank() <= i,
        nodes[i as int].high.rank() <= i,
        (nodes[i as int].low == lo && nodes[i as int].high == hi) || (nodes[i as int].low
            == lo.negated() && nodes[i as int].high == hi.negated()),
    ensures
        nodes[i as int].low == lo && nodes[i as int].high == hi ==> is_branch(
            nodes,
            n,
            nodes[i as int].var.0 as int,
            lo,
            hi,
            BddPtr::Reg(i),
        ),
        nodes[i as int].low == lo.negated() && nodes[i as int].high == hi.negated() ==> is_branch(
            nodes,
            n,
            nodes[i as int].var.0 as int,
            lo,
            hi,
            BddPtr::Compl(i),
        ),
{
    reveal(is_branch);
    let x = nodes[i as int].var.0 as int;
    if nodes[i as int].low == lo && nodes[i as int].high == hi {
        assert forall|a: Seq<bool>| a.len() == n implies #[trigger] denotes(
            nodes,
            BddPtr::Reg(i),
            a,
        ) == (if a[x] {
            denotes(nodes, hi, a)
        } else {
            denotes(nodes, lo, a)
        }) by {}
    }
    if nodes[i as int].low == lo.negated() && nodes[i as int].high == hi.negated() {
        assert forall|a: Seq<bool>| a.len() == n implies #[trigger] denotes(
            nodes,
            BddPtr::Compl(i),
            a,
        ) == (if a[x] {
            denotes(nodes, hi, a)
        } else {
            denotes(nodes, lo, a)
        }) by {
            lemma_denotes_negated(nodes, lo, a);
            lemma_denotes_negated(nodes, hi, a);
            assert(denotes(nodes, BddPtr::Compl(i), a) == !denotes(nodes, BddPtr::Reg(i), a));
        }
    }
}

/// The value of the if-then-else of three edges under an assignment.
pub open spec fn ite_value(nodes: Seq<BddNode>, f: BddPtr, g: BddPtr, h: BddPtr, a: Seq<bool>) -> bool {
    if denotes(nodes, f, a) {
        denotes(nodes, g, a)
    } else {
        denotes(nodes, h, a)
    }
}

/// The if-then-else of `f2`, `g2` and `h2`, negated if `neg` is set, is the
/// if-then-else of `f`, `g` and `h`, in every table.
#[verifier::opaque]
pub open spec fn same_ite(
    f: BddPtr,
    g: BddPtr,
    h: BddPtr,
    f2: BddPtr,
    g2: BddPtr,
    h2: BddPtr,
    neg: bool,
) -> bool {
    forall|nodes: Seq<BddNode>, a: Seq<bool>|
        ite_value(nodes, f, g, h, a) == (#[trigger] ite_value(nodes, f2, g2, h2, a) != neg)
}

/// Rewriting the operands of an if-then-else in one of the ways that leave
/// its function as it is, or negate it.
pub proof fn lemma_ite_rewrites(f: BddPtr, g: BddPtr, h: BddPtr)
    ensures
        same_ite(f, g, h, f, g, h, false),
        same_ite(f, f, h, f, BddPtr::PtrTrue, h, false),
        same_ite(f, f.negated(), h, f, BddPtr::PtrFalse, h, false),
        same_ite(f, g, f, f, g, BddPtr::PtrFalse, false),
        same_ite(f, g, f.negated(), f, g, BddPtr::PtrTrue, false),
        same_ite(f, BddPtr::PtrTrue, h, h, BddPtr::PtrTrue, f, false),
        same_ite(f, g, BddPtr::PtrFalse, g, f, BddPtr::PtrFalse, false),
        same_ite(f, g, h, f.negated(), h, g, false),
        same_ite(f, g, h, f, g.negated(), h.negated(), true),
{
    reveal(same_ite);
    assert forall|nodes: Seq<BddNode>, a: Seq<bool>|
        #![trigger denotes(nodes, f, a)]
        denotes(nodes, f.negated(), a) == !denotes(nodes, f, a) && denotes(nodes, g.negated(), a)
            == !denotes(nodes, g, a) && denotes(nodes, h.negated(), a) == !denotes(nodes, h, a) by {
        lemma_denotes_negated(nodes, f, a);
        lemma_denotes_negated(nodes, g, a);
        lemma_denotes_negated(nodes, h, a);
    }
    assert forall|nodes: Seq<BddNode>, a: Seq<bool>|
        ite_value(nodes, f, g, h, a) == (#[trigger] ite_value(
            nodes,
            f,
            g.negated(),
            h.negated(),
            a,
        ) != true) by {
        assert(denotes(nodes, f, a) == denotes(nodes, f, a));
    }
    assert forall|nodes: Seq<BddNode>, a: Seq<bool>|
        ite_value(nodes, f, g, h, a) == (#[trigger] ite_value(nodes, f.negated(), h, g, a)
            != false) by {
        assert(denotes(nodes, f, a) == denotes(nodes, f, a));
    }
    assert forall|nodes: Seq<BddNode>, a: Seq<bool>|
        ite_value(nodes, f, f.negated(), h, a) == (#[trigger] ite_value(
            nodes,
            f,
            BddPtr::PtrFalse,
            h,
            a,
        ) != false) by {
        assert(denotes(nodes, f, a) == denotes(nodes, f, a));
    }
    assert forall|nodes: Seq<BddNode>, a: Seq<bool>|
        ite_value(nodes, f, g, f.negated(), a) == (#[trigger] ite_value(
            nodes,
            f,
            g,
            BddPtr::PtrTrue,
            a,
        ) != false) by {
        assert(denotes(nodes, f, a) == denotes(nodes, f, a));
    }
}

/// Rewritings follow one on the other.
pub proof fn lemma_same_ite_chain(
    f: BddPtr,
    g: BddPtr,
    h: BddPtr,
    f2: BddPtr,
    g2: BddPtr,
    h2: BddPtr,
    neg2: bool,
    f3: BddPtr,
    g3: BddPtr,
    h3: BddPtr,
    neg3: bool,
)
    requires
        same_ite(f, g, h, f2, g2, h2, neg2),
        same_ite(f2, g2, h2, f3, g3, h3, neg3),
    ensures
        same_ite(f, g, h, f3, g3, h3, neg2 != neg3),
{
    reveal(same_ite);
    assert forall|nodes: Seq<BddNode>, a: Seq<bool>|
        ite_value(nodes, f, g, h, a) == (#[trigger] ite_value(nodes, f3, g3, h3, a) != (neg2
            != neg3)) by {
        assert(ite_value(nodes, f, g, h, a) == (ite_value(nodes, f2, g2, h2, a) != neg2));
        assert(ite_value(nodes, f2, g2, h2, a) == (ite_value(nodes, f3, g3, h3, a) != neg3));
    }
}

/// An edge for a rewritten if-then-else, negated if the rewriting asks for
/// it, is an edge for the if-then-else.
pub proof fn lemma_same_ite_result(
    nodes: Seq<BddNode>,
    n: nat,
    f: BddPtr,
    g: BddPtr,
    h: BddPtr,
    f2: BddPtr,
    g2: BddPtr,
    h2: BddPtr,
    neg: bool,
    r2: BddPtr,
)
    requires
        same_ite(f, g, h, f2, g2, h2, neg),
        is_ite(nodes, n, f2, g2, h2, r2),
    ensures
        is_ite(nodes, n, f, g, h, if neg {
            r2.negated()
        } else {
            r2
        }),
{
    reveal(is_ite);
    reveal(same_ite);
    let r = if neg {
        r2.negated()
    } else {
        r2
    };
    assert forall|a: Seq<bool>| a.len() == n implies #[trigger] denotes(nodes, r, a) == ite_value(
        nodes,
        f,
        g,
        h,
        a,
    ) by {
        lemma_denotes_negated(nodes, r2, a);
        assert(ite_value(nodes, f, g, h, a) == (ite_value(nodes, f2, g2, h2, a) != neg));
        assert(denotes(nodes, r2, a) == ite_value(nodes, f2, g2, h2, a));
    }
}

/// The edges for the two branches of an if-then-else on a variable make an
/// edge for the if-then-else.
pub proof fn lemma_ite_combine(
    nodes: Seq<BddNode>,
    n: nat,
    x: int,
    f: (BddPtr, BddPtr, BddPtr),
    g: (BddPtr, BddPtr, BddPtr),
    h: (BddPtr, BddPtr, BddPtr),
    e: BddPtr,
    t: BddPtr,
    r: BddPtr,
)
    requires
        is_branch(nodes, n, x, f.0, f.1, f.2),
        is_branch(nodes, n, x, g.0, g.1, g.2),
        is_branch(nodes, n, x, h.0, h.1, h.2),
        is_ite(nodes, n, f.1, g.1, h.1, t),
        is_ite(nodes, n, f.0, g.0, h.0, e),
        is_branch(nodes, n, x, e, t, r),
    ensures
        is_ite(nodes, n, f.2, g.2, h.2, r),
{
    reveal(is_ite);
    reveal(is_branch);
    assert forall|a: Seq<bool>| a.len() == n implies #[trigger] denotes(nodes, r, a) == (if denotes(
        nodes,
        f.2,
        a,
    ) {
        denotes(nodes, g.2, a)
    } else {
        denotes(nodes, h.2, a)
    }) by {
        assert(denotes(nodes, t, a) == ite_value(nodes, f.1, g.1, h.1, a));
        assert(denotes(nodes, e, a) == ite_value(nodes, f.0, g.0, h.0, a));
        assert(denotes(nodes, f.2, a) == (if a[x] {
            denotes(nodes, f.1, a)
        } else {
            denotes(nodes, f.0, a)
        }));
        assert(denotes(nodes, g.2, a) == (if a[x] {
            denotes(nodes, g.1, a)
        } else {
            denotes(nodes, g.0, a)
        }));
        assert(denotes(nodes, h.2, a) == (if a[x] {
            denotes(nodes, h.1, a)
        } else {
            denotes(nodes, h.0, a)
        }));
    }
}

/// The results of the terminal rules of if-then-else are edges for it.
pub proof fn lemma_ite_terminal(nodes: Seq<BddNode>, n: nat, f: BddPtr, g: BddPtr, h: BddPtr)
    ensures
        is_ite(nodes, n, BddPtr::PtrTrue, g, h, g),
        is_ite(nodes, n, BddPtr::PtrFalse, g, h, h),
        is_ite(nodes, n, f, g, g, g),
        is_ite(nodes, n, f, BddPtr::PtrTrue, BddPtr::PtrFalse, f),
        is_ite(nodes, n, f, BddPtr::PtrFalse, BddPtr::PtrTrue, f.negated()),
        is_branch(nodes, n, 0, f, f, f),
{
    reveal(is_ite);
    reveal(is_branch);
    assert forall|a: Seq<bool>| #[trigger] denotes(nodes, f.negated(), a) == !denotes(nodes, f, a) by {
        lemma_denotes_negated(nodes, f, a);
    }
}

/// An edge whose level comes behind the place of a variable denotes its
/// own restriction for the variable.
pub proof fn lemma_restriction_later(
    nodes: Seq<BddNode>,
    pos: Seq<usize>,
    f: BddPtr,
    x: int,
    b: bool,
)
    requires
        robdd_ok(nodes, pos),
        valid(nodes, f),
        0 <= x < pos.len(),
        pos[x] < level(nodes, pos, f),
    ensures
        is_restriction(nodes, pos.len(), f, x, b, f),
{
    reveal(is_restriction);
    assert forall|a: Seq<bool>| a.len() == pos.len() implies #[trigger] denotes(nodes, f, a)
        == denotes(nodes, f, a.update(x, b)) by {
        lemma_denotes_independent(nodes, pos, f, a, a.update(x, b));
    }
}

/// Of an edge that branches on a variable, the restriction for the variable
/// is the branch for the value.
pub proof fn lemma_restriction_here(
    nodes: Seq<BddNode>,
    pos: Seq<usize>,
    f: BddPtr,
    x: int,
    b: bool,
    lo: BddPtr,
    hi: BddPtr,
)
    requires
        robdd_ok(nodes, pos),
        valid(nodes, lo),
        valid(nodes, hi),
        0 <= x < pos.len(),
        pos[x] < level(nodes, pos, lo),
        pos[x] < level(nodes, pos, hi),
        is_branch(nodes, pos.len(), x, lo, hi, f),
    ensures
        is_restriction(nodes, pos.len(), f, x, b, if b {
            hi
        } else {
            lo
        }),
{
    reveal(is_restriction);
    reveal(is_branch);
    let r = if b {
        hi
    } else {
        lo
    };
    assert forall|a: Seq<bool>| a.len() == pos.len() implies #[trigger] denotes(nodes, r, a)
        == denotes(nodes, f, a.update(x, b)) by {
        let ab = a.update(x, b);
        lemma_denotes_independent(nodes, pos, r, a, ab);
        assert(denotes(nodes, f, ab) == (if ab[x] {
            denotes(nodes, hi, ab)
        } else {
            denotes(nodes, lo, ab)
        }));
    }
}

/// Of an edge that branches on another variable, the restriction is the
/// branch on that variable between the restrictions of the branches.
pub proof fn lemma_restriction_combine(
    nodes: Seq<BddNode>,
    n: nat,
    f: BddPtr,
    x: int,
    b: bool,
    y: int,
    lo: BddPtr,
    hi: BddPtr,
    rl: BddPtr,
    rh: BddPtr,
    r: BddPtr,
)
    requires
        0 <= x < n,
        0 <= y < n,
        x != y,
        is_branch(nodes, n, y, lo, hi, f),
        is_restriction(nodes, n, lo, x, b, rl),
        is_restriction(nodes, n, hi, x, b, rh),
        is_branch(nodes, n, y, rl, rh, r),
    ensures
        is_restriction(nodes, n, f, x, b, r),
{
    reveal(is_restriction);
    reveal(is_branch);
    assert forall|a: Seq<bool>| a.len() == n implies #[trigger] denotes(nodes, r, a) == denotes(
        nodes,
        f,
        a.update(x, b),
    ) by {
        let ab = a.update(x, b);
        assert(ab.len() == n);
        assert(ab[y] == a[y]);
        assert(denotes(nodes, f, ab) == (if ab[y] {
            denotes(nodes, hi, ab)
        } else {
            denotes(nodes, lo, ab)
        }));
        assert(denotes(nodes, rl, a) == denotes(nodes, lo, ab));
        assert(denotes(nodes, rh, a) == denotes(nodes, hi, ab));
        assert(denotes(nodes, r, a) == (if a[y] {
            denotes(nodes, rh, a)
        } else {
            denotes(nodes, rl, a)
        }));
    }
}

/// The edge `r` denotes the disjunction of the literals of the clause.
#[verifier::opaque]
pub open spec fn is_clause(nodes: Seq<BddNode>, n: nat, c: Seq<Literal>, r: BddPtr) -> bool {
    forall|a: Seq<bool>| a.len() == n ==> #[trigger] denotes(nodes, r, a) == clause_holds(c, a)
}

/// The edge `r` denotes the literal.
#[verifier::opaque]
pub open spec fn is_literal(nodes: Seq<BddNode>, n: nat, l: Literal, r: BddPtr) -> bool {
    forall|a: Seq<bool>| a.len() == n ==> #[trigger] denotes(nodes, r, a) == literal_holds(l, a)
}

/// The edge `r` denotes the conjunction of those of the clauses that
/// `keep` marks.
#[verifier::opaque]
pub open spec fn is_formula(
    nodes: Seq<BddNode>,
    n: nat,
    cs: Seq<Seq<Literal>>,
    keep: Seq<bool>,
    r: BddPtr,
) -> bool {
    forall|a: Seq<bool>|
        a.len() == n ==> #[trigger] denotes(nodes, r, a) == (forall|k: int|
            0 <= k < cs.len() && keep[k] ==> clause_holds(#[trigger] cs[k], a))
}

/// What an edge denotes of clauses it denotes in every table that the table
/// is the beginning of.
pub proof fn lemma_formula_grows(
    nodes: Seq<BddNode>,
    more: Seq<BddNode>,
    n: nat,
    cs: Seq<Seq<Literal>>,
    keep: Seq<bool>,
    c: Seq<Literal>,
    l: Literal,
    r: BddPtr,
)
    requires
        is_prefix(nodes, more),
        valid(nodes, r),
    ensures
        is_formula(nodes, n, cs, keep, r) ==> is_formula(more, n, cs, keep, r),
        is_clause(nodes, n, c, r) ==> is_clause(more, n, c, r),
        is_literal(nodes, n, l, r) ==> is_literal(more, n, l, r),
{
    reveal(is_formula);
    reveal(is_clause);
    reveal(is_literal);
    assert forall|a: Seq<bool>| a.len() == n implies #[trigger] denotes(more, r, a) == denotes(
        nodes,
        r,
        a,
    ) by {
        lemma_denotes_grows(nodes, more, r, a);
    }
}

/// The edge to false denotes the clause without literals, and the
/// disjunction of an edge for the first literals of a clause and one for
/// the next literal denotes the clause with that literal.
pub proof fn lemma_clause_step(
    nodes: Seq<BddNode>,
    n: nat,
    c: Seq<Literal>,
    i: int,
    prev: BddPtr,
    l: BddPtr,
    r: BddPtr,
)
    requires
        0 <= i < c.len(),
        is_clause(nodes, n, c.take(i), prev),
        is_literal(nodes, n, c[i], l),
        is_ite(nodes, n, prev, BddPtr::PtrTrue, l, r),
    ensures
        is_clause(nodes, n, c.take(i + 1), r),
        is_clause(nodes, n, Seq::empty(), BddPtr::PtrFalse),
{
    reveal(is_clause);
    reveal(is_literal);
    reveal(is_ite);
    let t = c.take(i);
    let t2 = c.take(i + 1);
    assert forall|a: Seq<bool>| a.len() == n implies #[trigger] denotes(nodes, r, a)
        == clause_holds(t2, a) by {
        assert(denotes(nodes, prev, a) == clause_holds(t, a));
        assert(denotes(nodes, l, a) == literal_holds(c[i], a));
        if clause_holds(t, a) {
            let j = choose|j: int| 0 <= j < t.len() && #[trigger] literal_holds(t[j], a);
            assert(literal_holds(t2[j], a));
        }
        if literal_holds(c[i], a) {
            assert(literal_holds(t2[i], a));
        }
        if clause_holds(t2, a) {
            let j = choose|j: int| 0 <= j < t2.len() && #[trigger] literal_holds(t2[j], a);
            if j < i {
                assert(literal_holds(t[j], a));
            }
        }
    }
}

/// The edge to true denotes the conjunction of no clauses, and the
/// conjunction of an edge for the first clauses and one for the next clause
/// denotes the conjunction with that clause, if it is kept.
pub proof fn lemma_formula_step(
    nodes: Seq<BddNode>,
    n: nat,
    cs: Seq<Seq<Literal>>,
    keep: Seq<bool>,
    k: int,
    prev: BddPtr,
    c: BddPtr,
    r: BddPtr,
)
    requires
        0 <= k < cs.len(),
        keep.len() == cs.len(),
        is_formula(nodes, n, cs.take(k), keep.take(k), prev),
        keep[k] ==> is_clause(nodes, n, cs[k], c) && is_ite(nodes, n, prev, c, BddPtr::PtrFalse, r),
        !keep[k] ==> r == prev,
    ensures
        is_formula(nodes, n, cs.take(k + 1), keep.take(k + 1), r),
        is_formula(nodes, n, Seq::empty(), Seq::empty(), BddPtr::PtrTrue),
{
    reveal(is_formula);
    reveal(is_clause);
    reveal(is_ite);
    let t = cs.take(k);
    let t2 = cs.take(k + 1);
    let kt = keep.take(k);
    let kt2 = keep.take(k + 1);
    assert forall|a: Seq<bool>| a.len() == n implies #[trigger] denotes(nodes, r, a) == (forall|
        j: int,
    |
        0 <= j < t2.len() && kt2[j] ==> clause_holds(#[trigger] t2[j], a)) by {
        let all = forall|j: int| 0 <= j < t.len() && kt[j] ==> clause_holds(#[trigger] t[j], a);
        let all2 = forall|j: int| 0 <= j < t2.len() && kt2[j] ==> clause_holds(#[trigger] t2[j], a);
        assert(denotes(nodes, prev, a) == all);
        if all2 {
            assert forall|j: int| 0 <= j < t.len() && kt[j] implies clause_holds(
                #[trigger] t[j],
                a,
            ) by {
                assert(kt2[j]);
                assert(t2[j] == t[j]);
            }
            if keep[k] {
                assert(kt2[k]);
                assert(t2[k] == cs[k]);
            }
        }
        if all && (keep[k] ==> clause_holds(cs[k], a)) {
            assert forall|j: int| 0 <= j < t2.len() && kt2[j] implies clause_holds(
                #[trigger] t2[j],
                a,
            ) by {
                if j < k {
                    assert(kt[j]);
                    assert(t[j] == t2[j]);
                }
            }
        }
        if keep[k] {
            assert(denotes(nodes, c, a) == clause_holds(cs[k], a));
        }
    }
}

} // verus!
