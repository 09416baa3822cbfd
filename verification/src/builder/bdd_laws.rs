//! Laws of the operations on binary decision diagrams. Each rests on
//! canonicity: edges of one manager that have the same value under every
//! assignment are the same edge.

use crate::builder::bdd_builder::BddManager;
use crate::repr::bdd::BddPtr;
use crate::repr::cnf::formula_holds;
use crate::repr::robdd::{is_ite, same_function};
use crate::repr::var_label::Literal;
use vstd::prelude::*;

verus! {

/// Canonicity: two edges of a manager are the same edge if and only if
/// they have the same value under every assignment.
pub proof fn lemma_equal_values(m: &BddManager, p: BddPtr, q: BddPtr)
    requires
        m.wf(),
        m.has(p),
        m.has(q),
    ensures
        (forall|a: Seq<bool>| a.len() == m.num_vars() ==> #[trigger] m.value(p, a) == m.value(q, a))
            <==> p == q,
{
    if forall|a: Seq<bool>| a.len() == m.num_vars() ==> #[trigger] m.value(p, a) == m.value(q, a) {
        assert(same_function(m.nodes(), m.num_vars(), p, q)) by {
            reveal(same_function);
            assert forall|a: Seq<bool>| a.len() == m.num_vars() implies #[trigger] crate::repr::robdd::denotes(
                m.nodes(),
                p,
                a,
            ) == crate::repr::robdd::denotes(m.nodes(), q, a) by {
                assert(m.value(p, a) == m.value(q, a));
            }
        }
        m.lemma_same_function_same_edge(p, q);
    }
}

/// Canonicity of compiled formulas: the edges for two formulas are the
/// same edge if and only if the formulas hold under the same assignments.
pub proof fn lemma_formulas_canonical(
    m: &BddManager,
    c1: Seq<Seq<Literal>>,
    c2: Seq<Seq<Literal>>,
    r1: BddPtr,
    r2: BddPtr,
)
    requires
        m.wf(),
        m.has(r1),
        m.has(r2),
        forall|a: Seq<bool>|
            a.len() == m.num_vars() ==> #[trigger] m.value(r1, a) == formula_holds(c1, a),
        forall|a: Seq<bool>|
            a.len() == m.num_vars() ==> #[trigger] m.value(r2, a) == formula_holds(c2, a),
    ensures
        (forall|a: Seq<bool>|
            a.len() == m.num_vars() ==> #[trigger] formula_holds(c1, a) == formula_holds(c2, a))
            <==> r1 == r2,
{
    lemma_equal_values(m, r1, r2);
    if r1 == r2 {
        assert forall|a: Seq<bool>| a.len() == m.num_vars() implies #[trigger] formula_holds(c1, a)
            == formula_holds(c2, a) by {
            assert(m.value(r1, a) == formula_holds(c1, a));
            assert(m.value(r2, a) == formula_holds(c2, a));
        }
    }
    if forall|a: Seq<bool>|
        a.len() == m.num_vars() ==> #[trigger] formula_holds(c1, a) == formula_holds(c2, a) {
        assert forall|a: Seq<bool>| a.len() == m.num_vars() implies #[trigger] m.value(r1, a)
            == m.value(r2, a) by {
            assert(formula_holds(c1, a) == formula_holds(c2, a));
        }
    }
}

/// The cofactor identity: a function is its cofactor for `x` true where
/// `x` is true, and its cofactor for `x` false where `x` is false.
pub proof fn lemma_cofactor_identity(
    m: &BddManager,
    f: BddPtr,
    x: int,
    vx: BddPtr,
    hi: BddPtr,
    lo: BddPtr,
    t1: BddPtr,
    t2: BddPtr,
    r: BddPtr,
)
    requires
        m.wf(),
        m.has(f),
        m.has(r),
        0 <= x < m.num_vars(),
        forall|a: Seq<bool>| a.len() == m.num_vars() ==> #[trigger] m.value(vx, a) == a[x],
        forall|a: Seq<bool>|
            a.len() == m.num_vars() ==> #[trigger] m.value(hi, a) == m.value(f, a.update(x, true)),
        forall|a: Seq<bool>|
            a.len() == m.num_vars() ==> #[trigger] m.value(lo, a) == m.value(f, a.update(x, false)),
        forall|a: Seq<bool>|
            a.len() == m.num_vars() ==> #[trigger] m.value(t1, a) == (m.value(vx, a) && m.value(
                hi,
                a,
            )),
        forall|a: Seq<bool>|
            a.len() == m.num_vars() ==> #[trigger] m.value(t2, a) == (!m.value(vx, a) && m.value(
                lo,
                a,
            )),
        forall|a: Seq<bool>|
            a.len() == m.num_vars() ==> #[trigger] m.value(r, a) == (m.value(t1, a) || m.value(
                t2,
                a,
            )),
    ensures
        r == f,
{
    assert forall|a: Seq<bool>| a.len() == m.num_vars() implies #[trigger] m.value(r, a) == m.value(
        f,
        a,
    ) by {
        assert(m.value(r, a) == (m.value(t1, a) || m.value(t2, a)));
        assert(m.value(t1, a) == (m.value(vx, a) && m.value(hi, a)));
        assert(m.value(t2, a) == (!m.value(vx, a) && m.value(lo, a)));
        assert(m.value(vx, a) == a[x]);
        assert(m.value(hi, a) == m.value(f, a.update(x, true)));
        assert(m.value(lo, a) == m.value(f, a.update(x, false)));
        assert(a.update(x, a[x]) =~= a);
    }
    lemma_equal_values(m, r, f);
}

/// The if-then-else of `f`, `g` and false is the conjunction of `f` and
/// `g`.
pub proof fn lemma_ite_and_coherence(m: &BddManager, f: BddPtr, g: BddPtr, r1: BddPtr, r2: BddPtr)
    requires
        m.wf(),
        m.has(r1),
        m.has(r2),
        is_ite(m.nodes(), m.num_vars(), f, g, BddPtr::PtrFalse, r1),
        forall|a: Seq<bool>|
            a.len() == m.num_vars() ==> #[trigger] m.value(r2, a) == (m.value(f, a) && m.value(g, a)),
    ensures
        r1 == r2,
{
    reveal(is_ite);
    assert forall|a: Seq<bool>| a.len() == m.num_vars() implies #[trigger] m.value(r1, a)
        == m.value(r2, a) by {
        assert(m.value(r2, a) == (m.value(f, a) && m.value(g, a)));
    }
    lemma_equal_values(m, r1, r2);
}

/// The equivalence of `f` and `g` is the disjunction of their conjunction
/// and the conjunction of their negations.
pub proof fn lemma_iff_decomposition(
    m: &BddManager,
    f: BddPtr,
    g: BddPtr,
    r1: BddPtr,
    both: BddPtr,
    neither: BddPtr,
    r2: BddPtr,
)
    requires
        m.wf(),
        m.has(r1),
        m.has(r2),
        forall|a: Seq<bool>|
            a.len() == m.num_vars() ==> #[trigger] m.value(r1, a) == (m.value(f, a) == m.value(g, a)),
        forall|a: Seq<bool>|
            a.len() == m.num_vars() ==> #[trigger] m.value(both, a) == (m.value(f, a) && m.value(
                g,
                a,
            )),
        forall|a: Seq<bool>|
            a.len() == m.num_vars() ==> #[trigger] m.value(neither, a) == (!m.value(f, a)
                && !m.value(g, a)),
        forall|a: Seq<bool>|
            a.len() == m.num_vars() ==> #[trigger] m.value(r2, a) == (m.value(both, a) || m.value(
                neither,
                a,
            )),
    ensures
        r1 == r2,
{
    assert forall|a: Seq<bool>| a.len() == m.num_vars() implies #[trigger] m.value(r1, a)
        == m.value(r2, a) by {
        assert(m.value(r2, a) == (m.value(both, a) || m.value(neither, a)));
        assert(m.value(both, a) == (m.value(f, a) && m.value(g, a)));
        assert(m.value(neither, a) == (!m.value(f, a) && !m.value(g, a)));
    }
    lemma_equal_values(m, r1, r2);
}

/// Quantifying a variable away is the disjunction of the two cofactors for
/// the variable.
pub proof fn lemma_exists_is_cofactor_or(
    m: &BddManager,
    f: BddPtr,
    x: int,
    r1: BddPtr,
    hi: BddPtr,
    lo: BddPtr,
    r2: BddPtr,
)
    requires
        m.wf(),
        m.has(r1),
        m.has(r2),
        0 <= x < m.num_vars(),
        forall|a: Seq<bool>|
            a.len() == m.num_vars() ==> #[trigger] m.value(r1, a) == (exists|b: bool| #[trigger]
                m.value(f, a.update(x, b))),
        forall|a: Seq<bool>|
            a.len() == m.num_vars() ==> #[trigger] m.value(hi, a) == m.value(f, a.update(x, true)),
        forall|a: Seq<bool>|
            a.len() == m.num_vars() ==> #[trigger] m.value(lo, a) == m.value(f, a.update(x, false)),
        forall|a: Seq<bool>|
            a.len() == m.num_vars() ==> #[trigger] m.value(r2, a) == (m.value(hi, a) || m.value(
                lo,
                a,
            )),
    ensures
        r1 == r2,
{
    assert forall|a: Seq<bool>| a.len() == m.num_vars() implies #[trigger] m.value(r1, a)
        == m.value(r2, a) by {
        assert(m.value(r2, a) == (m.value(hi, a) || m.value(lo, a)));
        assert(m.value(hi, a) == m.value(f, a.update(x, true)));
        assert(m.value(lo, a) == m.value(f, a.update(x, false)));
        assert(m.value(r1, a) == (exists|b: bool| #[trigger] m.value(f, a.update(x, b))));
        if m.value(r1, a) {
            let b = choose|b: bool| #[trigger] m.value(f, a.update(x, b));
            if b {
                assert(m.value(f, a.update(x, true)));
            } else {
                assert(m.value(f, a.update(x, false)));
            }
        }
    }
    lemma_equal_values(m, r1, r2);
}

} // verus!
