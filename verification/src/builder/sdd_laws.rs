//! What holds of the edges that a builder of sentential decision diagrams
//! gives out.

use crate::builder::sdd_builder::SddManager;
use crate::repr::cnf::formula_holds;
use crate::repr::sdd::SddPtr;
use crate::repr::sdd_canonical::lemma_canonical;
use crate::repr::sdd_semantics::denotes;
use crate::repr::sdd_wmc::{edge_sum, lemma_leaf_vars, lemma_wmc_agreement};
use crate::repr::wmc::weighted_model_count;
use crate::repr::var_label::Literal;
use vstd::prelude::*;

verus! {

/// Canonicity: two edges of a builder are the same edge if and only if
/// their functions have the same value under each assignment.
pub proof fn lemma_equal_values(m: &SddManager, p: SddPtr, q: SddPtr)
    requires
        m.wf(),
        m.has(p),
        m.has(q),
    ensures
        (forall|a: Seq<bool>| a.len() == m.spec_num_vars() ==> #[trigger] m.value(p, a) == m.value(q, a))
            <==> p == q,
{
    m.lemma_wf();
    if forall|a: Seq<bool>|
        a.len() == m.spec_num_vars() ==> #[trigger] m.value(p, a) == m.value(q, a) {
        assert forall|a: Seq<bool>|
            a.len() == m.tables().leaf_of.len() implies #[trigger] denotes(m.tables(), p, a)
            == denotes(m.tables(), q, a) by {
            assert(m.value(p, a) == m.value(q, a));
        }
        lemma_canonical(m.tables(), p, q);
    }
}

/// Canonicity of compiled formulas: the edges for two formulas are the
/// same edge if and only if the formulas hold under the same assignments.
pub proof fn lemma_formulas_canonical(
    m: &SddManager,
    c1: Seq<Seq<Literal>>,
    c2: Seq<Seq<Literal>>,
    r1: SddPtr,
    r2: SddPtr,
)
    requires
        m.wf(),
        m.has(r1),
        m.has(r2),
        forall|a: Seq<bool>|
            a.len() == m.spec_num_vars() ==> #[trigger] m.value(r1, a) == formula_holds(c1, a),
        forall|a: Seq<bool>|
            a.len() == m.spec_num_vars() ==> #[trigger] m.value(r2, a) == formula_holds(c2, a),
    ensures
        (forall|a: Seq<bool>|
            a.len() == m.spec_num_vars() ==> #[trigger] formula_holds(c1, a) == formula_holds(c2, a))
            <==> r1 == r2,
{
    lemma_equal_values(m, r1, r2);
    if r1 == r2 {
        assert forall|a: Seq<bool>|
            a.len() == m.spec_num_vars() implies #[trigger] formula_holds(c1, a) == formula_holds(
            c2,
            a,
        ) by {
            assert(m.value(r1, a) == formula_holds(c1, a));
            assert(m.value(r2, a) == formula_holds(c2, a));
        }
    }
    if forall|a: Seq<bool>|
        a.len() == m.spec_num_vars() ==> #[trigger] formula_holds(c1, a) == formula_holds(c2, a) {
        assert forall|a: Seq<bool>| a.len() == m.spec_num_vars() implies #[trigger] m.value(r1, a)
            == m.value(r2, a) by {
            assert(formula_holds(c1, a) == formula_holds(c2, a));
        }
    }
}

/// Agreement of the weighted model counts: the count of an edge for a
/// formula is the weighted model count of the formula, whatever the
/// variable tree of the builder.
pub proof fn lemma_wmc_of_formula(
    m: &SddManager,
    r: SddPtr,
    cs: Seq<Seq<Literal>>,
    w: Seq<(nat, nat)>,
)
    requires
        m.wf(),
        m.has(r),
        forall|a: Seq<bool>|
            a.len() == m.spec_num_vars() ==> #[trigger] m.value(r, a) == formula_holds(cs, a),
    ensures
        edge_sum(m.tables(), w, 0, r) == weighted_model_count(cs, w, m.spec_num_vars()),
{
    m.lemma_wf();
    let t = m.tables();
    lemma_leaf_vars(t.row, t.row.len() as int, t.row.len() as int);
    assert forall|a: Seq<bool>| a.len() == t.leaf_of.len() implies #[trigger] denotes(t, r, a)
        == formula_holds(cs, a) by {
        assert(m.value(r, a) == formula_holds(cs, a));
    }
    lemma_wmc_agreement(t, w, cs, r);
}

} // verus!
