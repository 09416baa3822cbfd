//! What unit propagation computes, stated over sets of literals.
//!
//! A set of literals is closed when it holds the last literal of every
//! clause whose other literals it refutes. Propagating from a set of
//! literals yields the least closed set above it, unless that set refutes a
//! whole clause or holds a literal together with its negation.

use crate::repr::cnf::{clause_holds, formula_holds, labels_below, literal_holds};
use crate::repr::model::lit_true;
use crate::repr::var_label::Literal;
use vstd::prelude::*;

verus! {

/// The partial assignment `a` makes some literal of the clause true.
pub open spec fn clause_sat(c: Seq<Literal>, a: Seq<Option<bool>>) -> bool {
    exists|i: int| 0 <= i < c.len() && lit_true(a, #[trigger] c[i])
}

/// `t` holds the negation of every literal of the clause.
pub open spec fn refuted(c: Seq<Literal>, t: Set<Literal>) -> bool {
    forall|j: int| 0 <= j < c.len() ==> t.contains((#[trigger] c[j]).negated())
}

/// `t` holds the negation of every literal of the clause but `c[i]`.
pub open spec fn others_refuted(c: Seq<Literal>, i: int, t: Set<Literal>) -> bool {
    forall|j: int| 0 <= j < c.len() && c[j] != c[i] ==> t.contains((#[trigger] c[j]).negated())
}

/// `t` holds each literal that a clause forces once `t` refutes the others.
pub open spec fn unit_closed(cs: Seq<Seq<Literal>>, t: Set<Literal>) -> bool {
    forall|k: int, i: int|
        0 <= k < cs.len() && 0 <= i < cs[k].len() && others_refuted(cs[k], i, t) ==> t.contains(
            #[trigger] cs[k][i],
        )
}

/// `t` holds no literal together with its negation and refutes no clause.
pub open spec fn conflict_free(cs: Seq<Seq<Literal>>, t: Set<Literal>) -> bool {
    &&& forall|l: Literal| !(t.contains(l) && #[trigger] t.contains(l.negated()))
    &&& forall|k: int| 0 <= k < cs.len() ==> !refuted(#[trigger] cs[k], t)
}

/// Every closed set that holds `base` holds `s` as well.
pub open spec fn forced(cs: Seq<Seq<Literal>>, base: Set<Literal>, s: Set<Literal>) -> bool {
    forall|u: Set<Literal>| base.subset_of(u) && #[trigger] unit_closed(cs, u) ==> s.subset_of(u)
}

/// Unit propagation from `base` meets no conflict: some closed set above
/// `base` is free of conflict.
pub open spec fn propagation_consistent(cs: Seq<Seq<Literal>>, base: Set<Literal>) -> bool {
    exists|t: Set<Literal>| base.subset_of(t) && #[trigger] unit_closed(cs, t) && conflict_free(cs, t)
}

/// `t` is what unit propagation from `base` yields: the least closed set
/// above `base`, and free of conflict.
pub open spec fn is_propagation_result(
    cs: Seq<Seq<Literal>>,
    base: Set<Literal>,
    t: Set<Literal>,
) -> bool {
    &&& base.subset_of(t)
    &&& unit_closed(cs, t)
    &&& conflict_free(cs, t)
    &&& forced(cs, base, t)
}

/// A formula with an empty clause is refuted from the start: unit
/// propagation meets a conflict whatever it starts from.
pub proof fn lemma_empty_clause_conflicts(cs: Seq<Seq<Literal>>, base: Set<Literal>)
    requires
        crate::repr::cnf::some_empty(cs),
    ensures
        !propagation_consistent(cs, base),
{
    let k = choose|k: int| 0 <= k < cs.len() && (#[trigger] cs[k]).len() == 0;
    assert forall|t: Set<Literal>|
        !(base.subset_of(t) && #[trigger] unit_closed(cs, t) && conflict_free(cs, t)) by {
        assert(refuted(cs[k], t));
    }
}

/// The literals that a total assignment makes true.
pub open spec fn model_lits(m: Seq<bool>) -> Set<Literal> {
    Set::new(|l: Literal| literal_holds(l, m))
}

/// Unit propagation has one result at most.
pub proof fn lemma_propagation_result_unique(
    cs: Seq<Seq<Literal>>,
    base: Set<Literal>,
    t1: Set<Literal>,
    t2: Set<Literal>,
)
    requires
        is_propagation_result(cs, base, t1),
        is_propagation_result(cs, base, t2),
    ensures
        t1 == t2,
{
    assert(t1.subset_of(t2));
    assert(t2.subset_of(t1));
    assert(t1 =~= t2);
}

/// What is forced from a base stays forced when the base grows by literals
/// that are forced themselves.
pub proof fn lemma_forced_chain(
    cs: Seq<Seq<Literal>>,
    base: Set<Literal>,
    mid: Set<Literal>,
    s: Set<Literal>,
)
    requires
        forced(cs, base, mid),
        forced(cs, mid, s),
    ensures
        forced(cs, base, s),
{
    assert forall|u: Set<Literal>| base.subset_of(u) && #[trigger] unit_closed(cs, u) implies s.subset_of(
        u,
    ) by {
        assert(mid.subset_of(u));
    }
}

/// A conflict above a forced set is a conflict above the base.
pub proof fn lemma_conflict_chain(cs: Seq<Seq<Literal>>, base: Set<Literal>, mid: Set<Literal>)
    requires
        forced(cs, base, mid),
        !propagation_consistent(cs, mid),
    ensures
        !propagation_consistent(cs, base),
{
    if propagation_consistent(cs, base) {
        let t = choose|t: Set<Literal>|
            base.subset_of(t) && #[trigger] unit_closed(cs, t) && conflict_free(cs, t);
        assert(mid.subset_of(t));
    }
}

/// The literals that a model of the formula makes true are closed and free
/// of conflict.
pub proof fn lemma_model_is_closed(cs: Seq<Seq<Literal>>, m: Seq<bool>)
    requires
        labels_below(cs, m.len() as int),
        formula_holds(cs, m),
    ensures
        unit_closed(cs, model_lits(m)),
        conflict_free(cs, model_lits(m)),
{
    let t = model_lits(m);
    assert forall|k: int, i: int|
        0 <= k < cs.len() && 0 <= i < cs[k].len() && others_refuted(cs[k], i, t) implies t.contains(
        #[trigger] cs[k][i],
    ) by {
        let c = cs[k];
        assert(clause_holds(c, m));
        let j = choose|j: int| 0 <= j < c.len() && #[trigger] literal_holds(c[j], m);
        if c[j] != c[i] {
            assert(t.contains(c[j].negated()));
        }
    }
    assert forall|k: int| 0 <= k < cs.len() implies !refuted(#[trigger] cs[k], t) by {
        let c = cs[k];
        assert(clause_holds(c, m));
        let j = choose|j: int| 0 <= j < c.len() && #[trigger] literal_holds(c[j], m);
        assert(!t.contains(c[j].negated()));
    }
}

/// Unit propagation is sound: a model of the formula that makes the base
/// true makes every forced literal true, and where propagation from the base
/// meets a conflict, no such model exists.
pub proof fn lemma_propagation_sound(
    cs: Seq<Seq<Literal>>,
    base: Set<Literal>,
    s: Set<Literal>,
    m: Seq<bool>,
)
    requires
        labels_below(cs, m.len() as int),
        formula_holds(cs, m),
        base.subset_of(model_lits(m)),
    ensures
        propagation_consistent(cs, base),
        forced(cs, base, s) ==> s.subset_of(model_lits(m)),
{
    lemma_model_is_closed(cs, m);
    assert(unit_closed(cs, model_lits(m)));
}

} // verus!
