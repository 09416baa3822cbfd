//! Top-down compilation of a formula: decide the variables in their order,
//! propagate units after each decision, and build the diagram from the two
//! branches of each decision and the literals that propagation has added.

use crate::builder::bdd_builder::BddManager;
use crate::repr::bdd::{BddNode, BddPtr};
use crate::repr::cnf::{clause_holds, formula_holds, labels_below, literal_holds, Cnf};
use crate::repr::model::{
    extends, lemma_open_count_assign, lemma_open_count_extends, lit_true, open_count, true_lits,
    PartialModel,
};
use crate::repr::propagation::{
    clause_sat, conflict_free, forced, lemma_propagation_sound, model_lits, propagation_consistent,
    refuted,
};
use crate::repr::robdd::{denotes, is_ite, is_prefix, lemma_denotes_grows, valid};
use crate::repr::unit_prop::UnitPropagate;
use crate::repr::var_label::{Literal, VarLabel};
use vstd::prelude::*;

verus! {

/// The total assignment `a` gives each variable that `s` assigns the value
/// that `s` gives it.
pub open spec fn consistent(a: Seq<bool>, s: Seq<Option<bool>>) -> bool {
    forall|v: int| 0 <= v < s.len() && (#[trigger] s[v]) is Some ==> v < a.len() && a[v] == s[v].unwrap()
}

/// Under every assignment that is consistent with `s`, the edge has the
/// value of the formula.
#[verifier::opaque]
pub open spec fn agrees_under(
    nodes: Seq<BddNode>,
    n: nat,
    r: BddPtr,
    cs: Seq<Seq<Literal>>,
    s: Seq<Option<bool>>,
) -> bool {
    forall|a: Seq<bool>|
        a.len() == n && consistent(a, s) ==> #[trigger] denotes(nodes, r, a) == formula_holds(cs, a)
}

/// The total assignment `a` gives each of the first `k` variables that `s2`
/// assigns and `s` does not the value that `s2` gives it.
pub open spec fn added_hold(a: Seq<bool>, s: Seq<Option<bool>>, s2: Seq<Option<bool>>, k: int) -> bool {
    forall|v: int|
        0 <= v < k && v < s2.len() && (#[trigger] s2[v]) is Some && s[v] is None ==> v < a.len()
            && a[v] == s2[v].unwrap()
}

/// The edge `r` denotes the conjunction of `sub` and the literals of the
/// first `k` variables that `s2` assigns and `s` does not.
#[verifier::opaque]
pub open spec fn is_conjoined(
    nodes: Seq<BddNode>,
    n: nat,
    r: BddPtr,
    sub: BddPtr,
    s: Seq<Option<bool>>,
    s2: Seq<Option<bool>>,
    k: int,
) -> bool {
    forall|a: Seq<bool>|
        a.len() == n ==> #[trigger] denotes(nodes, r, a) == (denotes(nodes, sub, a) && added_hold(
            a,
            s,
            s2,
            k,
        ))
}

/// What the predicates of this file say of edges of a table they say of
/// them in every table that the table is the beginning of.
pub proof fn lemma_agreement_grows(
    nodes: Seq<BddNode>,
    more: Seq<BddNode>,
    n: nat,
    r: BddPtr,
    sub: BddPtr,
    cs: Seq<Seq<Literal>>,
    s: Seq<Option<bool>>,
    s2: Seq<Option<bool>>,
    k: int,
)
    requires
        is_prefix(nodes, more),
        valid(nodes, r),
        valid(nodes, sub),
    ensures
        agrees_under(nodes, n, r, cs, s) ==> agrees_under(more, n, r, cs, s),
        is_conjoined(nodes, n, r, sub, s, s2, k) ==> is_conjoined(more, n, r, sub, s, s2, k),
{
    reveal(agrees_under);
    reveal(is_conjoined);
    assert forall|a: Seq<bool>|
        #![trigger denotes(more, r, a)]
        a.len() == n implies denotes(more, r, a) == denotes(nodes, r, a) && denotes(more, sub, a)
        == denotes(nodes, sub, a) by {
        lemma_denotes_grows(nodes, more, r, a);
        lemma_denotes_grows(nodes, more, sub, a);
    }
}

/// A total assignment that is consistent with a partial one makes true the
/// literals that the partial one makes true.
pub proof fn lemma_consistent_lits(a: Seq<bool>, s: Seq<Option<bool>>)
    requires
        consistent(a, s),
    ensures
        true_lits(s).subset_of(model_lits(a)),
{
    assert forall|l: Literal| true_lits(s).contains(l) implies model_lits(a).contains(l) by {
        assert(s[l.var()] is Some);
    }
}

/// Where a partial assignment satisfies every clause, the edge to true
/// agrees with the formula under it.
pub proof fn lemma_satisfied_agrees(
    nodes: Seq<BddNode>,
    n: nat,
    cs: Seq<Seq<Literal>>,
    s: Seq<Option<bool>>,
)
    requires
        forall|k: int| 0 <= k < cs.len() ==> clause_sat(#[trigger] cs[k], s),
    ensures
        agrees_under(nodes, n, BddPtr::PtrTrue, cs, s),
{
    reveal(agrees_under);
    assert forall|a: Seq<bool>| a.len() == n && consistent(a, s) implies formula_holds(cs, a) by {
        assert forall|k: int| 0 <= k < cs.len() implies clause_holds(#[trigger] cs[k], a) by {
            let c = cs[k];
            assert(clause_sat(c, s));
            let i = choose|i: int| 0 <= i < c.len() && lit_true(s, #[trigger] c[i]);
            assert(s[c[i].var()] is Some);
            assert(literal_holds(c[i], a));
        }
    }
}

/// Where a partial assignment gives every variable of the formula a value
/// and refutes no clause, it satisfies every clause.
pub proof fn lemma_total_satisfies(cs: Seq<Seq<Literal>>, s: Seq<Option<bool>>)
    requires
        labels_below(cs, s.len() as int),
        conflict_free(cs, true_lits(s)),
        forall|v: int| 0 <= v < s.len() ==> (#[trigger] s[v]) is Some,
    ensures
        forall|k: int| 0 <= k < cs.len() ==> clause_sat(#[trigger] cs[k], s),
{
    assert forall|k: int| 0 <= k < cs.len() implies clause_sat(#[trigger] cs[k], s) by {
        let c = cs[k];
        assert(!refuted(c, true_lits(s)));
        let j = choose|j: int| 0 <= j < c.len() && !true_lits(s).contains((#[trigger] c[j]).negated());
        assert(c[j].label.0 < s.len());
        let v = c[j].var();
        assert(s[v] is Some);
        assert(c[j].negated().var() == v);
        assert(!lit_true(s, c[j].negated()));
        assert(s[v] != Some(!c[j].polarity));
        assert(s[v] == Some(c[j].polarity));
        assert(lit_true(s, c[j]));
    }
}

/// Where propagation from a partial assignment meets a conflict, the edge
/// to false agrees with the formula under the assignment.
pub proof fn lemma_conflict_agrees(
    nodes: Seq<BddNode>,
    n: nat,
    cs: Seq<Seq<Literal>>,
    s: Seq<Option<bool>>,
)
    requires
        labels_below(cs, n as int),
        !propagation_consistent(cs, true_lits(s)),
    ensures
        agrees_under(nodes, n, BddPtr::PtrFalse, cs, s),
{
    reveal(agrees_under);
    assert forall|a: Seq<bool>| a.len() == n && consistent(a, s) implies !formula_holds(cs, a) by {
        if formula_holds(cs, a) {
            lemma_consistent_lits(a, s);
            lemma_propagation_sound(cs, true_lits(s), Set::empty(), a);
        }
    }
}

/// An edge that agrees with the formula under what propagation has made of
/// a partial assignment, conjoined with the literals that propagation has
/// added, agrees with the formula under the partial assignment.
pub proof fn lemma_propagated_agrees(
    nodes: Seq<BddNode>,
    n: nat,
    cs: Seq<Seq<Literal>>,
    s: Seq<Option<bool>>,
    s2: Seq<Option<bool>>,
    sub: BddPtr,
    r: BddPtr,
)
    requires
        labels_below(cs, n as int),
        extends(s, s2),
        s2.len() <= n,
        s2.len() <= usize::MAX,
        forced(cs, true_lits(s), true_lits(s2)),
        agrees_under(nodes, n, sub, cs, s2),
        is_conjoined(nodes, n, r, sub, s, s2, s2.len() as int),
    ensures
        agrees_under(nodes, n, r, cs, s),
{
    reveal(agrees_under);
    reveal(is_conjoined);
    assert forall|a: Seq<bool>| a.len() == n && consistent(a, s) implies #[trigger] denotes(
        nodes,
        r,
        a,
    ) == formula_holds(cs, a) by {
        let added = added_hold(a, s, s2, s2.len() as int);
        assert(denotes(nodes, r, a) == (denotes(nodes, sub, a) && added));
        if formula_holds(cs, a) {
            lemma_consistent_lits(a, s);
            lemma_propagation_sound(cs, true_lits(s), true_lits(s2), a);
            assert forall|v: int| 0 <= v < s2.len() && (#[trigger] s2[v]) is Some implies v
                < a.len() && a[v] == s2[v].unwrap() by {
                let l = Literal { label: VarLabel(v as u64), polarity: s2[v].unwrap() };
                assert(true_lits(s2).contains(l));
                assert(model_lits(a).contains(l));
            }
            assert(consistent(a, s2));
            assert(denotes(nodes, sub, a) == formula_holds(cs, a));
        } else if added {
            assert forall|v: int| 0 <= v < s2.len() && (#[trigger] s2[v]) is Some implies v
                < a.len() && a[v] == s2[v].unwrap() by {
                if s[v] is Some {
                    assert(s2[v] == s[v]);
                }
            }
            assert(consistent(a, s2));
            assert(denotes(nodes, sub, a) == formula_holds(cs, a));
        }
    }
}

/// Edges that agree with the formula under a partial assignment with a
/// variable true and with it false make, as the branches of an if-then-else
/// on the variable, an edge that agrees with the formula under the partial
/// assignment.
pub proof fn lemma_decision_agrees(
    nodes: Seq<BddNode>,
    n: nat,
    cs: Seq<Seq<Literal>>,
    s: Seq<Option<bool>>,
    x: int,
    xe: BddPtr,
    hi: BddPtr,
    lo: BddPtr,
    r: BddPtr,
)
    requires
        0 <= x < s.len(),
        s.len() <= n,
        s[x] is None,
        forall|a: Seq<bool>| a.len() == n ==> #[trigger] denotes(nodes, xe, a) == a[x],
        agrees_under(nodes, n, hi, cs, s.update(x, Some(true))),
        agrees_under(nodes, n, lo, cs, s.update(x, Some(false))),
        is_ite(nodes, n, xe, hi, lo, r),
    ensures
        agrees_under(nodes, n, r, cs, s),
{
    reveal(agrees_under);
    reveal(is_ite);
    assert forall|a: Seq<bool>| a.len() == n && consistent(a, s) implies #[trigger] denotes(
        nodes,
        r,
        a,
    ) == formula_holds(cs, a) by {
        assert(denotes(nodes, xe, a) == a[x]);
        let sb = s.update(x, Some(a[x]));
        assert forall|v: int| 0 <= v < sb.len() && (#[trigger] sb[v]) is Some implies v < a.len()
            && a[v] == sb[v].unwrap() by {
            if v != x {
                assert(s[v] is Some);
            }
        }
        assert(consistent(a, sb));
        if a[x] {
            assert(denotes(nodes, hi, a) == formula_holds(cs, a));
        } else {
            assert(denotes(nodes, lo, a) == formula_holds(cs, a));
        }
    }
}

/// Nothing conjoined is the edge itself, and conjoining the literal of the
/// next variable, if propagation has added one, is the next step.
pub proof fn lemma_conjoin_step(
    nodes: Seq<BddNode>,
    n: nat,
    sub: BddPtr,
    s: Seq<Option<bool>>,
    s2: Seq<Option<bool>>,
    k: int,
    prev: BddPtr,
    l: BddPtr,
    r: BddPtr,
)
    requires
        0 <= k < s2.len(),
        s.len() == s2.len(),
        s2.len() <= n,
        is_conjoined(nodes, n, prev, sub, s, s2, k),
        s2[k] is Some && s[k] is None ==> (forall|a: Seq<bool>|
            a.len() == n ==> #[trigger] denotes(nodes, l, a) == (a[k] == s2[k].unwrap())) && is_ite(
            nodes,
            n,
            prev,
            l,
            BddPtr::PtrFalse,
            r,
        ),
        !(s2[k] is Some && s[k] is None) ==> r == prev,
    ensures
        is_conjoined(nodes, n, r, sub, s, s2, k + 1),
        is_conjoined(nodes, n, sub, sub, s, s2, 0),
{
    reveal(is_conjoined);
    reveal(is_ite);
    assert forall|a: Seq<bool>| a.len() == n implies #[trigger] denotes(nodes, r, a) == (denotes(
        nodes,
        sub,
        a,
    ) && added_hold(a, s, s2, k + 1)) by {
        assert(denotes(nodes, prev, a) == (denotes(nodes, sub, a) && added_hold(a, s, s2, k)));
        let here = s2[k] is Some && s[k] is None;
        if here {
            assert(denotes(nodes, l, a) == (a[k] == s2[k].unwrap()));
        }
        if added_hold(a, s, s2, k + 1) {
            assert(added_hold(a, s, s2, k));
            if here {
                assert(a[k] == s2[k].unwrap());
            }
        }
        if added_hold(a, s, s2, k) && (here ==> a[k] == s2[k].unwrap()) {
            assert(added_hold(a, s, s2, k + 1));
        }
    }
}

/// What is true once a literal is set is what was true, and the literal.
pub proof fn lemma_lits_of_update(s: Seq<Option<bool>>, lit: Literal)
    requires
        0 <= lit.var() < s.len(),
        s[lit.var()] is None,
    ensures
        true_lits(s.update(lit.var(), Some(lit.polarity))) == true_lits(s).insert(lit),
{
    let s2 = s.update(lit.var(), Some(lit.polarity));
    assert forall|l: Literal| true_lits(s2).contains(l) <==> true_lits(s).insert(lit).contains(
        l,
    ) by {
        if l.var() == lit.var() {
            assert(l.label.0 == lit.label.0);
            assert(l.label == lit.label);
        }
    }
    assert(true_lits(s2) =~= true_lits(s).insert(lit));
}

impl BddManager {
    /// The edge for the formula, compiled from the top down: the variables
    /// are decided in their order, units are propagated after each
    /// decision, and a branch in which propagation meets a conflict is
    /// false.
    pub fn from_cnf_topdown(&mut self, cnf: &Cnf) -> (r: BddPtr)
        requires
            old(self).wf(),
            cnf.wf(),
            cnf.spec_num_vars() <= old(self).num_vars(),
        ensures
            final(self).wf(),
            final(self).positions() == old(self).positions(),
            final(self).spec_order() == old(self).spec_order(),
            is_prefix(old(self).nodes(), final(self).nodes()),
            final(self).has(r),
            forall|a: Seq<bool>|
                a.len() == final(self).num_vars() ==> #[trigger] final(self).value(r, a)
                    == formula_holds(cnf@, a),
    {
        let ghost n = self.num_vars();
        let ghost cs = cnf@;
        let num = cnf.num_vars();
        let mut open: Vec<Option<bool>> = Vec::new();
        let mut v: usize = 0;
        while v < num
            invariant
                v <= num,
                open@.len() == v,
                forall|i: int| 0 <= i < v ==> (#[trigger] open@[i]) is None,
            decreases num - v,
        {
            open.push(None);
            v += 1;
        }
        let before = PartialModel::from_vec(open);
        proof {
            assert(true_lits(before@) =~= Set::<Literal>::empty());
        }
        let r = match UnitPropagate::new(cnf) {
            None => {
                proof {
                    lemma_conflict_agrees(self.nodes(), n, cs, before@);
                }
                BddPtr::PtrFalse
            },
            Some(mut up) => {
                proof {
                    up.lemma_wf(0, 0);
                }
                self.topdown_start(cnf, &mut up, &before)
            },
        };
        proof {
            Self::lemma_agrees_everywhere(self.nodes(), n, r, cs, before@);
        }
        r
    }

    /// The edge that agrees with the formula under an assignment from
    /// which propagation has given the latest assignment of the propagator.
    fn topdown_start<'a>(
        &mut self,
        cnf: &'a Cnf,
        up: &mut UnitPropagate<'a>,
        before: &PartialModel,
    ) -> (r: BddPtr)
        requires
            old(self).wf(),
            cnf.wf(),
            cnf.spec_num_vars() <= old(self).num_vars(),
            old(up).wf(),
            old(up).depth() > 0,
            old(up).settled(),
            old(up).formula() == *cnf,
            before@.len() == cnf.spec_num_vars(),
            extends(before@, old(up).top()),
            forced(cnf@, true_lits(before@), true_lits(old(up).top())),
        ensures
            final(self).wf(),
            final(self).positions() == old(self).positions(),
            final(self).spec_order() == old(self).spec_order(),
            is_prefix(old(self).nodes(), final(self).nodes()),
            final(self).has(r),
            agrees_under(final(self).nodes(), final(self).num_vars(), r, cnf@, before@),
    {
        let ghost n = self.num_vars();
        let ghost cs = cnf@;
        let ghost s2 = up.top();
        proof {
            up.lemma_wf(up.depth() - 1, up.depth() - 1);
        }
        let sub = self.topdown_rec(cnf, up);
        let ghost nodes1 = self.nodes();
        let conj = self.conjoin_added(cnf, up, sub, before);
        proof {
            lemma_agreement_grows(nodes1, self.nodes(), n, sub, sub, cs, s2, s2, 0);
            lemma_propagated_agrees(self.nodes(), n, cs, before@, s2, sub, conj);
        }
        conj
    }

    proof fn lemma_agrees_everywhere(
        nodes: Seq<BddNode>,
        n: nat,
        r: BddPtr,
        cs: Seq<Seq<Literal>>,
        s: Seq<Option<bool>>,
    )
        requires
            agrees_under(nodes, n, r, cs, s),
            forall|v: int| 0 <= v < s.len() ==> (#[trigger] s[v]) is None,
        ensures
            forall|a: Seq<bool>| a.len() == n ==> #[trigger] denotes(nodes, r, a) == formula_holds(
                cs,
                a,
            ),
    {
        reveal(agrees_under);
        assert forall|a: Seq<bool>| a.len() == n implies #[trigger] denotes(nodes, r, a)
            == formula_holds(cs, a) by {
            assert(consistent(a, s));
        }
    }

    /// The edge `sub` conjoined with the literals of the variables that the
    /// latest assignment of the propagator gives a value and `before` does
    /// not.
    fn conjoin_added(
        &mut self,
        cnf: &Cnf,
        up: &UnitPropagate,
        sub: BddPtr,
        before: &PartialModel,
    ) -> (r: BddPtr)
        requires
            old(self).wf(),
            old(self).has(sub),
            cnf.wf(),
            cnf.spec_num_vars() <= old(self).num_vars(),
            up.wf(),
            up.depth() > 0,
            up.formula() == *cnf,
            before@.len() == cnf.spec_num_vars(),
        ensures
            final(self).wf(),
            final(self).positions() == old(self).positions(),
            final(self).spec_order() == old(self).spec_order(),
            is_prefix(old(self).nodes(), final(self).nodes()),
            final(self).has(r),
            is_conjoined(
                final(self).nodes(),
                final(self).num_vars(),
                r,
                sub,
                before@,
                up.top(),
                up.top().len() as int,
            ),
    {
        let ghost n = self.num_vars();
        let ghost nodes0 = self.nodes();
        let ghost pos = self.positions();
        let ghost order = self.spec_order();
        let ghost s = before@;
        let ghost s2 = up.top();
        let num = cnf.num_vars();
        proof {
            up.lemma_wf(up.depth() - 1, up.depth() - 1);
            assert(s2.len() == num);
            Self::lemma_conjoin_start(nodes0, n, sub, s, s2);
        }
        let mut conj = sub;
        let mut v: usize = 0;
        while v < num
            invariant
                v <= num,
                self.wf(),
                n == self.num_vars(),
                num <= n,
                self.positions() == pos,
                self.spec_order() == order,
                is_prefix(nodes0, self.nodes()),
                self.has(conj),
                self.has(sub),
                up.wf(),
                up.depth() > 0,
                s == before@,
                s2 == up.top(),
                s.len() == num,
                s2.len() == num,
                is_conjoined(self.nodes(), n, conj, sub, s, s2, v as int),
            decreases num - v,
        {
            let lbl = VarLabel::new(v as u64);
            let ghost prev = conj;
            let ghost nodes_a = self.nodes();
            let ghost mut lit_edge = BddPtr::PtrTrue;
            if before.get(lbl).is_none() {
                match up.get_assgn().get(lbl) {
                    Some(c) => {
                        let l = self.var(lbl, c);
                        proof {
                            assert forall|a: Seq<bool>| a.len() == n implies #[trigger] denotes(
                                self.nodes(),
                                l,
                                a,
                            ) == (a[v as int] == c) by {
                                assert(self.value(l, a) == (a[lbl.0 as int] == c));
                            }
                        }
                        let ghost nodes_b = self.nodes();
                        let next = self.and(conj, l);
                        proof {
                            lit_edge = l;
                            assert forall|a: Seq<bool>| a.len() == n implies #[trigger] denotes(
                                self.nodes(),
                                l,
                                a,
                            ) == (a[v as int] == c) by {
                                lemma_denotes_grows(nodes_b, self.nodes(), l, a);
                            }
                        }
                        conj = next;
                    },
                    None => {},
                }
            }
            proof {
                lemma_agreement_grows(nodes_a, self.nodes(), n, prev, sub, Seq::empty(), s, s2, v as int);
                lemma_conjoin_step(self.nodes(), n, sub, s, s2, v as int, prev, lit_edge, conj);
            }
            v += 1;
        }
        conj
    }

    proof fn lemma_conjoin_start(
        nodes: Seq<BddNode>,
        n: nat,
        sub: BddPtr,
        s: Seq<Option<bool>>,
        s2: Seq<Option<bool>>,
    )
        ensures
            is_conjoined(nodes, n, sub, sub, s, s2, 0),
    {
        reveal(is_conjoined);
    }

    /// The edge that agrees with the formula under the latest assignment of
    /// the propagator, which holds what propagation has made of the
    /// decisions so far.
    fn topdown_rec<'a>(&mut self, cnf: &'a Cnf, up: &mut UnitPropagate<'a>) -> (r: BddPtr)
        requires
            old(self).wf(),
            cnf.wf(),
            cnf.spec_num_vars() <= old(self).num_vars(),
            old(up).wf(),
            old(up).depth() > 0,
            old(up).settled(),
            old(up).formula() == *cnf,
        ensures
            final(self).wf(),
            final(self).positions() == old(self).positions(),
            final(self).spec_order() == old(self).spec_order(),
            is_prefix(old(self).nodes(), final(self).nodes()),
            final(self).has(r),
            final(up).wf(),
            final(up).frames() == old(up).frames(),
            final(up).settled(),
            final(up).formula() == *cnf,
            agrees_under(final(self).nodes(), final(self).num_vars(), r, cnf@, old(up).top()),
        decreases open_count(old(up).top(), cnf.spec_num_vars() as int), 1nat,
    {
        let ghost n = self.num_vars();
        let ghost cs = cnf@;
        let ghost s = up.top();
        let num = cnf.num_vars();
        proof {
            up.lemma_wf(up.depth() - 1, up.depth() - 1);
            self.lemma_wf();
        }
        if up.is_sat() {
            proof {
                lemma_satisfied_agrees(self.nodes(), n, cs, s);
            }
            return BddPtr::PtrTrue;
        }
        // the next variable in the order that has no value
        let places = self.get_order().num_vars();
        let mut found: Option<VarLabel> = None;
        let mut p: usize = 0;
        while p < places && found.is_none()
            invariant
                p <= places,
                places == n,
                self.spec_order().len() == n,
                self.wf(),
                up.wf(),
                up.depth() > 0,
                s == up.top(),
                s.len() == num,
                num <= n,
                found matches Some(x) ==> x.0 < num && s[x.0 as int] is None,
                found is None ==> forall|q: int|
                    0 <= q < p ==> (#[trigger] self.spec_order()[q]).0 >= num || s[self.spec_order()[q].0 as int] is Some,
            decreases places - p, (if found is None { 1int } else { 0int }),
        {
            let x = self.get_order().var_at_pos(p);
            if x.value() < num as u64 {
                if up.get_assgn().get(x).is_none() {
                    found = Some(x);
                }
            }
            p += 1;
        }
        match found {
            None => {
                proof {
                    // every variable of the formula has a value
                    assert forall|v: int| 0 <= v < s.len() implies (#[trigger] s[v]) is Some by {
                        self.lemma_place_of_variable(v);
                        let q = self.positions()[v] as int;
                        assert(self.spec_order()[q].0 == v);
                    }
                    assert(up.frame_settled(up.depth() - 1));
                    lemma_total_satisfies(cs, s);
                    lemma_satisfied_agrees(self.nodes(), n, cs, s);
                }
                BddPtr::PtrTrue
            },
            Some(x) => {
                let before = up.get_assgn().clone();
                let hi = self.branch(cnf, up, x, true, &before);
                let ghost nodes1 = self.nodes();
                let lo = self.branch(cnf, up, x, false, &before);
                let ghost nodes2 = self.nodes();
                let xe = self.var(x, true);
                let ghost nodes3 = self.nodes();
                proof {
                    assert forall|a: Seq<bool>| a.len() == n implies #[trigger] denotes(
                        nodes3,
                        xe,
                        a,
                    ) == a[x.0 as int] by {
                        assert(self.value(xe, a) == (a[x.0 as int] == true));
                    }
                }
                let r = self.ite(xe, hi, lo);
                proof {
                    let nodes4 = self.nodes();
                    let sh = s.update(x.0 as int, Some(true));
                    let sl = s.update(x.0 as int, Some(false));
                    lemma_agreement_grows(nodes1, nodes4, n, hi, hi, cs, sh, sh, 0);
                    lemma_agreement_grows(nodes2, nodes4, n, lo, lo, cs, sl, sl, 0);
                    assert forall|a: Seq<bool>| a.len() == n implies #[trigger] denotes(
                        nodes4,
                        xe,
                        a,
                    ) == a[x.0 as int] by {
                        lemma_denotes_grows(nodes3, nodes4, xe, a);
                    }
                    lemma_decision_agrees(nodes4, n, cs, s, x.0 as int, xe, hi, lo, r);
                }
                r
            },
        }
    }

    /// The edge that agrees with the formula under the latest assignment of
    /// the propagator with the variable `x` given the value `value`: false
    /// if propagation meets a conflict, and else what the rest of the
    /// decisions give, conjoined with the literals that propagation has
    /// added.
    fn branch<'a>(
        &mut self,
        cnf: &'a Cnf,
        up: &mut UnitPropagate<'a>,
        x: VarLabel,
        value: bool,
        before: &PartialModel,
    ) -> (r: BddPtr)
        requires
            old(self).wf(),
            cnf.wf(),
            cnf.spec_num_vars() <= old(self).num_vars(),
            old(up).wf(),
            old(up).depth() > 0,
            old(up).settled(),
            old(up).formula() == *cnf,
            before@ == old(up).top(),
            x.0 < cnf.spec_num_vars(),
            before@[x.0 as int] is None,
        ensures
            final(self).wf(),
            final(self).positions() == old(self).positions(),
            final(self).spec_order() == old(self).spec_order(),
            is_prefix(old(self).nodes(), final(self).nodes()),
            final(self).has(r),
            final(up).wf(),
            final(up).frames() == old(up).frames(),
            final(up).settled(),
            final(up).formula() == *cnf,
            agrees_under(
                final(self).nodes(),
                final(self).num_vars(),
                r,
                cnf@,
                before@.update(x.0 as int, Some(value)),
            ),
        decreases open_count(old(up).top(), cnf.spec_num_vars() as int), 0nat,
    {
        let ghost n = self.num_vars();
        let ghost cs = cnf@;
        let ghost s = up.top();
        let ghost num = cnf.spec_num_vars() as int;
        let ghost nodes0 = self.nodes();
        let lit = Literal::new(x, value);
        let ghost sx = s.update(x.0 as int, Some(value));
        proof {
            up.lemma_wf(up.depth() - 1, up.depth() - 1);
            lemma_lits_of_update(s, lit);
        }
        let ok = up.decide(lit);
        if !ok {
            up.backtrack();
            proof {
                lemma_conflict_agrees(nodes0, n, cs, sx);
            }
            return BddPtr::PtrFalse;
        }
        let ghost s2 = up.top();
        proof {
            up.lemma_wf(up.depth() - 1, up.depth() - 1);
            assert(extends(sx, s2));
            lemma_open_count_assign(s, x.0 as int, value, num);
            lemma_open_count_extends(sx, s2, num);
        }
        let sub = self.topdown_rec(cnf, up);
        let ghost nodes1 = self.nodes();
        let mut base = before.clone();
        base.set(x, value);
        let conj = self.conjoin_added(cnf, up, sub, &base);
        up.backtrack();
        proof {
            lemma_agreement_grows(nodes1, self.nodes(), n, sub, sub, cs, s2, s2, 0);
            lemma_propagated_agrees(self.nodes(), n, cs, sx, s2, sub, conj);
        }
        conj
    }
}

} // verus!
