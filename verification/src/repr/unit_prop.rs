//! Unit propagation over a formula, with two watched literals per clause.
//!
//! For the formula
//!
//! ```text
//!     c0             c1
//! (A \/ !B) /\ (C \/ !A \/ B)
//! ```
//!
//! the clause c0 may watch `A` and `!B`, and c1 may watch `C` and `!A`. A
//! clause is looked at only when one of the literals that it watches
//! becomes false. It then moves that watch to a literal that is still open,
//! or, where only one literal is open, yields that literal as implied, or,
//! where none is, reports a conflict.

use crate::repr::clause::clause_normal;
use crate::repr::cnf::{clause_seqs, labels_below, some_empty, Cnf};
use crate::repr::model::{
    extends, lemma_open_count_assign, lemma_open_count_extends, lit_false, lit_true,
    lit_unassigned, open_count, true_lits, PartialModel,
};
use crate::repr::propagation::{
    lemma_empty_clause_conflicts,
    clause_sat, conflict_free, forced, is_propagation_result, lemma_conflict_chain,
    lemma_forced_chain, others_refuted, propagation_consistent, refuted, unit_closed,
};
use crate::repr::var_label::Literal;
use vstd::prelude::*;

verus! {

/// The watch lists as values: `pos[v]` holds the clauses that watch the
/// variable `v`, and `neg[v]` those that watch its negation.
struct Watches {
    pos: Seq<Seq<usize>>,
    neg: Seq<Seq<usize>>,
}

/// The watch lists that two vectors of lists hold.
spec fn watches_of(pos: Seq<Vec<usize>>, neg: Seq<Vec<usize>>) -> Watches {
    Watches {
        pos: Seq::new(pos.len(), |v: int| pos[v]@),
        neg: Seq::new(neg.len(), |v: int| neg[v]@),
    }
}

/// The clauses that watch the literal `l`.
spec fn watch_list(w: Watches, l: Literal) -> Seq<usize> {
    if l.polarity {
        w.pos[l.var()]
    } else {
        w.neg[l.var()]
    }
}

/// The clause numbered `c` watches the literal `l`.
spec fn watches(w: Watches, c: int, l: Literal) -> bool {
    &&& 0 <= l.var() < w.pos.len()
    &&& 0 <= l.var() < w.neg.len()
    &&& exists|x: int| 0 <= x < watch_list(w, l).len() && #[trigger] watch_list(w, l)[x] == c
}

/// The clause numbered `c` stands in the watch list of `l` at `start` or
/// behind it.
spec fn listed_from(w: Watches, l: Literal, start: int, c: int) -> bool {
    exists|x: int| start <= x < watch_list(w, l).len() && #[trigger] watch_list(w, l)[x] == c
}

/// The literal is open in `a`, or it is the one literal set aside.
spec fn open_or(a: Seq<Option<bool>>, l: Literal, spare: Option<Literal>) -> bool {
    lit_unassigned(a, l) || spare == Some(l)
}

/// The clause watches two different literals of its own, each open in `a`
/// or set aside.
spec fn two_watched(
    c: Seq<Literal>,
    k: int,
    a: Seq<Option<bool>>,
    w: Watches,
    spare: Option<Literal>,
) -> bool {
    exists|w1: Literal, w2: Literal|
        w1 != w2 && c.contains(w1) && c.contains(w2) && #[trigger] watches(w, k, w1)
            && #[trigger] watches(w, k, w2) && open_or(a, w1, spare) && open_or(a, w2, spare)
}

/// The clause is satisfied in `a`, or it watches two different literals,
/// each open in `a` or set aside.
spec fn clause_good(
    cs: Seq<Seq<Literal>>,
    k: int,
    a: Seq<Option<bool>>,
    w: Watches,
    spare: Option<Literal>,
) -> bool {
    clause_sat(cs[k], a) || two_watched(cs[k], k, a, w, spare)
}

/// The clause holds a literal of `p`.
spec fn excused(c: Seq<Literal>, p: Set<Literal>) -> bool {
    exists|i: int| 0 <= i < c.len() && p.contains(#[trigger] c[i])
}

/// Each of the first `n` clauses is in order in `a`, or holds a literal of
/// `p`.
#[verifier::opaque]
spec fn good_upto(
    cs: Seq<Seq<Literal>>,
    n: int,
    a: Seq<Option<bool>>,
    w: Watches,
    p: Set<Literal>,
) -> bool {
    forall|k: int| 0 <= k < n ==> #[trigger] clause_good(cs, k, a, w, None) || excused(cs[k], p)
}

/// Every clause is in order in `a`, or holds a literal of `p`.
spec fn good_but(cs: Seq<Seq<Literal>>, a: Seq<Option<bool>>, w: Watches, p: Set<Literal>) -> bool {
    good_upto(cs, cs.len() as int, a, w, p)
}

/// Every clause is in order in `a`.
spec fn all_good(cs: Seq<Seq<Literal>>, a: Seq<Option<bool>>, w: Watches) -> bool {
    good_but(cs, a, w, Set::empty())
}

/// Every clause is in a state that the scan of the watchers of `from`
/// allows, with the scan at `start`.
#[verifier::opaque]
spec fn scan_all(
    cs: Seq<Seq<Literal>>,
    a: Seq<Option<bool>>,
    w: Watches,
    from: Literal,
    start: int,
    p: Set<Literal>,
) -> bool {
    forall|k: int| 0 <= k < cs.len() ==> #[trigger] scan_ok(cs, k, a, w, from, start, p)
}

/// Each of the assignments `lower` in which every clause is in order with
/// the watches `w` has every clause in order with the watches `w2` too.
#[verifier::opaque]
spec fn lower_kept(
    cs: Seq<Seq<Literal>>,
    lower: Seq<Seq<Option<bool>>>,
    w: Watches,
    w2: Watches,
) -> bool {
    forall|k: int|
        0 <= k < lower.len() && all_good(cs, #[trigger] lower[k], w) ==> all_good(
            cs,
            lower[k],
            w2,
        )
}

/// Every assignment of `lower` is extended by `a`.
spec fn all_below(lower: Seq<Seq<Option<bool>>>, a: Seq<Option<bool>>) -> bool {
    forall|k: int| 0 <= k < lower.len() ==> extends(#[trigger] lower[k], a)
}

/// The state of a clause while the watchers of `from` are gone through: in
/// order, or excused by `p`, or in order but for `from` and still to come.
spec fn scan_ok(
    cs: Seq<Seq<Literal>>,
    k: int,
    a: Seq<Option<bool>>,
    w: Watches,
    from: Literal,
    start: int,
    p: Set<Literal>,
) -> bool {
    clause_good(cs, k, a, w, None) || excused(cs[k], p) || (clause_good(cs, k, a, w, Some(from))
        && listed_from(w, from, start, k))
}

/// `w2` is `w` after the watch at `idx` in the list of `from` has moved to
/// the list of `to`.
spec fn moved(w: Watches, w2: Watches, from: Literal, idx: int, to: Literal) -> bool {
    &&& w2.pos.len() == w.pos.len()
    &&& w2.neg.len() == w.neg.len()
    &&& watch_list(w2, from) == watch_list(w, from).update(
        idx,
        watch_list(w, from).last(),
    ).drop_last()
    &&& watch_list(w2, to) == watch_list(w, to).push(watch_list(w, from)[idx])
    &&& forall|l: Literal|
        l != from && l != to && 0 <= l.var() < w.pos.len() ==> #[trigger] watch_list(w2, l)
            == watch_list(w, l)
}

/// The literals of `s` at `i` and behind it.
spec fn tail_set(s: Seq<Literal>, i: int) -> Set<Literal> {
    Set::new(|l: Literal| exists|j: int| i <= j < s.len() && #[trigger] s[j] == l)
}

proof fn lemma_true_lits_assign(a: Seq<Option<bool>>, lit: Literal)
    requires
        lit_unassigned(a, lit),
    ensures
        true_lits(a.update(lit.var(), Some(lit.polarity))) == true_lits(a).insert(lit),
        extends(a, a.update(lit.var(), Some(lit.polarity))),
{
    let b = a.update(lit.var(), Some(lit.polarity));
    assert forall|l: Literal| true_lits(b).contains(l) <==> true_lits(a).insert(lit).contains(
        l,
    ) by {
        if l.var() == lit.var() {
            assert(l.label.0 == lit.label.0);
            assert(l.label == lit.label);
        }
    }
    assert(true_lits(b) =~= true_lits(a).insert(lit));
}

proof fn lemma_extends_true_lits(a: Seq<Option<bool>>, b: Seq<Option<bool>>)
    requires
        extends(a, b),
    ensures
        true_lits(a).subset_of(true_lits(b)),
{
}

/// What the watches that held before say once `lit` has a value.
proof fn lemma_assign_good(
    cs: Seq<Seq<Literal>>,
    k: int,
    a: Seq<Option<bool>>,
    w: Watches,
    lit: Literal,
)
    requires
        0 <= k < cs.len(),
        lit_unassigned(a, lit),
        clause_good(cs, k, a, w, None),
    ensures
        ({
            let b = a.update(lit.var(), Some(lit.polarity));
            clause_good(cs, k, b, w, None) || (clause_good(cs, k, b, w, Some(lit.negated()))
                && listed_from(w, lit.negated(), 0, k))
        }),
{
    let b = a.update(lit.var(), Some(lit.polarity));
    let c = cs[k];
    let from = lit.negated();
    if clause_sat(c, a) {
        let i = choose|i: int| 0 <= i < c.len() && lit_true(a, #[trigger] c[i]);
        assert(lit_true(b, c[i]));
    } else {
        let (w1, w2) = choose|w1: Literal, w2: Literal|
            w1 != w2 && c.contains(w1) && c.contains(w2) && #[trigger] watches(w, k, w1)
                && #[trigger] watches(w, k, w2) && open_or(a, w1, None) && open_or(a, w2, None);
        if w1 == lit || w2 == lit {
            let i = choose|i: int| 0 <= i < c.len() && c[i] == lit;
            assert(lit_true(b, c[i]));
        } else {
            assert(w1.var() == lit.var() ==> w1 == from) by {
                if w1.var() == lit.var() {
                    assert(w1.label.0 == lit.label.0);
                }
            }
            assert(w2.var() == lit.var() ==> w2 == from) by {
                if w2.var() == lit.var() {
                    assert(w2.label.0 == lit.label.0);
                }
            }
            assert(open_or(b, w1, Some(from)));
            assert(open_or(b, w2, Some(from)));
            assert(two_watched(c, k, b, w, Some(from)));
            if w1 == from || w2 == from {
                assert(watches(w, k, from));
                let x = choose|x: int|
                    0 <= x < watch_list(w, from).len() && #[trigger] watch_list(w, from)[x] == k;
                assert(listed_from(w, from, 0, k));
            } else {
                assert(open_or(b, w1, None));
                assert(open_or(b, w2, None));
                assert(two_watched(c, k, b, w, None));
            }
        }
    }
}

/// Which watches a move keeps.
proof fn lemma_moved_watches(w: Watches, w2: Watches, from: Literal, idx: int, to: Literal)
    requires
        moved(w, w2, from, idx, to),
        from != to,
        0 <= from.var() < w.pos.len(),
        0 <= to.var() < w.pos.len(),
        w.pos.len() == w.neg.len(),
        0 <= idx < watch_list(w, from).len(),
    ensures
        forall|c: int, l: Literal| l != from && #[trigger] watches(w, c, l) ==> watches(w2, c, l),
        forall|c: int|
            c != watch_list(w, from)[idx] && #[trigger] watches(w, c, from) ==> watches(
                w2,
                c,
                from,
            ),
        watches(w2, watch_list(w, from)[idx] as int, to),
        forall|c: int|
            c != watch_list(w, from)[idx] && #[trigger] listed_from(w, from, idx, c)
                ==> listed_from(w2, from, idx, c),
{
    let c0 = watch_list(w, from)[idx];
    let lf = watch_list(w, from);
    let lf2 = watch_list(w2, from);
    assert forall|c: int, l: Literal| l != from && #[trigger] watches(w, c, l) implies watches(
        w2,
        c,
        l,
    ) by {
        let x = choose|x: int| 0 <= x < watch_list(w, l).len() && #[trigger] watch_list(w, l)[x] == c;
        if l == to {
            assert(watch_list(w2, l)[x] == c);
        } else {
            assert(watch_list(w2, l) == watch_list(w, l));
            assert(watch_list(w2, l)[x] == c);
        }
    }
    assert forall|c: int| c != c0 && #[trigger] listed_from(w, from, idx, c) implies listed_from(
        w2,
        from,
        idx,
        c,
    ) by {
        let x = choose|x: int| idx <= x < lf.len() && #[trigger] lf[x] == c;
        if x == lf.len() - 1 {
            assert(lf2[idx] == c);
        } else {
            assert(lf2[x] == c);
        }
    }
    assert forall|c: int| c != c0 && #[trigger] watches(w, c, from) implies watches(
        w2,
        c,
        from,
    ) by {
        let x = choose|x: int| 0 <= x < lf.len() && #[trigger] lf[x] == c;
        if x == lf.len() - 1 {
            assert(lf2[idx] == c);
        } else {
            assert(lf2[x] == c);
        }
    }
    assert(watch_list(w2, to)[watch_list(w, to).len() as int] == c0);
}

/// The clause whose watch moves is in order afterwards, in every
/// assignment in which the new watch is open.
proof fn lemma_move_good(
    cs: Seq<Seq<Literal>>,
    a: Seq<Option<bool>>,
    w: Watches,
    w2: Watches,
    from: Literal,
    idx: int,
    to: Literal,
    x: Literal,
)
    requires
        moved(w, w2, from, idx, to),
        from != to,
        0 <= from.var() < w.pos.len(),
        0 <= to.var() < w.pos.len(),
        w.pos.len() == w.neg.len(),
        0 <= idx < watch_list(w, from).len(),
        0 <= watch_list(w, from)[idx] < cs.len(),
        clause_good(cs, watch_list(w, from)[idx] as int, a, w, Some(from)),
        cs[watch_list(w, from)[idx] as int].contains(to),
        lit_unassigned(a, to),
        !watches(w, watch_list(w, from)[idx] as int, to) || (x != to && x != from
            && cs[watch_list(w, from)[idx] as int].contains(x) && lit_unassigned(a, x) && watches(
            w,
            watch_list(w, from)[idx] as int,
            x,
        )),
    ensures
        clause_good(cs, watch_list(w, from)[idx] as int, a, w2, None),
{
    let k = watch_list(w, from)[idx] as int;
    let c = cs[k];
    lemma_moved_watches(w, w2, from, idx, to);
    if !clause_sat(c, a) {
        let (w1, w2l) = choose|w1: Literal, w2l: Literal|
            w1 != w2l && c.contains(w1) && c.contains(w2l) && #[trigger] watches(w, k, w1)
                && #[trigger] watches(w, k, w2l) && open_or(a, w1, Some(from)) && open_or(
                a,
                w2l,
                Some(from),
            );
        assert(watches(w2, k, to));
        if w1 != from && w2l != from {
            assert(watches(w2, k, w1));
            assert(watches(w2, k, w2l));
            assert(open_or(a, w1, None));
            assert(open_or(a, w2l, None));
        } else {
            let other = if w1 == from {
                w2l
            } else {
                w1
            };
            assert(other != from);
            assert(watches(w, k, other));
            assert(watches(w2, k, other));
            assert(open_or(a, other, None));
            assert(open_or(a, to, None));
            if to != other {
                assert(two_watched(c, k, a, w2, None));
            } else {
                assert(watches(w, k, to));
                assert(watches(w2, k, x));
                assert(open_or(a, x, None));
                assert(two_watched(c, k, a, w2, None));
            }
        }
    }
}

/// A clause whose watches stay is in order after a move if it was before.
proof fn lemma_move_other(
    cs: Seq<Seq<Literal>>,
    a: Seq<Option<bool>>,
    w: Watches,
    w2: Watches,
    from: Literal,
    idx: int,
    to: Literal,
    k: int,
    spare: Option<Literal>,
)
    requires
        moved(w, w2, from, idx, to),
        from != to,
        0 <= from.var() < w.pos.len(),
        0 <= to.var() < w.pos.len(),
        w.pos.len() == w.neg.len(),
        0 <= idx < watch_list(w, from).len(),
        0 <= k < cs.len(),
        k != watch_list(w, from)[idx],
        clause_good(cs, k, a, w, spare),
    ensures
        clause_good(cs, k, a, w2, spare),
{
    let c = cs[k];
    lemma_moved_watches(w, w2, from, idx, to);
    if !clause_sat(c, a) {
        let (w1, w2l) = choose|w1: Literal, w2l: Literal|
            w1 != w2l && c.contains(w1) && c.contains(w2l) && #[trigger] watches(w, k, w1)
                && #[trigger] watches(w, k, w2l) && open_or(a, w1, spare) && open_or(
                a,
                w2l,
                spare,
            );
        assert(watches(w2, k, w1));
        assert(watches(w2, k, w2l));
    }
}

/// A clause with one open literal and the others false forces that literal.
proof fn lemma_unit_forced(
    cs: Seq<Seq<Literal>>,
    k: int,
    i: int,
    a: Seq<Option<bool>>,
    u: Set<Literal>,
)
    requires
        0 <= k < cs.len(),
        0 <= i < cs[k].len(),
        forall|j: int| 0 <= j < cs[k].len() ==> 0 <= (#[trigger] cs[k][j]).var() < a.len(),
        !clause_sat(cs[k], a),
        forall|j: int| 0 <= j < cs[k].len() && j != i ==> !lit_unassigned(a, #[trigger] cs[k][j]),
        true_lits(a).subset_of(u),
        unit_closed(cs, u),
    ensures
        u.contains(cs[k][i]),
{
    let c = cs[k];
    assert forall|j: int| 0 <= j < c.len() && c[j] != c[i] implies u.contains(
        (#[trigger] c[j]).negated(),
    ) by {
        assert(!lit_true(a, c[j]));
        assert(!lit_unassigned(a, c[j]));
        let v = c[j].var();
        assert(0 <= v < a.len());
        assert(c[j].negated().var() == v);
        assert(a[v] is Some);
        assert(a[v] != Some(c[j].polarity));
        assert(a[v] == Some(!c[j].polarity));
        assert(lit_true(a, c[j].negated()));
        assert(true_lits(a).contains(c[j].negated()));
    }
    assert(others_refuted(c, i, u));
}

/// A clause with every literal false rules out every set above the
/// assignment.
proof fn lemma_refuted_conflict(cs: Seq<Seq<Literal>>, k: int, a: Seq<Option<bool>>)
    requires
        0 <= k < cs.len(),
        forall|j: int| 0 <= j < cs[k].len() ==> 0 <= (#[trigger] cs[k][j]).var() < a.len(),
        !clause_sat(cs[k], a),
        forall|j: int| 0 <= j < cs[k].len() ==> !lit_unassigned(a, #[trigger] cs[k][j]),
    ensures
        !propagation_consistent(cs, true_lits(a)),
{
    let c = cs[k];
    assert forall|t: Set<Literal>| true_lits(a).subset_of(t) implies !conflict_free(cs, t) by {
        assert forall|j: int| 0 <= j < c.len() implies t.contains((#[trigger] c[j]).negated()) by {
            assert(!lit_true(a, c[j]));
            assert(!lit_unassigned(a, c[j]));
            let v = c[j].var();
            assert(0 <= v < a.len());
            assert(c[j].negated().var() == v);
            assert(a[v] is Some);
            assert(a[v] != Some(c[j].polarity));
            assert(a[v] == Some(!c[j].polarity));
            assert(lit_true(a, c[j].negated()));
            assert(true_lits(a).contains(c[j].negated()));
        }
        assert(refuted(cs[k], t));
    }
}

/// Where every clause is in order, the assignment is a fixpoint of unit
/// propagation and free of conflict.
proof fn lemma_all_good_closed(cs: Seq<Seq<Literal>>, a: Seq<Option<bool>>, w: Watches)
    requires
        all_good(cs, a, w),
        labels_below(cs, a.len() as int),
    ensures
        unit_closed(cs, true_lits(a)),
        conflict_free(cs, true_lits(a)),
{
    let t = true_lits(a);
    reveal(good_upto);
    assert forall|k: int| 0 <= k < cs.len() implies #[trigger] clause_good(cs, k, a, w, None) by {
        assert(clause_good(cs, k, a, w, None) || excused(cs[k], Set::<Literal>::empty()));
    }
    assert forall|k: int, i: int|
        0 <= k < cs.len() && 0 <= i < cs[k].len() && others_refuted(cs[k], i, t) implies t.contains(
        #[trigger] cs[k][i],
    ) by {
        let c = cs[k];
        assert(clause_good(cs, k, a, w, None));
        if clause_sat(c, a) {
            let j = choose|j: int| 0 <= j < c.len() && lit_true(a, #[trigger] c[j]);
            if c[j] != c[i] {
                assert(t.contains(c[j].negated()));
            }
        } else {
            let (w1, w2) = choose|w1: Literal, w2: Literal|
                w1 != w2 && c.contains(w1) && c.contains(w2) && #[trigger] watches(w, k, w1)
                    && #[trigger] watches(w, k, w2) && open_or(a, w1, None) && open_or(
                    a,
                    w2,
                    None,
                );
            let other = if w1 == c[i] {
                w2
            } else {
                w1
            };
            let j = choose|j: int| 0 <= j < c.len() && c[j] == other;
            assert(t.contains(c[j].negated()));
        }
    }
    assert forall|k: int| 0 <= k < cs.len() implies !refuted(#[trigger] cs[k], t) by {
        let c = cs[k];
        assert(clause_good(cs, k, a, w, None));
        if clause_sat(c, a) {
            let j = choose|j: int| 0 <= j < c.len() && lit_true(a, #[trigger] c[j]);
            assert(!t.contains(c[j].negated()));
        } else {
            let (w1, w2) = choose|w1: Literal, w2: Literal|
                w1 != w2 && c.contains(w1) && c.contains(w2) && #[trigger] watches(w, k, w1)
                    && #[trigger] watches(w, k, w2) && open_or(a, w1, None) && open_or(
                    a,
                    w2,
                    None,
                );
            let j = choose|j: int| 0 <= j < c.len() && c[j] == w1;
            assert(!t.contains(c[j].negated()));
        }
    }
}

/// Once the literal is set, what is true is what was true and the literal.
proof fn lemma_forced_base(
    cs: Seq<Seq<Literal>>,
    a: Seq<Option<bool>>,
    lit: Literal,
    b: Seq<Option<bool>>,
)
    requires
        true_lits(b) == true_lits(a).insert(lit),
    ensures
        forced(cs, true_lits(a).insert(lit), true_lits(b)),
{
}

/// A wider set of excuses excuses more.
proof fn lemma_good_weaken(
    cs: Seq<Seq<Literal>>,
    n: int,
    a: Seq<Option<bool>>,
    w: Watches,
    p: Set<Literal>,
    wider: Set<Literal>,
)
    requires
        good_upto(cs, n, a, w, p),
        p.subset_of(wider),
    ensures
        good_upto(cs, n, a, w, wider),
{
    reveal(good_upto);
    assert forall|k: int| 0 <= k < n implies #[trigger] clause_good(cs, k, a, w, None) || excused(
        cs[k],
        wider,
    ) by {
        if excused(cs[k], p) {
            let i = choose|i: int| 0 <= i < cs[k].len() && p.contains(#[trigger] cs[k][i]);
            assert(wider.contains(cs[k][i]));
        }
    }
}

/// A literal that is true already excuses nothing.
proof fn lemma_set_known(
    cs: Seq<Seq<Literal>>,
    a: Seq<Option<bool>>,
    w: Watches,
    lit: Literal,
    pending: Set<Literal>,
)
    requires
        lit_true(a, lit),
        good_but(cs, a, w, pending.insert(lit)),
    ensures
        good_but(cs, a, w, pending),
{
    reveal(good_upto);
    assert forall|k: int| 0 <= k < cs.len() implies #[trigger] clause_good(cs, k, a, w, None)
        || excused(cs[k], pending) by {
        if excused(cs[k], pending.insert(lit)) {
            let i = choose|i: int|
                0 <= i < cs[k].len() && pending.insert(lit).contains(#[trigger] cs[k][i]);
            if cs[k][i] == lit {
                assert(lit_true(a, cs[k][i]));
            } else {
                assert(pending.contains(cs[k][i]));
            }
        }
    }
}

/// Setting a literal that is false already is a conflict.
proof fn lemma_conflict_known(cs: Seq<Seq<Literal>>, a: Seq<Option<bool>>, lit: Literal)
    requires
        lit_false(a, lit),
    ensures
        !propagation_consistent(cs, true_lits(a).insert(lit)),
{
    let base = true_lits(a).insert(lit);
    assert(true_lits(a).contains(lit.negated()));
    assert forall|t: Set<Literal>| base.subset_of(t) implies !conflict_free(cs, t) by {
        assert(t.contains(lit));
        assert(t.contains(lit.negated()));
    }
}

/// The scan starts with every clause in a state that it allows.
proof fn lemma_scan_start(
    cs: Seq<Seq<Literal>>,
    a: Seq<Option<bool>>,
    w: Watches,
    lit: Literal,
    pending: Set<Literal>,
)
    requires
        lit_unassigned(a, lit),
        good_but(cs, a, w, pending.insert(lit)),
    ensures
        scan_all(
            cs,
            a.update(lit.var(), Some(lit.polarity)),
            w,
            lit.negated(),
            0,
            pending.union(tail_set(Seq::empty(), 0)),
        ),
{
    reveal(good_upto);
    reveal(scan_all);
    let b = a.update(lit.var(), Some(lit.polarity));
    let p = pending.union(tail_set(Seq::empty(), 0));
    assert forall|k: int| 0 <= k < cs.len() implies #[trigger] scan_ok(
        cs,
        k,
        b,
        w,
        lit.negated(),
        0,
        p,
    ) by {
        assert(clause_good(cs, k, a, w, None) || excused(cs[k], pending.insert(lit)));
        if clause_good(cs, k, a, w, None) {
            lemma_assign_good(cs, k, a, w, lit);
        } else {
            let i = choose|i: int|
                0 <= i < cs[k].len() && pending.insert(lit).contains(#[trigger] cs[k][i]);
            if cs[k][i] == lit {
                assert(lit_true(b, cs[k][i]));
            } else {
                assert(p.contains(cs[k][i]));
            }
        }
    }
}

/// Going past a clause that is satisfied.
proof fn lemma_scan_sat(
    cs: Seq<Seq<Literal>>,
    a: Seq<Option<bool>>,
    w: Watches,
    from: Literal,
    idx: int,
    p: Set<Literal>,
)
    requires
        scan_all(cs, a, w, from, idx, p),
        0 <= idx < watch_list(w, from).len(),
        0 <= watch_list(w, from)[idx] < cs.len(),
        clause_sat(cs[watch_list(w, from)[idx] as int], a),
    ensures
        scan_all(cs, a, w, from, idx + 1, p),
{
    reveal(scan_all);
    assert forall|k: int| 0 <= k < cs.len() implies #[trigger] scan_ok(
        cs,
        k,
        a,
        w,
        from,
        idx + 1,
        p,
    ) by {
        assert(scan_ok(cs, k, a, w, from, idx, p));
        lemma_scan_skip(cs, k, a, w, from, idx, p);
    }
}

/// Going past a clause that has yielded an implied literal.
proof fn lemma_scan_unit(
    cs: Seq<Seq<Literal>>,
    a: Seq<Option<bool>>,
    w: Watches,
    from: Literal,
    idx: int,
    p: Set<Literal>,
    wider: Set<Literal>,
    i: int,
)
    requires
        scan_all(cs, a, w, from, idx, p),
        0 <= idx < watch_list(w, from).len(),
        0 <= watch_list(w, from)[idx] < cs.len(),
        0 <= i < cs[watch_list(w, from)[idx] as int].len(),
        p.subset_of(wider),
        wider.contains(cs[watch_list(w, from)[idx] as int][i]),
    ensures
        scan_all(cs, a, w, from, idx + 1, wider),
{
    reveal(scan_all);
    let k0 = watch_list(w, from)[idx] as int;
    assert forall|k: int| 0 <= k < cs.len() implies #[trigger] scan_ok(
        cs,
        k,
        a,
        w,
        from,
        idx + 1,
        wider,
    ) by {
        assert(scan_ok(cs, k, a, w, from, idx, p));
        if k == k0 {
            assert(wider.contains(cs[k][i]));
            assert(excused(cs[k], wider));
        } else {
            if excused(cs[k], p) {
                let j = choose|j: int| 0 <= j < cs[k].len() && p.contains(#[trigger] cs[k][j]);
                assert(wider.contains(cs[k][j]));
            } else {
                lemma_scan_skip(cs, k, a, w, from, idx, p);
            }
        }
    }
}

/// Moving the watch of the clause that the scan is at.
proof fn lemma_scan_move(
    cs: Seq<Seq<Literal>>,
    a: Seq<Option<bool>>,
    w: Watches,
    w2: Watches,
    from: Literal,
    idx: int,
    to: Literal,
    x: Literal,
    p: Set<Literal>,
)
    requires
        scan_all(cs, a, w, from, idx, p),
        moved(w, w2, from, idx, to),
        from != to,
        0 <= from.var() < w.pos.len(),
        0 <= to.var() < w.pos.len(),
        w.pos.len() == w.neg.len(),
        0 <= idx < watch_list(w, from).len(),
        0 <= watch_list(w, from)[idx] < cs.len(),
        cs[watch_list(w, from)[idx] as int].contains(to),
        lit_unassigned(a, to),
        !watches(w, watch_list(w, from)[idx] as int, to) || (x != to && x != from
            && cs[watch_list(w, from)[idx] as int].contains(x) && lit_unassigned(a, x) && watches(
            w,
            watch_list(w, from)[idx] as int,
            x,
        )),
    ensures
        scan_all(cs, a, w2, from, idx, p),
{
    reveal(scan_all);
    let k0 = watch_list(w, from)[idx] as int;
    lemma_moved_watches(w, w2, from, idx, to);
    assert forall|k: int| 0 <= k < cs.len() implies #[trigger] scan_ok(
        cs,
        k,
        a,
        w2,
        from,
        idx,
        p,
    ) by {
        assert(scan_ok(cs, k, a, w, from, idx, p));
        if excused(cs[k], p) {
        } else if k == k0 {
            if clause_good(cs, k, a, w, None) {
                lemma_spare_weaker(cs, k, a, w, from);
            }
            lemma_move_good(cs, a, w, w2, from, idx, to, x);
        } else {
            if clause_good(cs, k, a, w, None) {
                lemma_move_other(cs, a, w, w2, from, idx, to, k, None);
            } else {
                lemma_move_other(cs, a, w, w2, from, idx, to, k, Some(from));
                assert(listed_from(w, from, idx, k));
                assert(listed_from(w2, from, idx, k));
            }
        }
    }
}

/// At the end of the scan every clause is in order or excused.
proof fn lemma_scan_done(
    cs: Seq<Seq<Literal>>,
    a: Seq<Option<bool>>,
    w: Watches,
    from: Literal,
    idx: int,
    p: Set<Literal>,
)
    requires
        scan_all(cs, a, w, from, idx, p),
        idx >= watch_list(w, from).len(),
    ensures
        good_but(cs, a, w, p),
{
    reveal(scan_all);
    reveal(good_upto);
    assert forall|k: int| 0 <= k < cs.len() implies #[trigger] clause_good(cs, k, a, w, None)
        || excused(cs[k], p) by {
        assert(scan_ok(cs, k, a, w, from, idx, p));
    }
}

/// Moving a watch to a literal that is open in `top` keeps in order what
/// was in order in the assignments below `top`.
proof fn lemma_lower_move(
    cs: Seq<Seq<Literal>>,
    lower: Seq<Seq<Option<bool>>>,
    top: Seq<Option<bool>>,
    w0: Watches,
    w: Watches,
    w2: Watches,
    from: Literal,
    idx: int,
    to: Literal,
    x: Literal,
)
    requires
        lower_kept(cs, lower, w0, w),
        all_below(lower, top),
        moved(w, w2, from, idx, to),
        from != to,
        0 <= from.var() < w.pos.len(),
        0 <= to.var() < w.pos.len(),
        w.pos.len() == w.neg.len(),
        0 <= idx < watch_list(w, from).len(),
        0 <= watch_list(w, from)[idx] < cs.len(),
        cs[watch_list(w, from)[idx] as int].contains(to),
        lit_unassigned(top, to),
        !watches(w, watch_list(w, from)[idx] as int, to) || (x != to && x != from
            && cs[watch_list(w, from)[idx] as int].contains(x) && lit_unassigned(top, x)
            && watches(w, watch_list(w, from)[idx] as int, x)),
    ensures
        lower_kept(cs, lower, w0, w2),
{
    reveal(lower_kept);
    let k0 = watch_list(w, from)[idx] as int;
    assert forall|k: int| 0 <= k < lower.len() && all_good(cs, #[trigger] lower[k], w0) implies all_good(
        cs,
        lower[k],
        w2,
    ) by {
        let f = lower[k];
        assert(all_good(cs, f, w));
        assert(extends(f, top));
        assert(lit_unassigned(f, to));
        reveal(good_upto);
        assert forall|c: int| 0 <= c < cs.len() implies #[trigger] clause_good(
            cs,
            c,
            f,
            w2,
            None,
        ) || excused(cs[c], Set::<Literal>::empty()) by {
            assert(clause_good(cs, c, f, w, None) || excused(cs[c], Set::<Literal>::empty()));
            assert(clause_good(cs, c, f, w, None));
            if c == k0 {
                lemma_spare_weaker(cs, c, f, w, from);
                if watches(w, k0, to) {
                    assert(lit_unassigned(f, x));
                }
                lemma_move_good(cs, f, w, w2, from, idx, to, x);
            } else {
                lemma_move_other(cs, f, w, w2, from, idx, to, c, None);
            }
        }
    }
}

proof fn lemma_lower_same(cs: Seq<Seq<Literal>>, lower: Seq<Seq<Option<bool>>>, w: Watches)
    ensures
        lower_kept(cs, lower, w, w),
{
    reveal(lower_kept);
}

proof fn lemma_lower_chain(
    cs: Seq<Seq<Literal>>,
    lower: Seq<Seq<Option<bool>>>,
    w1: Watches,
    w2: Watches,
    w3: Watches,
)
    requires
        lower_kept(cs, lower, w1, w2),
        lower_kept(cs, lower, w2, w3),
    ensures
        lower_kept(cs, lower, w1, w3),
{
    reveal(lower_kept);
}

proof fn lemma_lower_use(
    cs: Seq<Seq<Literal>>,
    lower: Seq<Seq<Option<bool>>>,
    w1: Watches,
    w2: Watches,
    k: int,
)
    requires
        lower_kept(cs, lower, w1, w2),
        0 <= k < lower.len(),
        all_good(cs, lower[k], w1),
    ensures
        all_good(cs, lower[k], w2),
{
    reveal(lower_kept);
}

/// A literal that a unit clause yields is forced, with those before it.
proof fn lemma_forced_push(
    cs: Seq<Seq<Literal>>,
    base: Set<Literal>,
    a: Seq<Option<bool>>,
    before: Seq<Literal>,
    k: int,
    i: int,
)
    requires
        forced(cs, base, tail_set(before, 0)),
        true_lits(a).subset_of(base),
        0 <= k < cs.len(),
        0 <= i < cs[k].len(),
        forall|j: int| 0 <= j < cs[k].len() ==> 0 <= (#[trigger] cs[k][j]).var() < a.len(),
        !clause_sat(cs[k], a),
        forall|j: int| 0 <= j < cs[k].len() && j != i ==> !lit_unassigned(a, #[trigger] cs[k][j]),
    ensures
        forced(cs, base, tail_set(before.push(cs[k][i]), 0)),
        tail_set(before, 0).subset_of(tail_set(before.push(cs[k][i]), 0)),
        tail_set(before.push(cs[k][i]), 0).contains(cs[k][i]),
{
    let after = before.push(cs[k][i]);
    let t = tail_set(before, 0);
    let t2 = tail_set(after, 0);
    assert(after[before.len() as int] == cs[k][i]);
    assert(t2.contains(cs[k][i]));
    assert forall|l: Literal| t.contains(l) implies t2.contains(l) by {
        let j = choose|j: int| 0 <= j < before.len() && #[trigger] before[j] == l;
        assert(after[j] == l);
    }
    assert forall|u: Set<Literal>| base.subset_of(u) && #[trigger] unit_closed(
        cs,
        u,
    ) implies t2.subset_of(u) by {
        assert(t.subset_of(u));
        lemma_unit_forced(cs, k, i, a, u);
        assert forall|l: Literal| t2.contains(l) implies u.contains(l) by {
            let j = choose|j: int| 0 <= j < after.len() && #[trigger] after[j] == l;
            if j < before.len() {
                assert(before[j] == l);
                assert(t.contains(l));
            }
        }
    }
}

/// What the next implied literal adds to the base and takes from the
/// excuses.
proof fn lemma_next_implied(
    cs: Seq<Seq<Literal>>,
    base: Set<Literal>,
    top: Seq<Option<bool>>,
    implied: Seq<Literal>,
    i: int,
    pending: Set<Literal>,
)
    requires
        0 <= i < implied.len(),
        forced(cs, base, tail_set(implied, 0)),
        forced(cs, base, true_lits(top)),
    ensures
        forced(cs, base, true_lits(top).insert(implied[i])),
        pending.union(tail_set(implied, i + 1)).insert(implied[i]) == pending.union(
            tail_set(implied, i),
        ),
{
    let l = implied[i];
    let rest = pending.union(tail_set(implied, i + 1));
    let all = pending.union(tail_set(implied, i));
    assert forall|x: Literal| rest.insert(l).contains(x) <==> all.contains(x) by {
        if tail_set(implied, i + 1).contains(x) {
            let j = choose|j: int| i + 1 <= j < implied.len() && #[trigger] implied[j] == x;
            assert(tail_set(implied, i).contains(x));
        }
        if x == l {
            assert(implied[i] == x);
            assert(tail_set(implied, i).contains(x));
        }
        if tail_set(implied, i).contains(x) {
            let j = choose|j: int| i <= j < implied.len() && #[trigger] implied[j] == x;
            if j > i {
                assert(tail_set(implied, i + 1).contains(x));
            }
        }
    }
    assert(rest.insert(l) =~= all);
    assert(tail_set(implied, 0).contains(l)) by {
        assert(implied[i] == l);
    }
    assert forall|u: Set<Literal>| base.subset_of(u) && #[trigger] unit_closed(
        cs,
        u,
    ) implies true_lits(top).insert(l).subset_of(u) by {
        assert(tail_set(implied, 0).subset_of(u));
        assert(true_lits(top).subset_of(u));
    }
}

proof fn lemma_tail_end(s: Seq<Literal>, pending: Set<Literal>)
    ensures
        pending.union(tail_set(s, s.len() as int)) == pending,
{
    assert(tail_set(s, s.len() as int) =~= Set::<Literal>::empty());
    assert(pending.union(tail_set(s, s.len() as int)) =~= pending);
}

proof fn lemma_extends_chain(a: Seq<Option<bool>>, b: Seq<Option<bool>>, c: Seq<Option<bool>>)
    requires
        extends(a, b),
        extends(b, c),
    ensures
        extends(a, c),
{
}

proof fn lemma_spare_weaker(
    cs: Seq<Seq<Literal>>,
    k: int,
    a: Seq<Option<bool>>,
    w: Watches,
    from: Literal,
)
    requires
        clause_good(cs, k, a, w, None),
    ensures
        clause_good(cs, k, a, w, Some(from)),
{
    let c = cs[k];
    if !clause_sat(c, a) {
        let (w1, w2) = choose|w1: Literal, w2: Literal|
            w1 != w2 && c.contains(w1) && c.contains(w2) && #[trigger] watches(w, k, w1)
                && #[trigger] watches(w, k, w2) && open_or(a, w1, None) && open_or(a, w2, None);
        assert(open_or(a, w1, Some(from)));
        assert(open_or(a, w2, Some(from)));
    }
}

/// Going past a watcher keeps every clause but that one as it was.
proof fn lemma_scan_skip(
    cs: Seq<Seq<Literal>>,
    k: int,
    a: Seq<Option<bool>>,
    w: Watches,
    from: Literal,
    idx: int,
    p: Set<Literal>,
)
    requires
        0 <= idx < watch_list(w, from).len(),
        scan_ok(cs, k, a, w, from, idx, p),
        k != watch_list(w, from)[idx] || clause_sat(cs[k], a),
    ensures
        scan_ok(cs, k, a, w, from, idx + 1, p),
{
    if !clause_good(cs, k, a, w, None) && !excused(cs[k], p) {
        let x = choose|x: int|
            idx <= x < watch_list(w, from).len() && #[trigger] watch_list(w, from)[x] == k;
        assert(x != idx);
        assert(listed_from(w, from, idx + 1, k));
    }
}

/// In a clause in normal form, two open literals with none open between
/// them are different literals.
proof fn lemma_open_pair_distinct(c: Seq<Literal>, a: Seq<Option<bool>>, i: int, j: int)
    requires
        clause_normal(c),
        0 <= i < j < c.len(),
        lit_unassigned(a, c[i]),
        lit_unassigned(a, c[j]),
        forall|x: int| i < x < j ==> !lit_unassigned(a, #[trigger] c[x]),
        forall|x: int| 0 <= x < c.len() ==> 0 <= (#[trigger] c[x]).var() < a.len(),
    ensures
        c[i] != c[j],
{
    if c[i] == c[j] {
        if j > i + 1 {
            let x = i + 1;
            assert(c[i].label.0 <= c[x].label.0);
            assert(c[x].label.0 <= c[j].label.0);
            assert(c[x].var() == c[i].var());
            assert(lit_unassigned(a, c[x]));
        } else {
            assert(c[i] != c[i + 1]);
        }
    }
}

/// `w2` is `w` with the clause `c` added to the watchers of `l`.
spec fn pushed(w: Watches, w2: Watches, l: Literal, c: int) -> bool {
    &&& w2.pos.len() == w.pos.len()
    &&& w2.neg.len() == w.neg.len()
    &&& watch_list(w2, l) == watch_list(w, l).push(c as usize)
    &&& forall|l2: Literal|
        l2 != l && 0 <= l2.var() < w.pos.len() ==> #[trigger] watch_list(w2, l2) == watch_list(
            w,
            l2,
        )
}

/// Adding a watcher keeps the watches that were there.
proof fn lemma_pushed_watches(w: Watches, w2: Watches, l: Literal, c: int)
    requires
        pushed(w, w2, l, c),
        0 <= l.var() < w.pos.len(),
        w.pos.len() == w.neg.len(),
        0 <= c <= usize::MAX,
    ensures
        watches(w2, c, l),
        forall|k: int, l2: Literal| #[trigger] watches(w, k, l2) ==> watches(w2, k, l2),
{
    assert(watch_list(w2, l)[watch_list(w, l).len() as int] == c);
    assert forall|k: int, l2: Literal| #[trigger] watches(w, k, l2) implies watches(w2, k, l2) by {
        let x = choose|x: int| 0 <= x < watch_list(w, l2).len() && #[trigger] watch_list(w, l2)[x] == k;
        if l2 == l {
            assert(watch_list(w2, l2)[x] == k);
        } else {
            assert(watch_list(w2, l2) == watch_list(w, l2));
            assert(watch_list(w2, l2)[x] == k);
        }
    }
}

/// A unit clause, taken as excused by its literal.
proof fn lemma_first_unit(
    cs: Seq<Seq<Literal>>,
    idx: int,
    a: Seq<Option<bool>>,
    w: Watches,
    p: Set<Literal>,
    wider: Set<Literal>,
)
    requires
        good_upto(cs, idx, a, w, p),
        0 <= idx < cs.len(),
        cs[idx].len() > 0,
        p.subset_of(wider),
        wider.contains(cs[idx][0]),
    ensures
        good_upto(cs, idx + 1, a, w, wider),
{
    lemma_good_weaken(cs, idx, a, w, p, wider);
    reveal(good_upto);
    assert(excused(cs[idx], wider));
}

/// A clause that has just been given its first two watches.
proof fn lemma_first_watches(
    cs: Seq<Seq<Literal>>,
    idx: int,
    a: Seq<Option<bool>>,
    w: Watches,
    wm: Watches,
    w2: Watches,
    p: Set<Literal>,
)
    requires
        good_upto(cs, idx, a, w, p),
        0 <= idx < cs.len(),
        idx <= usize::MAX,
        cs[idx].len() >= 2,
        cs[idx][0] != cs[idx][1],
        lit_unassigned(a, cs[idx][0]),
        lit_unassigned(a, cs[idx][1]),
        w.pos.len() == a.len(),
        w.neg.len() == a.len(),
        pushed(w, wm, cs[idx][1], idx),
        pushed(wm, w2, cs[idx][0], idx),
    ensures
        good_upto(cs, idx + 1, a, w2, p),
{
    reveal(good_upto);
    let l0 = cs[idx][0];
    let l1 = cs[idx][1];
    lemma_pushed_watches(w, wm, l1, idx);
    lemma_pushed_watches(wm, w2, l0, idx);
    assert(watches(wm, idx, l1));
    assert(watches(w2, idx, l1));
    assert(watches(w2, idx, l0));
    assert(cs[idx].contains(l0));
    assert(cs[idx].contains(l1));
    assert(open_or(a, l0, None));
    assert(open_or(a, l1, None));
    assert(two_watched(cs[idx], idx, a, w2, None));
    assert forall|k: int| 0 <= k < idx + 1 implies #[trigger] clause_good(cs, k, a, w2, None)
        || excused(cs[k], p) by {
        if k < idx {
            assert(clause_good(cs, k, a, w, None) || excused(cs[k], p));
            if clause_good(cs, k, a, w, None) && !clause_sat(cs[k], a) {
                let (w1, w2l) = choose|w1: Literal, w2l: Literal|
                    w1 != w2l && cs[k].contains(w1) && cs[k].contains(w2l) && #[trigger] watches(
                        w,
                        k,
                        w1,
                    ) && #[trigger] watches(w, k, w2l) && open_or(a, w1, None) && open_or(
                        a,
                        w2l,
                        None,
                    );
                assert(watches(wm, k, w1));
                assert(watches(wm, k, w2l));
                assert(watches(w2, k, w1));
                assert(watches(w2, k, w2l));
            }
        }
    }
}

/// Each list holds numbers below `n`, and there are `nv` lists.
spec fn lists_valid(lists: Seq<Vec<usize>>, nv: int, n: int) -> bool {
    &&& lists.len() == nv
    &&& forall|v: int, x: int|
        0 <= v < lists.len() && 0 <= x < lists[v]@.len() ==> #[trigger] lists[v]@[x] < n
}

/// Each assignment has `nv` places and extends those before it.
spec fn frames_valid(frames: Seq<Seq<Option<bool>>>, nv: int) -> bool {
    &&& forall|k: int| 0 <= k < frames.len() ==> (#[trigger] frames[k]).len() == nv
    &&& forall|j: int, k: int|
        0 <= j <= k < frames.len() ==> extends(#[trigger] frames[j], #[trigger] frames[k])
}

/// Whether `x` stands in the list.
fn list_contains(list: &Vec<usize>, x: usize) -> (r: bool)
    ensures
        r == exists|i: int| 0 <= i < list@.len() && #[trigger] list@[i] == x,
{
    let mut i: usize = 0;
    while i < list.len()
        invariant
            i <= list.len(),
            forall|j: int| 0 <= j < i ==> #[trigger] list@[j] != x,
        decreases list.len() - i,
    {
        if list[i] == x {
            return true;
        }
        i += 1;
    }
    false
}

/// Adds the clause `c` to the watchers of `l`.
fn add_watcher(pos: &mut Vec<Vec<usize>>, neg: &mut Vec<Vec<usize>>, l: Literal, c: usize)
    requires
        old(pos)@.len() == old(neg)@.len(),
        l.var() < old(pos)@.len(),
    ensures
        final(pos)@.len() == old(pos)@.len(),
        final(neg)@.len() == old(neg)@.len(),
        pushed(watches_of(old(pos)@, old(neg)@), watches_of(final(pos)@, final(neg)@), l, c as int),
        forall|n: int|
            c < n && lists_valid(old(pos)@, old(pos)@.len() as int, n) ==> lists_valid(
                final(pos)@,
                old(pos)@.len() as int,
                n,
            ),
        forall|n: int|
            c < n && lists_valid(old(neg)@, old(neg)@.len() as int, n) ==> lists_valid(
                final(neg)@,
                old(neg)@.len() as int,
                n,
            ),
{
    let n = pos.len();
    let v = l.get_label().value() as usize;
    if l.get_polarity() {
        pos[v].push(c);
    } else {
        neg[v].push(c);
    }
    proof {
        let w = watches_of(old(pos)@, old(neg)@);
        let w2 = watches_of(pos@, neg@);
        assert forall|l2: Literal|
            l2 != l && 0 <= l2.var() < w.pos.len() implies #[trigger] watch_list(w2, l2)
            == watch_list(w, l2) by {
            assert(l2.label.0 != l.label.0 || l2.polarity != l.polarity);
        }
    }
}

/// Whether the model makes a literal of the clause true.
fn clause_satisfied(clause: &Vec<Literal>, model: &PartialModel) -> (r: bool)
    requires
        forall|j: int| 0 <= j < clause@.len() ==> 0 <= (#[trigger] clause@[j]).var() < model@.len(),
    ensures
        r == clause_sat(clause@, model@),
{
    let mut i: usize = 0;
    while i < clause.len()
        invariant
            i <= clause.len(),
            forall|j: int|
                0 <= j < clause@.len() ==> 0 <= (#[trigger] clause@[j]).var() < model@.len(),
            forall|j: int| 0 <= j < i ==> !lit_true(model@, #[trigger] clause@[j]),
        decreases clause.len() - i,
    {
        let lit = clause[i];
        match model.get(lit.get_label()) {
            Some(v) => {
                if lit.get_polarity() == v {
                    return true;
                }
            },
            None => {},
        }
        i += 1;
    }
    false
}

/// The open literals of the clause: how many there are, counted up to two,
/// and where the first two stand.
fn open_literals(clause: &Vec<Literal>, model: &PartialModel) -> (r: (usize, usize, usize))
    requires
        forall|j: int| 0 <= j < clause@.len() ==> 0 <= (#[trigger] clause@[j]).var() < model@.len(),
    ensures
        r.0 <= 2,
        r.0 == 0 ==> forall|j: int|
            0 <= j < clause@.len() ==> !lit_unassigned(model@, #[trigger] clause@[j]),
        r.0 >= 1 ==> r.1 < clause@.len() && lit_unassigned(model@, clause@[r.1 as int])
            && forall|j: int| 0 <= j < r.1 ==> !lit_unassigned(model@, #[trigger] clause@[j]),
        r.0 == 1 ==> forall|j: int|
            0 <= j < clause@.len() && j != r.1 ==> !lit_unassigned(model@, #[trigger] clause@[j]),
        r.0 == 2 ==> r.1 < r.2 < clause@.len() && lit_unassigned(model@, clause@[r.2 as int])
            && forall|j: int| r.1 < j < r.2 ==> !lit_unassigned(model@, #[trigger] clause@[j]),
{
    let mut n: usize = 0;
    let mut first: usize = 0;
    let mut second: usize = 0;
    let mut i: usize = 0;
    while i < clause.len()
        invariant
            i <= clause.len(),
            n <= 2,
            forall|j: int|
                0 <= j < clause@.len() ==> 0 <= (#[trigger] clause@[j]).var() < model@.len(),
            n == 0 ==> forall|j: int| 0 <= j < i ==> !lit_unassigned(model@, #[trigger] clause@[j]),
            n >= 1 ==> first < i && lit_unassigned(model@, clause@[first as int]) && forall|j: int|
                0 <= j < first ==> !lit_unassigned(model@, #[trigger] clause@[j]),
            n == 1 ==> forall|j: int|
                0 <= j < i && j != first ==> !lit_unassigned(model@, #[trigger] clause@[j]),
            n == 2 ==> first < second < i && lit_unassigned(model@, clause@[second as int])
                && forall|j: int|
                first < j < second ==> !lit_unassigned(model@, #[trigger] clause@[j]),
        decreases clause.len() - i,
    {
        let lit = clause[i];
        if model.get(lit.get_label()).is_none() {
            if n == 0 {
                first = i;
                n = 1;
            } else if n == 1 {
                second = i;
                n = 2;
            }
        }
        i += 1;
    }
    (n, first, second)
}

/// A unit propagator over a formula: the watch lists, and a stack of
/// partial models, one for each decision that has not been taken back, on
/// top of the one that the formula's unit clauses give.
#[derive(Debug, Clone)]
pub struct UnitPropagate<'a> {
    // watch_list_pos[i] lists the clauses that watch the variable i
    watch_list_pos: Vec<Vec<usize>>,
    // watch_list_neg[i] lists the clauses that watch the negation of the variable i
    watch_list_neg: Vec<Vec<usize>>,
    // the assignments, the latest last
    state: Vec<PartialModel>,
    cnf: &'a Cnf,
}

impl<'a> UnitPropagate<'a> {
    /// The formula that is propagated over.
    pub closed spec fn formula(&self) -> Cnf {
        *self.cnf
    }

    /// The stack of assignments, the latest last.
    pub closed spec fn frames(&self) -> Seq<Seq<Option<bool>>> {
        Seq::new(self.state@.len(), |k: int| self.state@[k]@)
    }

    /// The number of assignments on the stack.
    pub open spec fn depth(&self) -> nat {
        self.frames().len()
    }

    /// The latest assignment.
    pub open spec fn top(&self) -> Seq<Option<bool>> {
        self.frames().last()
    }

    /// The watch lists as values.
    closed spec fn watch_state(&self) -> Watches {
        watches_of(self.watch_list_pos@, self.watch_list_neg@)
    }

    /// The invariant of the structure: the formula is well formed, each
    /// variable has its two watch lists, which hold numbers of clauses,
    /// every assignment has a place for each variable, and every assignment
    /// extends those below it.
    #[verifier::opaque]
    pub closed spec fn wf(&self) -> bool {
        &&& self.cnf.wf()
        &&& !some_empty(self.cnf@)
        &&& lists_valid(
            self.watch_list_pos@,
            self.cnf.spec_num_vars() as int,
            self.cnf@.len() as int,
        )
        &&& lists_valid(
            self.watch_list_neg@,
            self.cnf.spec_num_vars() as int,
            self.cnf@.len() as int,
        )
        &&& frames_valid(self.frames(), self.cnf.spec_num_vars() as int)
    }

    /// The assignment numbered `k` is one that propagation has finished
    /// with: in it, every clause is satisfied or watches two open literals.
    pub closed spec fn frame_settled(&self, k: int) -> bool {
        all_good(self.cnf@, self.frames()[k], self.watch_state())
    }

    /// Every assignment on the stack is settled.
    pub open spec fn settled(&self) -> bool {
        forall|k: int| 0 <= k < self.depth() ==> self.frame_settled(k)
    }

    /// Every assignment below the latest is settled, so that taking the
    /// latest one back leaves a settled stack.
    pub open spec fn recoverable(&self) -> bool {
        forall|k: int| 0 <= k < self.depth() - 1 ==> self.frame_settled(k)
    }

    /// A well-formed propagator has a well-formed formula and assignments of
    /// the formula's width, each extending those below it; and a settled
    /// assignment is closed under unit propagation and free of conflict.
    pub proof fn lemma_wf(&self, j: int, k: int)
        requires
            self.wf(),
            0 <= j <= k < self.depth(),
        ensures
            self.formula().wf(),
            self.frames()[k].len() == self.formula().spec_num_vars(),
            extends(self.frames()[j], self.frames()[k]),
            self.frame_settled(k) ==> unit_closed(self.formula()@, true_lits(self.frames()[k]))
                && conflict_free(self.formula()@, true_lits(self.frames()[k])),
    {
        reveal(UnitPropagate::wf);
        if self.frame_settled(k) {
            lemma_all_good_closed(self.cnf@, self.frames()[k], self.watch_state());
        }
    }

    /// The facts of the invariant that the steps of propagation rest on.
    proof fn lemma_wf_top(&self)
        requires
            self.wf(),
            self.depth() > 0,
        ensures
            self.cnf.wf(),
            !some_empty(self.cnf@),
            self.top().len() == self.cnf.spec_num_vars(),
            all_below(self.frames().drop_last(), self.top()),
            self.watch_state().pos.len() == self.cnf.spec_num_vars(),
            self.watch_state().neg.len() == self.cnf.spec_num_vars(),
    {
        reveal(UnitPropagate::wf);
        let lower = self.frames().drop_last();
        assert forall|k: int| 0 <= k < lower.len() implies extends(
            #[trigger] lower[k],
            self.top(),
        ) by {
            assert(lower[k] == self.frames()[k]);
            assert(extends(self.frames()[k], self.frames()[self.depth() - 1]));
        }
    }

    fn cur_state(&self) -> (r: &PartialModel)
        requires
            self.depth() > 0,
        ensures
            r@ == self.top(),
    {
        let n = self.state.len();
        &self.state[n - 1]
    }

    fn cur_state_mut(&mut self) -> (r: &mut PartialModel)
        requires
            old(self).depth() > 0,
        ensures
            *r == old(self).state@.last(),
            final(self).state@ == old(self).state@.update(
                old(self).state@.len() - 1,
                *final(r),
            ),
            final(self).watch_list_pos == old(self).watch_list_pos,
            final(self).watch_list_neg == old(self).watch_list_neg,
            final(self).cnf == old(self).cnf,
    {
        let n = self.state.len();
        &mut self.state[n - 1]
    }

    /// Gives the variable of an open literal its value in the latest
    /// assignment.
    fn assign_top(&mut self, lit: Literal)
        requires
            old(self).wf(),
            old(self).depth() > 0,
            lit_unassigned(old(self).top(), lit),
        ensures
            final(self).wf(),
            final(self).cnf == old(self).cnf,
            final(self).watch_state() == old(self).watch_state(),
            final(self).frames() == old(self).frames().update(
                old(self).depth() - 1,
                old(self).top().update(lit.var(), Some(lit.polarity)),
            ),
    {
        proof {
            reveal(UnitPropagate::wf);
        }
        self.cur_state_mut().set(lit.get_label(), lit.get_polarity());
        proof {
            let s1 = old(self).top().update(lit.var(), Some(lit.polarity));
            let n = old(self).depth() as int;
            assert(self.frames() =~= old(self).frames().update(n - 1, s1));
            assert forall|j: int, k: int| 0 <= j <= k < n implies extends(
                #[trigger] self.frames()[j],
                #[trigger] self.frames()[k],
            ) by {
                if k == n - 1 {
                    assert(extends(old(self).frames()[j], old(self).frames()[n - 1]));
                } else {
                    assert(extends(old(self).frames()[j], old(self).frames()[k]));
                }
            }
        }
    }

    /// The clause numbered `k`.
    fn clause_at(&self, k: usize) -> (r: &'a Vec<Literal>)
        requires
            self.wf(),
            k < self.cnf@.len(),
        ensures
            r@ == self.cnf@[k as int],
            r@.len() > 0,
            clause_normal(r@),
            forall|j: int|
                0 <= j < r@.len() ==> 0 <= (#[trigger] r@[j]).var() < self.cnf.spec_num_vars(),
    {
        proof {
            reveal(UnitPropagate::wf);
        }
        let cnf: &'a Cnf = self.cnf;
        let clauses = cnf.clauses();
        let r = &clauses[k];
        proof {
            assert(cnf@[k as int] == r@);
            assert forall|j: int| 0 <= j < r@.len() implies 0 <= (#[trigger] r@[j]).var()
                < self.cnf.spec_num_vars() by {
                assert(cnf@[k as int][j] == r@[j]);
            }
        }
        r
    }

    /// The number of clauses that watch `l`.
    fn watcher_count(&self, l: Literal) -> (r: usize)
        requires
            self.wf(),
            l.var() < self.cnf.spec_num_vars(),
        ensures
            r == watch_list(self.watch_state(), l).len(),
    {
        proof {
            reveal(UnitPropagate::wf);
        }
        let v = l.get_label().value() as usize;
        if l.get_polarity() {
            self.watch_list_pos[v].len()
        } else {
            self.watch_list_neg[v].len()
        }
    }

    /// The clause at `idx` among those that watch `l`.
    fn watcher_at(&self, l: Literal, idx: usize) -> (r: usize)
        requires
            self.wf(),
            l.var() < self.cnf.spec_num_vars(),
            idx < watch_list(self.watch_state(), l).len(),
        ensures
            r == watch_list(self.watch_state(), l)[idx as int],
            r < self.cnf@.len(),
    {
        proof {
            reveal(UnitPropagate::wf);
        }
        let v = l.get_label().value() as usize;
        if l.get_polarity() {
            self.watch_list_pos[v][idx]
        } else {
            self.watch_list_neg[v][idx]
        }
    }

    /// Whether the clause numbered `c` watches `l`.
    fn is_watching(&self, l: Literal, c: usize) -> (r: bool)
        requires
            self.wf(),
            l.var() < self.cnf.spec_num_vars(),
        ensures
            r == watches(self.watch_state(), c as int, l),
    {
        proof {
            reveal(UnitPropagate::wf);
        }
        let v = l.get_label().value() as usize;
        let r = if l.get_polarity() {
            list_contains(&self.watch_list_pos[v], c)
        } else {
            list_contains(&self.watch_list_neg[v], c)
        };
        proof {
            let w = self.watch_state();
            let list = watch_list(w, l);
            if l.polarity {
                assert(list == self.watch_list_pos@[v as int]@);
            } else {
                assert(list == self.watch_list_neg@[v as int]@);
            }
            if r {
                let i = choose|i: int| 0 <= i < list.len() && #[trigger] list[i] == c;
                assert(watch_list(w, l)[i] == c);
            }
        }
        r
    }

    /// Lets the clause at `idx` among those that watch `from` watch `to`
    /// instead.
    fn move_watch(&mut self, from: Literal, idx: usize, to: Literal)
        requires
            old(self).wf(),
            from.var() < old(self).cnf.spec_num_vars(),
            to.var() < old(self).cnf.spec_num_vars(),
            from != to,
            idx < watch_list(old(self).watch_state(), from).len(),
        ensures
            final(self).wf(),
            final(self).cnf == old(self).cnf,
            final(self).frames() == old(self).frames(),
            moved(old(self).watch_state(), final(self).watch_state(), from, idx as int, to),
    {
        proof {
            reveal(UnitPropagate::wf);
        }
        let fv = from.get_label().value() as usize;
        let tv = to.get_label().value() as usize;
        let prev_watcher = if from.get_polarity() {
            self.watch_list_pos[fv].swap_remove(idx)
        } else {
            self.watch_list_neg[fv].swap_remove(idx)
        };
        if to.get_polarity() {
            self.watch_list_pos[tv].push(prev_watcher);
        } else {
            self.watch_list_neg[tv].push(prev_watcher);
        }
        proof {
            let w = old(self).watch_state();
            let w2 = self.watch_state();
            assert(from.label.0 != to.label.0 || from.polarity != to.polarity);
            assert forall|l: Literal|
                l != from && l != to && 0 <= l.var() < w.pos.len() implies #[trigger] watch_list(
                w2,
                l,
            ) == watch_list(w, l) by {
                assert(l.label.0 != from.label.0 || l.polarity != from.polarity);
                assert(l.label.0 != to.label.0 || l.polarity != to.polarity);
            }
        }
    }

    /// The propagator for a formula, with the formula's unit clauses
    /// propagated; `None` if that propagation meets a conflict, as it does
    /// where the formula holds an empty clause.
    pub fn new(cnf: &'a Cnf) -> (r: Option<UnitPropagate<'a>>)
        requires
            cnf.wf(),
        ensures
            r is None <==> !propagation_consistent(cnf@, Set::empty()),
            some_empty(cnf@) ==> r is None,
            r matches Some(up) ==> {
                &&& up.wf()
                &&& up.formula() == *cnf
                &&& up.depth() == 1
                &&& up.settled()
                &&& is_propagation_result(cnf@, Set::empty(), true_lits(up.top()))
            },
    {
        if cnf.has_empty_clause() {
            proof {
                lemma_empty_clause_conflicts(cnf@, Set::empty());
            }
            return None;
        }
        let mut watch_list_pos: Vec<Vec<usize>> = Vec::new();
        let mut watch_list_neg: Vec<Vec<usize>> = Vec::new();
        let mut assignments: Vec<Option<bool>> = Vec::new();
        let num_vars = cnf.num_vars();
        let mut v: usize = 0;
        while v < num_vars
            invariant
                v <= num_vars,
                watch_list_pos@.len() == v,
                watch_list_neg@.len() == v,
                assignments@.len() == v,
                forall|x: int| 0 <= x < v ==> (#[trigger] watch_list_pos@[x])@.len() == 0,
                forall|x: int| 0 <= x < v ==> (#[trigger] watch_list_neg@[x])@.len() == 0,
                forall|x: int| 0 <= x < v ==> (#[trigger] assignments@[x]) is None,
            decreases num_vars - v,
        {
            watch_list_pos.push(Vec::new());
            watch_list_neg.push(Vec::new());
            assignments.push(None);
            v += 1;
        }

        // the unit clauses, and the first watches of the others
        let clauses = cnf.clauses();
        let ghost cs = cnf@;
        let ghost empty = assignments@;
        let mut implied: Vec<Literal> = Vec::new();
        let mut idx: usize = 0;
        proof {
            assert(true_lits(empty) =~= Set::<Literal>::empty());
            assert(good_upto(
                cs,
                0,
                empty,
                watches_of(watch_list_pos@, watch_list_neg@),
                tail_set(implied@, 0),
            )) by {
                reveal(good_upto);
            }
        }
        while idx < clauses.len()
            invariant
                idx <= clauses.len(),
                cnf.wf(),
                !some_empty(cnf@),
                cs == cnf@,
                clause_seqs(clauses@) == cs,
                num_vars == cnf.spec_num_vars(),
                empty.len() == num_vars,
                true_lits(empty) == Set::<Literal>::empty(),
                forall|x: int| 0 <= x < num_vars ==> (#[trigger] empty[x]) is None,
                lists_valid(watch_list_pos@, num_vars as int, idx as int),
                lists_valid(watch_list_neg@, num_vars as int, idx as int),
                forall|j: int| 0 <= j < implied@.len() ==> (#[trigger] implied@[j]).var() < num_vars,
                forced(cs, Set::empty(), tail_set(implied@, 0)),
                good_upto(
                    cs,
                    idx as int,
                    empty,
                    watches_of(watch_list_pos@, watch_list_neg@),
                    tail_set(implied@, 0),
                ),
            decreases clauses.len() - idx,
        {
            let c = &clauses[idx];
            let ghost w = watches_of(watch_list_pos@, watch_list_neg@);
            let ghost before = implied@;
            proof {
                assert(cs[idx as int] == c@);
                assert(cs[idx as int].len() > 0);
                assert forall|j: int| 0 <= j < c@.len() implies (#[trigger] c@[j]).label.0
                    < num_vars by {
                    assert(cs[idx as int][j] == c@[j]);
                }
            }
            if c.len() == 0 {
                return None;
            }
            if c.len() == 1 {
                implied.push(c[0]);
                proof {
                    assert(!clause_sat(cs[idx as int], empty));
                    lemma_forced_push(cs, Set::empty(), empty, before, idx as int, 0);
                    assert(implied@ == before.push(cs[idx as int][0]));
                    lemma_first_unit(
                        cs,
                        idx as int,
                        empty,
                        w,
                        tail_set(before, 0),
                        tail_set(implied@, 0),
                    );
                }
            } else {
                proof {
                    assert(c@[0int] != c@[0int + 1]);
                }
                add_watcher(&mut watch_list_pos, &mut watch_list_neg, c[1], idx);
                let ghost wm = watches_of(watch_list_pos@, watch_list_neg@);
                add_watcher(&mut watch_list_pos, &mut watch_list_neg, c[0], idx);
                proof {
                    lemma_first_watches(
                        cs,
                        idx as int,
                        empty,
                        w,
                        wm,
                        watches_of(watch_list_pos@, watch_list_neg@),
                        tail_set(implied@, 0),
                    );
                }
            }
            idx += 1;
        }

        let ghost w0 = watches_of(watch_list_pos@, watch_list_neg@);
        let mut cur = Self::initial(cnf, watch_list_pos, watch_list_neg, assignments);
        proof {
            assert(Set::<Literal>::empty().union(tail_set(implied@, 0)) =~= tail_set(implied@, 0));
            assert(cur.top() == empty);
        }

        let mut i: usize = 0;
        while i < implied.len()
            invariant
                i <= implied.len(),
                cur.wf(),
                cur.cnf == cnf,
                cs == cnf@,
                cur.depth() == 1,
                forall|j: int|
                    0 <= j < implied@.len() ==> (#[trigger] implied@[j]).var()
                        < cnf.spec_num_vars(),
                forced(cs, Set::empty(), tail_set(implied@, 0)),
                forced(cs, Set::empty(), true_lits(cur.top())),
                good_but(
                    cs,
                    cur.top(),
                    cur.watch_state(),
                    Set::<Literal>::empty().union(tail_set(implied@, i as int)),
                ),
            decreases implied.len() - i,
        {
            let unit = implied[i];
            let ghost before = cur.top();
            let ghost rest = Set::<Literal>::empty().union(tail_set(implied@, i + 1));
            proof {
                lemma_next_implied(cs, Set::empty(), before, implied@, i as int, Set::empty());
            }
            let r = cur.set(unit, Ghost(rest));
            if !r {
                proof {
                    lemma_conflict_chain(cs, Set::empty(), true_lits(before).insert(unit));
                }
                return None;
            }
            proof {
                lemma_forced_chain(
                    cs,
                    Set::empty(),
                    true_lits(before).insert(unit),
                    true_lits(cur.top()),
                );
            }
            i += 1;
        }
        proof {
            lemma_tail_end(implied@, Set::empty());
            cur.lemma_new_settled();
        }
        Some(cur)
    }

    /// The propagator that holds the given watch lists and one assignment.
    fn initial(
        cnf: &'a Cnf,
        watch_list_pos: Vec<Vec<usize>>,
        watch_list_neg: Vec<Vec<usize>>,
        assignments: Vec<Option<bool>>,
    ) -> (r: UnitPropagate<'a>)
        requires
            cnf.wf(),
            !some_empty(cnf@),
            lists_valid(watch_list_pos@, cnf.spec_num_vars() as int, cnf@.len() as int),
            lists_valid(watch_list_neg@, cnf.spec_num_vars() as int, cnf@.len() as int),
            assignments@.len() == cnf.spec_num_vars(),
        ensures
            r.wf(),
            r.cnf == cnf,
            r.frames() == seq![assignments@],
            r.watch_state() == watches_of(watch_list_pos@, watch_list_neg@),
    {
        let r = UnitPropagate {
            watch_list_pos,
            watch_list_neg,
            state: vec![PartialModel::from_vec(assignments)],
            cnf,
        };
        proof {
            assert(r.frames() =~= seq![assignments@]);
            reveal(UnitPropagate::wf);
        }
        r
    }

    /// A propagator with one assignment, in which every clause is in order,
    /// is settled, and its assignment is closed and free of conflict.
    proof fn lemma_new_settled(&self)
        requires
            self.wf(),
            self.depth() == 1,
            good_but(self.cnf@, self.top(), self.watch_state(), Set::empty()),
        ensures
            self.settled(),
            unit_closed(self.cnf@, true_lits(self.top())),
            conflict_free(self.cnf@, true_lits(self.top())),
    {
        assert(self.frames()[0] == self.top());
        assert(self.frame_settled(0));
        self.lemma_wf(0, 0);
    }

    /// Takes a decision: opens a new assignment above the latest one, sets
    /// the literal in it and propagates. The result is `false` if that
    /// meets a conflict; the new assignment then stays on the stack until
    /// it is taken back.
    pub fn decide(&mut self, new_assignment: Literal) -> (r: bool)
        requires
            old(self).wf(),
            old(self).depth() > 0,
            new_assignment.var() < old(self).formula().spec_num_vars(),
        ensures
            final(self).wf(),
            final(self).formula() == old(self).formula(),
            final(self).frames().len() == old(self).frames().len() + 1,
            final(self).frames().drop_last() == old(self).frames(),
            extends(old(self).top(), final(self).top()),
            r ==> lit_true(final(self).top(), new_assignment),
            forced(
                old(self).formula()@,
                true_lits(old(self).top()).insert(new_assignment),
                true_lits(final(self).top()),
            ),
            !r ==> !propagation_consistent(
                old(self).formula()@,
                true_lits(old(self).top()).insert(new_assignment),
            ),
            old(self).settled() ==> final(self).recoverable(),
            old(self).settled() ==> (r <==> propagation_consistent(
                old(self).formula()@,
                true_lits(old(self).top()).insert(new_assignment),
            )),
            old(self).settled() && r ==> final(self).settled() && is_propagation_result(
                old(self).formula()@,
                true_lits(old(self).top()).insert(new_assignment),
                true_lits(final(self).top()),
            ),
    {
        // push a fresh state onto the stack and propagate
        let fresh = self.cur_state().clone();
        self.push_frame(fresh);
        let ghost mid = *self;
        let r = self.set(new_assignment, Ghost(Set::empty()));
        proof {
            Self::lemma_decided(*old(self), mid, *self, new_assignment, r);
        }
        r
    }

    /// Puts an assignment that equals the latest one on top of it.
    fn push_frame(&mut self, fresh: PartialModel)
        requires
            old(self).wf(),
            old(self).depth() > 0,
            fresh@ == old(self).top(),
        ensures
            final(self).wf(),
            final(self).cnf == old(self).cnf,
            final(self).watch_state() == old(self).watch_state(),
            final(self).frames() == old(self).frames().push(old(self).top()),
    {
        self.state.push(fresh);
        proof {
            reveal(UnitPropagate::wf);
            let n = old(self).depth() as int;
            assert(self.frames() =~= old(self).frames().push(old(self).top()));
            assert forall|j: int, k: int| 0 <= j <= k < n + 1 implies extends(
                #[trigger] self.frames()[j],
                #[trigger] self.frames()[k],
            ) by {
                if k == n {
                    if j < n {
                        assert(extends(old(self).frames()[j], old(self).frames()[n - 1]));
                    }
                } else {
                    assert(extends(old(self).frames()[j], old(self).frames()[k]));
                }
            }
        }
    }

    /// What a decision leaves, from what setting the literal in the new
    /// assignment leaves.
    proof fn lemma_decided(before: Self, mid: Self, after: Self, lit: Literal, r: bool)
        requires
            before.wf(),
            before.depth() > 0,
            mid.cnf == before.cnf,
            mid.watch_state() == before.watch_state(),
            mid.frames() == before.frames().push(before.top()),
            after.wf(),
            after.cnf == mid.cnf,
            after.frames().len() == mid.frames().len(),
            after.frames().drop_last() == mid.frames().drop_last(),
            extends(mid.top(), after.top()),
            r ==> lit_true(after.top(), lit),
            forced(mid.cnf@, true_lits(mid.top()).insert(lit), true_lits(after.top())),
            lower_kept(mid.cnf@, mid.frames().drop_last(), mid.watch_state(), after.watch_state()),
            r && good_but(
                mid.cnf@,
                mid.top(),
                mid.watch_state(),
                Set::<Literal>::empty().insert(lit),
            ) ==> good_but(mid.cnf@, after.top(), after.watch_state(), Set::empty()),
        ensures
            after.frames().drop_last() == before.frames(),
            mid.top() == before.top(),
            before.settled() ==> after.recoverable(),
            before.settled() && r ==> after.settled() && is_propagation_result(
                before.cnf@,
                true_lits(before.top()).insert(lit),
                true_lits(after.top()),
            ) && propagation_consistent(before.cnf@, true_lits(before.top()).insert(lit)),
    {
        let cs = before.cnf@;
        let s_old = before.top();
        let base = true_lits(s_old).insert(lit);
        assert(mid.frames().drop_last() =~= before.frames());
        assert(mid.top() == s_old);
        if before.settled() {
            assert forall|k: int| 0 <= k < after.depth() - 1 implies after.frame_settled(k) by {
                assert(before.frame_settled(k));
                assert(after.frames()[k] == before.frames()[k]);
                lemma_lower_use(cs, before.frames(), before.watch_state(), after.watch_state(), k);
            }
            if r {
                assert(before.frame_settled(before.depth() - 1));
                lemma_good_weaken(
                    cs,
                    cs.len() as int,
                    s_old,
                    before.watch_state(),
                    Set::empty(),
                    Set::<Literal>::empty().insert(lit),
                );
                assert(after.frame_settled(after.depth() - 1));
                Self::lemma_result(after, cs, s_old, lit);
            }
        }
    }

    /// A settled latest assignment that extends another and makes a literal
    /// true, and holds only what they force, is what propagation yields.
    proof fn lemma_result(after: Self, cs: Seq<Seq<Literal>>, s_old: Seq<Option<bool>>, lit: Literal)
        requires
            after.wf(),
            after.depth() > 0,
            cs == after.cnf@,
            after.frame_settled(after.depth() - 1),
            extends(s_old, after.top()),
            lit_true(after.top(), lit),
            forced(cs, true_lits(s_old).insert(lit), true_lits(after.top())),
        ensures
            is_propagation_result(cs, true_lits(s_old).insert(lit), true_lits(after.top())),
            propagation_consistent(cs, true_lits(s_old).insert(lit)),
    {
        let t = true_lits(after.top());
        let base = true_lits(s_old).insert(lit);
        after.lemma_wf(after.depth() - 1, after.depth() - 1);
        assert(unit_closed(cs, t));
        assert(conflict_free(cs, t));
        assert forall|l: Literal| base.contains(l) implies t.contains(l) by {
            if l != lit {
                assert(lit_true(s_old, l));
                assert(lit_true(after.top(), l));
            }
        }
        assert(base.subset_of(t));
    }

    /// Takes the latest decision back.
    pub fn backtrack(&mut self)
        requires
            old(self).wf(),
        ensures
            final(self).wf(),
            final(self).formula() == old(self).formula(),
            old(self).depth() > 0 ==> final(self).frames() == old(self).frames().drop_last(),
            old(self).depth() == 0 ==> final(self).frames() == old(self).frames(),
            old(self).recoverable() ==> final(self).settled(),
    {
        self.state.pop();
        proof {
            if old(self).depth() > 0 {
                assert(self.frames() =~= old(self).frames().drop_last());
            } else {
                assert(self.frames() =~= old(self).frames());
            }
            assert(self.watch_state() == old(self).watch_state());
            assert(self.wf()) by {
                reveal(UnitPropagate::wf);
                assert forall|j: int, k: int| 0 <= j <= k < self.frames().len() implies extends(
                    #[trigger] self.frames()[j],
                    #[trigger] self.frames()[k],
                ) by {
                    assert(extends(old(self).frames()[j], old(self).frames()[k]));
                }
            }
            if old(self).recoverable() {
                assert forall|k: int| 0 <= k < self.depth() implies self.frame_settled(k) by {
                    assert(old(self).frame_settled(k));
                    assert(self.frames()[k] == old(self).frames()[k]);
                }
            }
        }
    }

    /// Whether the latest assignment satisfies every clause of the formula.
    pub fn is_sat(&self) -> (r: bool)
        requires
            self.wf(),
            self.depth() > 0,
        ensures
            r <==> forall|k: int|
                0 <= k < self.formula()@.len() ==> clause_sat(
                    #[trigger] self.formula()@[k],
                    self.top(),
                ),
    {
        let cnf: &'a Cnf = self.cnf;
        let n = cnf.clauses().len();
        proof {
            self.lemma_wf_top();
        }
        let mut k: usize = 0;
        while k < n
            invariant
                k <= n,
                n == cnf@.len(),
                self.wf(),
                self.depth() > 0,
                cnf == self.cnf,
                self.top().len() == cnf.spec_num_vars(),
                forall|j: int| 0 <= j < k ==> clause_sat(#[trigger] cnf@[j], self.top()),
            decreases n - k,
        {
            let clause = self.clause_at(k);
            if !clause_satisfied(clause, self.cur_state()) {
                proof {
                    assert(!clause_sat(self.formula()@[k as int], self.top()));
                }
                return false;
            }
            k += 1;
        }
        true
    }

    /// Sets a literal in the latest assignment and propagates. The result is
    /// `false` if that meets a conflict.
    fn set(&mut self, new_assignment: Literal, Ghost(pending): Ghost<Set<Literal>>) -> (r: bool)
        requires
            old(self).wf(),
            old(self).depth() > 0,
            new_assignment.var() < old(self).cnf.spec_num_vars(),
        ensures
            final(self).wf(),
            final(self).cnf == old(self).cnf,
            final(self).frames().len() == old(self).frames().len(),
            final(self).frames().drop_last() == old(self).frames().drop_last(),
            extends(old(self).top(), final(self).top()),
            r ==> lit_true(final(self).top(), new_assignment),
            forced(
                old(self).cnf@,
                true_lits(old(self).top()).insert(new_assignment),
                true_lits(final(self).top()),
            ),
            !r ==> !propagation_consistent(
                old(self).cnf@,
                true_lits(old(self).top()).insert(new_assignment),
            ),
            lower_kept(
                old(self).cnf@,
                old(self).frames().drop_last(),
                old(self).watch_state(),
                final(self).watch_state(),
            ),
            r && good_but(
                old(self).cnf@,
                old(self).top(),
                old(self).watch_state(),
                pending.insert(new_assignment),
            ) ==> good_but(old(self).cnf@, final(self).top(), final(self).watch_state(), pending),
        decreases open_count(old(self).top(), old(self).cnf.spec_num_vars() as int),
    {
        let cnf: &'a Cnf = self.cnf;
        let ghost cs = cnf@;
        let ghost nv = cnf.spec_num_vars() as int;
        let ghost s_old = self.top();
        let ghost lower = self.frames().drop_last();
        let ghost base = true_lits(s_old).insert(new_assignment);
        let ghost w_old = self.watch_state();
        let ghost h = good_but(cs, s_old, w_old, pending.insert(new_assignment));
        proof {
            self.lemma_wf_top();
            lemma_lower_same(cs, lower, w_old);
        }
        // if already assigned, check if consistent -- if not, return unsat
        match self.cur_state().get(new_assignment.get_label()) {
            None => (),
            Some(v) => {
                proof {
                    if new_assignment.polarity != v {
                        lemma_conflict_known(cs, s_old, new_assignment);
                    } else if h {
                        lemma_set_known(cs, s_old, w_old, new_assignment, pending);
                    }
                }
                return new_assignment.get_polarity() == v;
            },
        };

        // update the value of the decided variable in the partial model
        self.assign_top(new_assignment);

        let ghost s1 = s_old.update(new_assignment.var(), Some(new_assignment.polarity));
        let from = Literal::new(new_assignment.get_label(), !new_assignment.get_polarity());
        proof {
            lemma_true_lits_assign(s_old, new_assignment);
            lemma_open_count_assign(s_old, new_assignment.var(), new_assignment.polarity, nv);
            assert(self.top() == s1);
            assert(self.frames().drop_last() =~= lower);
            if h {
                lemma_scan_start(cs, s_old, w_old, new_assignment, pending);
            }
            assert(tail_set(Seq::<Literal>::empty(), 0) =~= Set::<Literal>::empty());
        }

        // track a list of all discovered implications
        let mut implied_lits: Vec<Literal> = Vec::new();
        // watcher_idx indexes over the watchers of the literal that became false
        let mut watcher_idx: usize = 0;
        while watcher_idx < self.watcher_count(from)
            invariant
                self.wf(),
                self.cnf == cnf,
                cnf == old(self).cnf,
                cs == cnf@,
                nv == cnf.spec_num_vars(),
                cnf.wf(),
                !some_empty(cnf@),
                from == new_assignment.negated(),
                0 <= from.var() < nv,
                self.depth() > 0,
                self.frames().len() == old(self).frames().len(),
                self.frames().drop_last() == lower,
                lower == old(self).frames().drop_last(),
                all_below(lower, s1),
                self.top() == s1,
                s_old == old(self).top(),
                s1 == s_old.update(new_assignment.var(), Some(new_assignment.polarity)),
                lit_unassigned(s_old, new_assignment),
                s1.len() == nv,
                base == true_lits(s1),
                w_old == old(self).watch_state(),
                self.watch_state().pos.len() == nv,
                self.watch_state().neg.len() == nv,
                watcher_idx <= watch_list(self.watch_state(), from).len(),
                forall|j: int|
                    0 <= j < implied_lits@.len() ==> (#[trigger] implied_lits@[j]).var() < nv,
                forced(cs, base, tail_set(implied_lits@, 0)),
                lower_kept(cs, lower, w_old, self.watch_state()),
                h ==> scan_all(
                    cs,
                    s1,
                    self.watch_state(),
                    from,
                    watcher_idx as int,
                    pending.union(tail_set(implied_lits@, 0)),
                ),
            decreases watch_list(self.watch_state(), from).len() - watcher_idx,
        {
            let ghost w = self.watch_state();
            let ghost p = pending.union(tail_set(implied_lits@, 0));
            let prev_watcher = self.watcher_at(from, watcher_idx);
            let clause = self.clause_at(prev_watcher);
            // if the clause is satisfied, leave its watched literals as they
            // are and move on to the next watcher
            if clause_satisfied(clause, self.cur_state()) {
                proof {
                    if h {
                        lemma_scan_sat(cs, s1, w, from, watcher_idx as int, p);
                    }
                }
                watcher_idx += 1;
            } else {
                // the literals of the clause that are still open
                let (num_remaining, first, second) = open_literals(clause, self.cur_state());
                if num_remaining == 0 {
                    // UNSAT: the watch has to move and no open literal is left
                    proof {
                        lemma_refuted_conflict(cs, prev_watcher as int, s1);
                        lemma_extends_true_lits(s_old, s1);
                    }
                    return false;
                } else if num_remaining == 1 {
                    // unit propagate and move on to the next watcher
                    let new_unit = clause[first];
                    let ghost before = implied_lits@;
                    implied_lits.push(new_unit);
                    proof {
                        lemma_forced_push(cs, base, s1, before, prev_watcher as int, first as int);
                        assert(implied_lits@ == before.push(cs[prev_watcher as int][first as int]));
                        if h {
                            lemma_scan_unit(
                                cs,
                                s1,
                                w,
                                from,
                                watcher_idx as int,
                                p,
                                pending.union(tail_set(implied_lits@, 0)),
                                first as int,
                            );
                        }
                    }
                    watcher_idx += 1;
                } else {
                    // two literals or more are open: find a new literal to
                    // watch. If the clause watches the first open literal
                    // already, it is the second one.
                    let candidate = clause[first];
                    let new_lit = if self.is_watching(candidate, prev_watcher) {
                        clause[second]
                    } else {
                        candidate
                    };
                    proof {
                        lemma_open_pair_distinct(clause@, s1, first as int, second as int);
                        assert(lit_false(s1, from));
                        assert(from != new_lit);
                        assert(from != candidate);
                        assert(cs[prev_watcher as int].contains(new_lit));
                        assert(cs[prev_watcher as int].contains(candidate));
                    }
                    self.move_watch(from, watcher_idx, new_lit);
                    proof {
                        let w2 = self.watch_state();
                        lemma_lower_move(
                            cs,
                            lower,
                            s1,
                            w_old,
                            w,
                            w2,
                            from,
                            watcher_idx as int,
                            new_lit,
                            candidate,
                        );
                        if h {
                            lemma_scan_move(
                                cs,
                                s1,
                                w,
                                w2,
                                from,
                                watcher_idx as int,
                                new_lit,
                                candidate,
                                p,
                            );
                        }
                    }
                    // watcher_idx stays: the list has become shorter
                }
            }
        }

        proof {
            if h {
                lemma_scan_done(
                    cs,
                    s1,
                    self.watch_state(),
                    from,
                    watcher_idx as int,
                    pending.union(tail_set(implied_lits@, 0)),
                );
            }
            lemma_forced_base(cs, s_old, new_assignment, s1);
        }

        let mut i: usize = 0;
        while i < implied_lits.len()
            invariant
                i <= implied_lits.len(),
                self.wf(),
                self.cnf == cnf,
                cnf == old(self).cnf,
                cs == cnf@,
                nv == cnf.spec_num_vars(),
                self.depth() > 0,
                self.frames().len() == old(self).frames().len(),
                self.frames().drop_last() == lower,
                lower == old(self).frames().drop_last(),
                s_old == old(self).top(),
                w_old == old(self).watch_state(),
                s_old.len() == nv,
                s1.len() == nv,
                extends(s_old, s1),
                extends(s1, self.top()),
                lit_true(s1, new_assignment),
                base == true_lits(s_old).insert(new_assignment),
                open_count(s1, nv) < open_count(s_old, nv),
                forall|j: int|
                    0 <= j < implied_lits@.len() ==> (#[trigger] implied_lits@[j]).var() < nv,
                forced(cs, base, tail_set(implied_lits@, 0)),
                forced(cs, base, true_lits(self.top())),
                lower_kept(cs, lower, w_old, self.watch_state()),
                h ==> good_but(
                    cs,
                    self.top(),
                    self.watch_state(),
                    pending.union(tail_set(implied_lits@, i as int)),
                ),
            decreases implied_lits.len() - i,
        {
            let l = implied_lits[i];
            let ghost before = self.top();
            let ghost w_before = self.watch_state();
            let ghost rest = pending.union(tail_set(implied_lits@, i + 1));
            proof {
                lemma_open_count_extends(s1, before, nv);
                lemma_next_implied(cs, base, before, implied_lits@, i as int, pending);
            }
            let r = self.set(l, Ghost(rest));
            proof {
                lemma_lower_chain(cs, lower, w_old, w_before, self.watch_state());
                lemma_extends_chain(s1, before, self.top());
                lemma_extends_chain(s_old, s1, self.top());
            }
            if !r {
                proof {
                    lemma_conflict_chain(cs, base, true_lits(before).insert(l));
                }
                return false;
            }
            proof {
                lemma_forced_chain(cs, base, true_lits(before).insert(l), true_lits(self.top()));
            }
            i += 1;
        }
        proof {
            lemma_extends_chain(s_old, s1, self.top());
            assert(lit_true(self.top(), new_assignment));
            lemma_tail_end(implied_lits@, pending);
        }
        true
    }

    /// The number of assignments on the stack: one more than the number of
    /// decisions that have not been taken back.
    pub fn num_frames(&self) -> (r: usize)
        ensures
            r == self.depth(),
    {
        self.state.len()
    }

    /// The latest assignment.
    pub fn get_assgn(&self) -> (r: &PartialModel)
        requires
            self.depth() > 0,
        ensures
            r@ == self.top(),
    {
        self.cur_state()
    }
}

} // verus!
