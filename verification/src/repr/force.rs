//! The whole-number parts of the FORCE heuristic for variable orders
//! (Aloul, Markov and Sakallah, "FORCE: a fast and easy-to-implement
//! variable-ordering heuristic", 2003): the spans of the clauses under an
//! order, the sums of positions from which centres of gravity are taken, and
//! the step from a ranking of the variables to their positions.

use crate::repr::cnf::{clause_seqs, Cnf};
use crate::repr::var_label::Literal;
use vstd::prelude::*;

verus! {

/// The sum of the positions of the variables of the clause.
pub open spec fn position_sum_of(c: Seq<Literal>, pos: Seq<usize>) -> nat
    decreases c.len(),
{
    if c.len() == 0 {
        0
    } else {
        position_sum_of(c.drop_last(), pos) + pos[c.last().var()] as nat
    }
}

/// The least position of a variable of the clause; the number of positions
/// for the empty clause.
pub open spec fn min_position(c: Seq<Literal>, pos: Seq<usize>) -> nat
    decreases c.len(),
{
    if c.len() == 0 {
        pos.len()
    } else {
        let rest = min_position(c.drop_last(), pos);
        let here = pos[c.last().var()] as nat;
        if here < rest {
            here
        } else {
            rest
        }
    }
}

/// The greatest position of a variable of the clause; 0 for the empty
/// clause.
pub open spec fn max_position(c: Seq<Literal>, pos: Seq<usize>) -> nat
    decreases c.len(),
{
    if c.len() == 0 {
        0
    } else {
        let rest = max_position(c.drop_last(), pos);
        let here = pos[c.last().var()] as nat;
        if here > rest {
            here
        } else {
            rest
        }
    }
}

/// How far apart the two variables of the clause are that the order puts
/// farthest from each other.
pub open spec fn clause_span(c: Seq<Literal>, pos: Seq<usize>) -> int {
    max_position(c, pos) - min_position(c, pos)
}

/// The sum of the spans of the clauses.
pub open spec fn span_sum_of(cs: Seq<Seq<Literal>>, pos: Seq<usize>) -> int
    decreases cs.len(),
{
    if cs.len() == 0 {
        0
    } else {
        span_sum_of(cs.drop_last(), pos) + clause_span(cs.last(), pos)
    }
}

/// In a clause that holds a literal, the least position is not above the
/// greatest.
pub proof fn lemma_span_not_negative(c: Seq<Literal>, pos: Seq<usize>)
    requires
        c.len() > 0,
    ensures
        clause_span(c, pos) >= 0,
        max_position(c, pos) <= usize::MAX,
    decreases c.len(),
{
    if c.len() > 1 {
        lemma_span_not_negative(c.drop_last(), pos);
    } else {
        assert(max_position(c.drop_last(), pos) == 0);
        assert(min_position(c.drop_last(), pos) == pos.len());
    }
}

/// The sum of the spans of clauses that hold a literal each is not
/// negative, and grows with the clauses.
pub proof fn lemma_span_sum_monotone(cs: Seq<Seq<Literal>>, pos: Seq<usize>, k: int)
    requires
        forall|j: int| 0 <= j < cs.len() ==> (#[trigger] cs[j]).len() > 0,
        0 <= k <= cs.len(),
    ensures
        0 <= span_sum_of(cs.take(k), pos) <= span_sum_of(cs, pos),
    decreases cs.len() - k,
{
    if k < cs.len() {
        lemma_span_sum_monotone(cs, pos, k + 1);
        assert(cs.take(k + 1).drop_last() =~= cs.take(k));
        lemma_span_not_negative(cs[k], pos);
        assert(cs.take(k + 1).last() == cs[k]);
        lemma_span_sum_prefix(cs.take(k), pos);
    } else {
        assert(cs.take(k) =~= cs);
        lemma_span_sum_prefix(cs, pos);
    }
}

proof fn lemma_span_sum_prefix(cs: Seq<Seq<Literal>>, pos: Seq<usize>)
    requires
        forall|j: int| 0 <= j < cs.len() ==> (#[trigger] cs[j]).len() > 0,
    ensures
        0 <= span_sum_of(cs, pos),
    decreases cs.len(),
{
    if cs.len() > 0 {
        let t = cs.drop_last();
        assert forall|j: int| 0 <= j < t.len() implies (#[trigger] t[j]).len() > 0 by {
            assert(t[j] == cs[j]);
        }
        lemma_span_sum_prefix(t, pos);
        lemma_span_not_negative(cs.last(), pos);
    }
}

/// The sum of the positions grows with the clause.
pub proof fn lemma_position_sum_monotone(c: Seq<Literal>, pos: Seq<usize>, i: int)
    requires
        0 <= i <= c.len(),
    ensures
        position_sum_of(c.take(i), pos) <= position_sum_of(c, pos),
    decreases c.len() - i,
{
    if i < c.len() {
        lemma_position_sum_monotone(c, pos, i + 1);
        assert(c.take(i + 1).drop_last() =~= c.take(i));
    } else {
        assert(c.take(i) =~= c);
    }
}

/// `ranking` lists each of its places once.
pub open spec fn is_ranking(ranking: Seq<usize>) -> bool {
    &&& forall|i: int| 0 <= i < ranking.len() ==> #[trigger] ranking[i] < ranking.len()
    &&& forall|i: int, j: int|
        0 <= i < j < ranking.len() ==> #[trigger] ranking[i] != #[trigger] ranking[j]
}

impl Cnf {
    /// The sum of the positions that `lbl_to_pos` gives the variables of the
    /// clause: what the clause's centre of gravity is taken from.
    pub fn position_sum(&self, clause: &[Literal], lbl_to_pos: &[usize]) -> (r: usize)
        requires
            forall|i: int| 0 <= i < clause@.len() ==> (#[trigger] clause@[i]).var() < lbl_to_pos@.len(),
            position_sum_of(clause@, lbl_to_pos@) <= usize::MAX,
        ensures
            r == position_sum_of(clause@, lbl_to_pos@),
    {
        let mut sum: usize = 0;
        let mut i: usize = 0;
        while i < clause.len()
            invariant
                i <= clause.len(),
                forall|i: int|
                    0 <= i < clause@.len() ==> (#[trigger] clause@[i]).var() < lbl_to_pos@.len(),
                position_sum_of(clause@, lbl_to_pos@) <= usize::MAX,
                sum == position_sum_of(clause@.take(i as int), lbl_to_pos@),
            decreases clause.len() - i,
        {
            proof {
                assert(clause@.take(i + 1).drop_last() =~= clause@.take(i as int));
                assert(clause@.take(i + 1).last() == clause@[i as int]);
                lemma_position_sum_monotone(clause@, lbl_to_pos@, i + 1);
            }
            let n = lbl_to_pos.len();
            assert(clause@[i as int].var() < n);
            sum = lbl_to_pos[clause[i].get_label().value() as usize] + sum;
            i += 1;
        }
        proof {
            assert(clause@.take(clause.len() as int) =~= clause@);
        }
        sum
    }

    /// The sum, over the clauses, of how far apart the order `lbl_to_pos`
    /// puts the two variables of the clause that are farthest from each
    /// other: what the average span of the clauses is taken from. An empty
    /// clause has no span.
    pub fn span_sum(&self, lbl_to_pos: &[usize]) -> (r: usize)
        requires
            self.wf(),
            !crate::repr::cnf::some_empty(self@),
            lbl_to_pos@.len() >= self.spec_num_vars(),
            span_sum_of(self@, lbl_to_pos@) <= usize::MAX,
        ensures
            r == span_sum_of(self@, lbl_to_pos@),
    {
        let clauses = self.clauses();
        let ghost cs = self@;
        let mut total: usize = 0;
        let mut k: usize = 0;
        while k < clauses.len()
            invariant
                k <= clauses.len(),
                self.wf(),
                !crate::repr::cnf::some_empty(cs),
                cs == self@,
                clause_seqs(clauses@) == cs,
                lbl_to_pos@.len() >= self.spec_num_vars(),
                span_sum_of(cs, lbl_to_pos@) <= usize::MAX,
                total == span_sum_of(cs.take(k as int), lbl_to_pos@),
            decreases clauses.len() - k,
        {
            let clause = &clauses[k];
            let mut min_pos = lbl_to_pos.len();
            let mut max_pos: usize = 0;
            // the two variables of the clause that are farthest from each
            // other in the order
            let mut i: usize = 0;
            proof {
                assert(cs[k as int] == clause@);
            }
            while i < clause.len()
                invariant
                    i <= clause.len(),
                    0 <= k < cs.len(),
                    clause@ == cs[k as int],
                    crate::repr::cnf::labels_below(cs, self.spec_num_vars() as int),
                    lbl_to_pos@.len() >= self.spec_num_vars(),
                    min_pos == min_position(clause@.take(i as int), lbl_to_pos@),
                    max_pos == max_position(clause@.take(i as int), lbl_to_pos@),
                decreases clause.len() - i,
            {
                proof {
                    assert(clause@.take(i + 1).drop_last() =~= clause@.take(i as int));
                    assert(clause@.take(i + 1).last() == clause@[i as int]);
                    assert(cs[k as int][i as int].label.0 < self.spec_num_vars());
                }
                let n = lbl_to_pos.len();
                let this_pos = lbl_to_pos[clause[i].get_label().value() as usize];
                if this_pos < min_pos {
                    min_pos = this_pos;
                }
                if this_pos > max_pos {
                    max_pos = this_pos;
                }
                i += 1;
            }
            proof {
                assert(clause@.take(clause.len() as int) =~= clause@);
                assert(cs.take(k + 1).drop_last() =~= cs.take(k as int));
                assert(cs.take(k + 1).last() == clause@);
                lemma_span_not_negative(clause@, lbl_to_pos@);
                lemma_span_sum_monotone(cs, lbl_to_pos@, k + 1);
            }
            total += max_pos - min_pos;
            k += 1;
        }
        proof {
            assert(cs.take(clauses.len() as int) =~= cs);
        }
        total
    }
}

/// The positions that a ranking gives: the variable at place `i` of the
/// ranking gets the position `i`.
pub fn positions_of_ranking(pos_to_lbl: &Vec<usize>) -> (lbl_to_pos: Vec<usize>)
    requires
        is_ranking(pos_to_lbl@),
    ensures
        lbl_to_pos@.len() == pos_to_lbl@.len(),
        forall|i: int|
            0 <= i < pos_to_lbl@.len() ==> lbl_to_pos@[#[trigger] pos_to_lbl@[i] as int] == i,
        is_ranking(lbl_to_pos@),
{
    let n = pos_to_lbl.len();
    let mut lbl_to_pos: Vec<usize> = Vec::new();
    let mut i: usize = 0;
    while i < n
        invariant
            i <= n,
            lbl_to_pos@.len() == i,
        decreases n - i,
    {
        lbl_to_pos.push(0);
        i += 1;
    }
    let mut idx: usize = 0;
    while idx < n
        invariant
            idx <= n,
            n == pos_to_lbl@.len(),
            is_ranking(pos_to_lbl@),
            lbl_to_pos@.len() == n,
            forall|i: int| 0 <= i < idx ==> lbl_to_pos@[#[trigger] pos_to_lbl@[i] as int] == i,
        decreases n - idx,
    {
        let lbl = pos_to_lbl[idx];
        lbl_to_pos[lbl] = idx;
        idx += 1;
    }
    proof {
        lemma_ranking_onto(pos_to_lbl@, n as int);
        assert forall|a: int| 0 <= a < n implies #[trigger] lbl_to_pos@[a] < n by {
            assert(takes(pos_to_lbl@, a));
            let i = choose|i: int| 0 <= i < n && #[trigger] pos_to_lbl@[i] == a;
            assert(lbl_to_pos@[pos_to_lbl@[i] as int] == i);
        }
        assert forall|a: int, b: int| 0 <= a < b < n implies #[trigger] lbl_to_pos@[a]
            != #[trigger] lbl_to_pos@[b] by {
            assert(takes(pos_to_lbl@, a));
            assert(takes(pos_to_lbl@, b));
            let i = choose|i: int| 0 <= i < n && #[trigger] pos_to_lbl@[i] == a;
            let j = choose|j: int| 0 <= j < n && #[trigger] pos_to_lbl@[j] == b;
            assert(lbl_to_pos@[pos_to_lbl@[i] as int] == i);
            assert(lbl_to_pos@[pos_to_lbl@[j] as int] == j);
        }
    }
    lbl_to_pos
}

/// The ranking takes the value `a`.
spec fn takes(ranking: Seq<usize>, a: int) -> bool {
    exists|i: int| 0 <= i < ranking.len() && #[trigger] ranking[i] == a
}

/// A ranking takes every value below its length.
proof fn lemma_ranking_onto(ranking: Seq<usize>, n: int)
    requires
        is_ranking(ranking),
        n == ranking.len(),
    ensures
        forall|a: int| 0 <= a < n ==> #[trigger] takes(ranking, a),
{
    lemma_taken_len(ranking, n);
    let s = Set::new(|a: int| exists|i: int| 0 <= i < n && #[trigger] ranking[i] == a);
    let all = Set::new(|a: int| 0 <= a < n);
    assert(s.subset_of(all));
    lemma_range_set(n);
    vstd::set_lib::lemma_subset_equality(s, all);
    assert forall|a: int| 0 <= a < n implies #[trigger] takes(ranking, a) by {
        assert(all.contains(a));
        assert(s.contains(a));
    }
}

/// The numbers below `n` are `n` in number.
proof fn lemma_range_set(n: int)
    requires
        n >= 0,
    ensures
        Set::new(|a: int| 0 <= a < n).finite(),
        Set::new(|a: int| 0 <= a < n).len() == n,
    decreases n,
{
    let s = Set::new(|a: int| 0 <= a < n);
    if n == 0 {
        assert(s =~= Set::<int>::empty());
    } else {
        lemma_range_set(n - 1);
        let t = Set::new(|a: int| 0 <= a < n - 1);
        assert(s =~= t.insert(n - 1));
    }
}

/// The values that a ranking takes at its first `k` places are `k` in
/// number.
proof fn lemma_taken_len(ranking: Seq<usize>, k: int)
    requires
        is_ranking(ranking),
        0 <= k <= ranking.len(),
    ensures
        Set::new(|a: int| exists|i: int| 0 <= i < k && #[trigger] ranking[i] == a).finite(),
        Set::new(|a: int| exists|i: int| 0 <= i < k && #[trigger] ranking[i] == a).len() == k,
    decreases k,
{
    let s = Set::new(|a: int| exists|i: int| 0 <= i < k && #[trigger] ranking[i] == a);
    if k == 0 {
        assert(s =~= Set::<int>::empty());
    } else {
        lemma_taken_len(ranking, k - 1);
        let t = Set::new(|a: int| exists|i: int| 0 <= i < k - 1 && #[trigger] ranking[i] == a);
        let v = ranking[k - 1] as int;
        assert(!t.contains(v));
        assert forall|a: int| s.contains(a) <==> t.insert(v).contains(a) by {
            if s.contains(a) {
                let i = choose|i: int| 0 <= i < k && #[trigger] ranking[i] == a;
                if i < k - 1 {
                    assert(t.contains(a));
                }
            }
            if t.contains(a) {
                let i = choose|i: int| 0 <= i < k - 1 && #[trigger] ranking[i] == a;
                assert(ranking[i] == a);
            }
        }
        assert(s =~= t.insert(v));
    }
}

} // verus!
