//! Arbitrary small formulas for property tests, drawn from a generator of
//! the `quickcheck` crate.

use crate::repr::clause::{lemma_normalize_clause, normalize_clause};
use crate::repr::cnf::{clause_seqs, lemma_normalize_each, lemma_var_bound, normalize, Cnf};
use crate::repr::var_label::{Literal, VarLabel};
use vstd::prelude::*;

verus! {

/// The source of randomness of the `quickcheck` crate.
#[verifier::external_type_specification]
#[verifier::external_body]
pub struct ExGen(quickcheck::Gen);

/// Calls `quickcheck::Arbitrary::arbitrary` for a `u64`. Nothing is claimed
/// of the result.
#[verifier::external_body]
fn arbitrary_u64(g: &mut quickcheck::Gen) -> (r: u64) {
    <u64 as quickcheck::Arbitrary>::arbitrary(g)
}

/// Calls `quickcheck::Arbitrary::arbitrary` for a `usize`. Nothing is
/// claimed of the result.
#[verifier::external_body]
fn arbitrary_usize(g: &mut quickcheck::Gen) -> (r: usize) {
    <usize as quickcheck::Arbitrary>::arbitrary(g)
}

/// Calls `quickcheck::Arbitrary::arbitrary` for a `bool`. Nothing is claimed
/// of the result.
#[verifier::external_body]
fn arbitrary_bool(g: &mut quickcheck::Gen) -> (r: bool) {
    <bool as quickcheck::Arbitrary>::arbitrary(g)
}

/// The literal that a drawn number and a drawn polarity make, over
/// `num_vars` variables.
pub open spec fn drawn_literal(num_vars: u64, d: (u64, bool)) -> Literal {
    Literal { label: VarLabel((d.0 % num_vars) as u64), polarity: d.1 }
}

/// The clauses that the draws make.
pub open spec fn drawn_clauses(num_vars: u64, draws: Seq<Vec<(u64, bool)>>) -> Seq<Seq<Literal>> {
    Seq::new(
        draws.len(),
        |k: int| Seq::new(draws[k]@.len(), |i: int| drawn_literal(num_vars, draws[k]@[i])),
    )
}

impl Cnf {
    /// The formula over `num_vars` variables that the draws make: each draw
    /// is a number, which is taken modulo `num_vars` for the variable, and a
    /// polarity.
    pub fn from_draws(num_vars: u64, draws: &Vec<Vec<(u64, bool)>>) -> (r: Cnf)
        requires
            0 < num_vars <= usize::MAX,
        ensures
            r.wf(),
            r@ == normalize(drawn_clauses(num_vars, draws@)),
    {
        let ghost want = drawn_clauses(num_vars, draws@);
        let mut clauses: Vec<Vec<Literal>> = Vec::new();
        let mut k: usize = 0;
        while k < draws.len()
            invariant
                k <= draws.len(),
                0 < num_vars <= usize::MAX,
                want == drawn_clauses(num_vars, draws@),
                clause_seqs(clauses@) == want.take(k as int),
            decreases draws.len() - k,
        {
            let drawn = &draws[k];
            let mut clause: Vec<Literal> = Vec::new();
            let mut i: usize = 0;
            while i < drawn.len()
                invariant
                    i <= drawn.len(),
                    0 < num_vars,
                    clause@.len() == i,
                    forall|j: int|
                        0 <= j < i ==> #[trigger] clause@[j] == drawn_literal(num_vars, drawn@[j]),
                decreases drawn.len() - i,
            {
                let (raw, polarity) = drawn[i];
                clause.push(Literal::new(VarLabel::new(raw % num_vars), polarity));
                i += 1;
            }
            proof {
                assert(clause@ =~= want[k as int]);
                let a = clause_seqs(clauses@.push(clause));
                let b = want.take(k + 1);
                assert(clause_seqs(clauses@).len() == want.take(k as int).len());
                assert(a.len() == b.len());
                assert forall|x: int| 0 <= x < a.len() implies a[x] == b[x] by {
                    if x < k {
                        assert(a[x] == clause_seqs(clauses@)[x]);
                        assert(want.take(k as int)[x] == want[x]);
                    }
                }
                assert(a =~= b);
            }
            clauses.push(clause);
            k += 1;
        }
        proof {
            assert(want.take(draws.len() as int) =~= want);
            let ls = clause_seqs(clauses@);
            assert forall|a: int, b: int|
                0 <= a < ls.len() && 0 <= b < ls[a].len() implies (#[trigger] ls[a][b]).label.0
                < usize::MAX by {
                assert(ls[a][b] == drawn_literal(num_vars, draws@[a]@[b]));
            }
        }
        Cnf::new(clauses)
    }

    /// An arbitrary formula with at most 8 variables and 16 clauses, of at
    /// most 3 literals each.
    pub fn arbitrary(g: &mut quickcheck::Gen) -> (r: Cnf)
        ensures
            r.wf(),
            r.spec_num_vars() <= 8,
            1 <= r@.len() <= 16,
            forall|k: int| 0 <= k < r@.len() ==> 1 <= (#[trigger] r@[k]).len() <= 3,
    {
        let num_vars = (arbitrary_u64(g) % 8) + 1;
        let num_clauses = (arbitrary_usize(g) % 16) + 1;
        let mut draws: Vec<Vec<(u64, bool)>> = Vec::new();
        let mut c: usize = 0;
        while c < num_clauses
            invariant
                c <= num_clauses,
                draws@.len() == c,
                forall|k: int| 0 <= k < c ==> 1 <= (#[trigger] draws@[k])@.len() <= 3,
            decreases num_clauses - c,
        {
            let clause_size = (arbitrary_usize(g) % 3) + 1;
            let mut clause: Vec<(u64, bool)> = Vec::new();
            let mut i: usize = 0;
            while i < clause_size
                invariant
                    i <= clause_size,
                    clause@.len() == i,
                decreases clause_size - i,
            {
                let raw = arbitrary_u64(g);
                let polarity = arbitrary_bool(g);
                clause.push((raw, polarity));
                i += 1;
            }
            draws.push(clause);
            c += 1;
        }
        let r = Cnf::from_draws(num_vars, &draws);
        proof {
            let want = drawn_clauses(num_vars, draws@);
            assert forall|k: int| 0 <= k < want.len() implies (#[trigger] want[k]).len() > 0 by {
                assert(draws@[k]@.len() >= 1);
            }
            lemma_normalize_each(want);
            assert forall|k: int| 0 <= k < r@.len() implies 1 <= (#[trigger] r@[k]).len()
                <= 3 by {
                assert(normalize(want)[k] == normalize_clause(want[k]));
                lemma_normalize_clause(want[k]);
                assert(draws@[k]@.len() <= 3);
            }
            lemma_var_bound(r@);
            if r.spec_num_vars() > 0 {
                let (k, i) = choose|k: int, i: int|
                    0 <= k < r@.len() && 0 <= i < r@[k].len() && (#[trigger] r@[k][i]).label.0 + 1
                        == r.spec_num_vars();
                assert(normalize(want)[k] == normalize_clause(want[k]));
                lemma_normalize_clause(want[k]);
                assert(r@[k].contains(r@[k][i]));
                assert(want[k].contains(r@[k][i]));
                let b = choose|b: int| 0 <= b < want[k].len() && want[k][b] == r@[k][i];
                assert(want[k][b] == drawn_literal(num_vars, draws@[k]@[b]));
            }
        }
        r
    }
}

} // verus!
