//! Random formulas.

use crate::repr::clause::{lemma_normalize_clause, normalize_clause};
use crate::repr::cnf::{clause_seqs, lemma_normalize_each, normalize, Cnf};
use crate::repr::var_label::{Literal, VarLabel};
use vstd::prelude::*;

verus! {

/// The thread-local random number generator of the `rand` crate.
#[verifier::external_type_specification]
#[verifier::external_body]
pub struct ExThreadRng(rand::rngs::ThreadRng);

/// Calls `rand::random` for a `bool`. Nothing is claimed of the result.
#[verifier::external_body]
fn random_polarity() -> (r: bool) {
    rand::random()
}

/// Calls `rand::Rng::gen_range` on the range from 0 up to `n`, without `n`.
/// The contract claims that the result lies in that range; an empty range,
/// on which the call panics, is left out.
#[verifier::external_body]
fn random_index(rng: &mut rand::rngs::ThreadRng, n: usize) -> (r: usize)
    requires
        n > 0,
    ensures
        r < n,
{
    rand::Rng::gen_range(rng, 0..n)
}

/// Calls `rand::Rng::gen_range` on the range from `lo` up to `hi`, without
/// `hi`. The contract claims that the result lies in that range; an empty
/// range, on which the call panics, is left out.
#[verifier::external_body]
pub(crate) fn random_in_range(rng: &mut rand::rngs::ThreadRng, lo: u128, hi: u128) -> (r: u128)
    requires
        lo < hi,
    ensures
        lo <= r < hi,
{
    rand::Rng::gen_range(rng, lo..hi)
}

/// Calls `rand::thread_rng` for the generator of the running thread.
#[verifier::external_body]
pub(crate) fn thread_rng() -> (r: rand::rngs::ThreadRng) {
    rand::thread_rng()
}

/// The number of literals that are picked for a clause.
pub const CLAUSE_SIZE: usize = 3;

/// The literal numbered `j` of those that can be picked: the variable
/// numbered `j + 1`, with the polarity that was drawn for it.
pub open spec fn picked_literal(polarities: Seq<bool>, j: int) -> Literal {
    Literal { label: VarLabel((j + 1) as u64), polarity: polarities[j] }
}

/// The clauses that the picks make: each three picks in a row make one
/// clause.
pub open spec fn picked_clauses(polarities: Seq<bool>, picks: Seq<usize>) -> Seq<Seq<Literal>> {
    Seq::new(
        (picks.len() / 3) as nat,
        |k: int| Seq::new(3, |i: int| picked_literal(polarities, picks[3 * k + i] as int)),
    )
}

impl Cnf {
    /// The formula of the clauses that the picks make. `polarities[j]` is the
    /// polarity in which the variable numbered `j + 1` occurs, and each
    /// three picks in a row name the literals of one clause. Picks that are
    /// left over make no clause.
    pub fn from_picks(polarities: &Vec<bool>, picks: &Vec<usize>) -> (r: Cnf)
        requires
            polarities@.len() < usize::MAX,
            forall|i: int| 0 <= i < picks@.len() ==> #[trigger] picks@[i] < polarities@.len(),
        ensures
            r.wf(),
            r@ == normalize(picked_clauses(polarities@, picks@)),
    {
        let ghost want = picked_clauses(polarities@, picks@);
        let mut clause_vec: Vec<Vec<Literal>> = Vec::new();
        let n = picks.len() / CLAUSE_SIZE;
        let mut k: usize = 0;
        while k < n
            invariant
                k <= n,
                n == picks@.len() / 3,
                polarities@.len() < usize::MAX,
                forall|i: int| 0 <= i < picks@.len() ==> #[trigger] picks@[i] < polarities@.len(),
                want == picked_clauses(polarities@, picks@),
                clause_seqs(clause_vec@) == want.take(k as int),
            decreases n - k,
        {
            let mut var_vec: Vec<Literal> = Vec::new();
            let mut i: usize = 0;
            let total = picks.len();
            assert(3 * k + 3 <= total);
            while i < CLAUSE_SIZE
                invariant
                    i <= 3,
                    k < n,
                    3 * k + 3 <= total,
                    total == picks@.len(),
                    n == picks@.len() / 3,
                    polarities@.len() < usize::MAX,
                    forall|i: int|
                        0 <= i < picks@.len() ==> #[trigger] picks@[i] < polarities@.len(),
                    var_vec@.len() == i,
                    forall|j: int|
                        0 <= j < i ==> #[trigger] var_vec@[j] == picked_literal(
                            polarities@,
                            picks@[3 * k + j] as int,
                        ),
                decreases 3 - i,
            {
                let pick = picks[CLAUSE_SIZE * k + i];
                let var = Literal::new(VarLabel::new((pick + 1) as u64), polarities[pick]);
                var_vec.push(var);
                i += 1;
            }
            proof {
                assert(var_vec@ =~= want[k as int]);
                assert(clause_seqs(clause_vec@.push(var_vec)) =~= want.take(k + 1)) by {
                    let a = clause_seqs(clause_vec@.push(var_vec));
                    let b = want.take(k + 1);
                    assert(want.len() == n);
                    assert(clause_seqs(clause_vec@).len() == want.take(k as int).len());
                    assert(a.len() == b.len());
                    assert forall|x: int| 0 <= x < a.len() implies a[x] == b[x] by {
                        if x < k {
                            assert(a[x] == clause_seqs(clause_vec@)[x]);
                            assert(want.take(k as int)[x] == want[x]);
                        }
                    }
                }
            }
            clause_vec.push(var_vec);
            k += 1;
        }
        proof {
            assert(want.take(n as int) =~= want);
            let ls = clause_seqs(clause_vec@);
            assert forall|a: int, b: int|
                0 <= a < ls.len() && 0 <= b < ls[a].len() implies (#[trigger] ls[a][b]).label.0
                < usize::MAX by {
                assert(ls[a][b] == picked_literal(polarities@, picks@[3 * a + b] as int));
            }
        }
        Cnf::new(clause_vec)
    }

    /// A random formula over the variables numbered from 1 up to `num_vars`,
    /// without `num_vars`, with `num_clauses` clauses of three literals each,
    /// picked among literals of which each variable has one. Literals that
    /// are picked twice for a clause occur in it once.
    pub fn rand_cnf(rng: &mut rand::rngs::ThreadRng, num_vars: usize, num_clauses: usize) -> (r:
        Cnf)
        requires
            num_clauses > 2,
            num_vars >= 2,
        ensures
            r.wf(),
            r@.len() == num_clauses,
            forall|k: int| 0 <= k < r@.len() ==> 1 <= (#[trigger] r@[k]).len() <= 3,
            forall|k: int, i: int|
                0 <= k < r@.len() && 0 <= i < r@[k].len() ==> 1 <= (#[trigger] r@[k][i]).label.0
                    < num_vars,
            forall|k: int, i: int, k2: int, i2: int|
                0 <= k < r@.len() && 0 <= i < r@[k].len() && 0 <= k2 < r@.len() && 0 <= i2
                    < r@[k2].len() && (#[trigger] r@[k][i]).label == (#[trigger] r@[k2][i2]).label
                    ==> r@[k][i] == r@[k2][i2],
    {
        let mut polarities: Vec<bool> = Vec::new();
        let mut x: usize = 1;
        while x < num_vars
            invariant
                1 <= x <= num_vars,
                polarities@.len() == x - 1,
            decreases num_vars - x,
        {
            polarities.push(random_polarity());
            x += 1;
        }
        let mut picks: Vec<usize> = Vec::new();
        let mut c: usize = 0;
        while c < num_clauses
            invariant
                c <= num_clauses,
                polarities@.len() == num_vars - 1,
                num_vars >= 2,
                picks@.len() == 3 * c,
                forall|i: int| 0 <= i < picks@.len() ==> #[trigger] picks@[i] < polarities@.len(),
            decreases num_clauses - c,
        {
            let mut i: usize = 0;
            while i < CLAUSE_SIZE
                invariant
                    i <= 3,
                    polarities@.len() == num_vars - 1,
                    num_vars >= 2,
                    picks@.len() == 3 * c + i,
                    forall|i: int|
                        0 <= i < picks@.len() ==> #[trigger] picks@[i] < polarities@.len(),
                decreases 3 - i,
            {
                let pick = random_index(rng, polarities.len());
                picks.push(pick);
                i += 1;
            }
            c += 1;
        }
        let r = Cnf::from_picks(&polarities, &picks);
        proof {
            let want = picked_clauses(polarities@, picks@);
            lemma_normalize_each(want);
            assert forall|k: int| 0 <= k < r@.len() implies 1 <= (#[trigger] r@[k]).len()
                <= 3 by {
                assert(normalize(want)[k] == normalize_clause(want[k]));
                lemma_normalize_clause(want[k]);
            }
            assert forall|k: int, i: int| 0 <= k < r@.len() && 0 <= i < r@[k].len() implies 1 <= (
            #[trigger] r@[k][i]).label.0 < num_vars && exists|j: int|
                0 <= j < polarities@.len() && r@[k][i] == picked_literal(polarities@, j) by {
                assert(normalize(want)[k] == normalize_clause(want[k]));
                lemma_normalize_clause(want[k]);
                assert(r@[k].contains(r@[k][i]));
                assert(want[k].contains(r@[k][i]));
                let b = choose|b: int| 0 <= b < want[k].len() && want[k][b] == r@[k][i];
                assert(want[k][b] == picked_literal(polarities@, picks@[3 * k + b] as int));
            }
            assert forall|k: int, i: int, k2: int, i2: int|
                0 <= k < r@.len() && 0 <= i < r@[k].len() && 0 <= k2 < r@.len() && 0 <= i2
                    < r@[k2].len() && (#[trigger] r@[k][i]).label == (
                #[trigger] r@[k2][i2]).label implies r@[k][i] == r@[k2][i2] by {
                let j = choose|j: int|
                    0 <= j < polarities@.len() && r@[k][i] == picked_literal(polarities@, j);
                let j2 = choose|j2: int|
                    0 <= j2 < polarities@.len() && r@[k2][i2] == picked_literal(polarities@, j2);
                assert(j == j2);
            }
        }
        r
    }
}

} // verus!
