//! The weighted model count of a formula, by going through all assignments.

use crate::repr::assignment_iter::{
    assignment_of, lemma_all_true_last, lemma_assignment_of_len, lemma_assignment_of_zero,
    lemma_incremented, pow2, AssignmentIter,
};
use crate::repr::cnf::{formula_holds, Cnf};
use crate::repr::var_label::Literal;
use std::collections::HashMap;
use vstd::prelude::*;

verus! {

/// The weight that `w` gives the variable numbered `v` with the value `b`:
/// the first of the pair for `false`, the second for `true`.
pub open spec fn literal_weight(w: Seq<(nat, nat)>, v: int, b: bool) -> nat {
    if b {
        w[v].1
    } else {
        w[v].0
    }
}

/// The weights of the first `n` variables that a map from the numbers of
/// variables gives.
pub open spec fn weights_of(m: Map<u64, (usize, usize)>, n: nat) -> Seq<(nat, nat)> {
    Seq::new(n, |v: int| (m[v as u64].0 as nat, m[v as u64].1 as nat))
}

/// The product of the weights of the values that `a` gives its variables.
pub open spec fn assignment_weight(a: Seq<bool>, w: Seq<(nat, nat)>) -> nat
    decreases a.len(),
{
    if a.len() == 0 {
        1
    } else {
        assignment_weight(a.drop_last(), w) * literal_weight(w, a.len() - 1, a.last())
    }
}

/// The weight of `a` if it is a model of the formula, and 0 if not.
pub open spec fn model_weight(
    cs: Seq<Seq<Literal>>,
    w: Seq<(nat, nat)>,
    a: Seq<bool>,
) -> nat {
    if formula_holds(cs, a) {
        assignment_weight(a, w)
    } else {
        0
    }
}

/// The sum of the weights of the models among the assignments to `n`
/// variables whose code is below `k`.
pub open spec fn weighted_count_below(
    cs: Seq<Seq<Literal>>,
    w: Seq<(nat, nat)>,
    n: nat,
    k: nat,
) -> nat
    decreases k,
{
    if k == 0 {
        0
    } else {
        weighted_count_below(cs, w, n, (k - 1) as nat) + model_weight(
            cs,
            w,
            assignment_of((k - 1) as nat, n),
        )
    }
}

/// The weighted model count over `n` variables: the sum, over the
/// assignments to them that make the formula true, of the product of the
/// weights of their values.
pub open spec fn weighted_model_count(
    cs: Seq<Seq<Literal>>,
    w: Seq<(nat, nat)>,
    n: nat,
) -> nat {
    weighted_count_below(cs, w, n, pow2(n))
}

/// The count, and every product that leads to the weight of a model, fit
/// the machine's word.
pub open spec fn count_fits(cs: Seq<Seq<Literal>>, w: Seq<(nat, nat)>, n: nat) -> bool {
    &&& weighted_model_count(cs, w, n) <= usize::MAX
    &&& forall|k: nat, j: int|
        k < pow2(n) && formula_holds(cs, assignment_of(k, n)) && 0 <= j <= n
            ==> #[trigger] assignment_weight(assignment_of(k, n).take(j), w) <= usize::MAX
}

/// The product of the weights of the first values of the assignment fits
/// the machine's word, however many are taken.
pub open spec fn prefixes_fit(a: Seq<bool>, w: Seq<(nat, nat)>) -> bool {
    forall|x: int| 0 <= x <= a.len() ==> #[trigger] assignment_weight(a.take(x), w) <= usize::MAX
}

/// The models among the assignments with a code below `k` have weights
/// whose products fit.
pub open spec fn models_fit(cs: Seq<Seq<Literal>>, w: Seq<(nat, nat)>, n: nat, k: nat) -> bool {
    forall|i: nat|
        i < k && formula_holds(cs, assignment_of(i, n)) ==> #[trigger] prefixes_fit(
            assignment_of(i, n),
            w,
        )
}

/// The count fits if and only if it fits the word and the products of the
/// weights of every model do.
pub proof fn lemma_count_fits(cs: Seq<Seq<Literal>>, w: Seq<(nat, nat)>, n: nat)
    ensures
        count_fits(cs, w, n) <==> weighted_model_count(cs, w, n) <= usize::MAX && models_fit(
            cs,
            w,
            n,
            pow2(n),
        ),
{
    if count_fits(cs, w, n) {
        assert forall|i: nat|
            i < pow2(n) && formula_holds(cs, assignment_of(i, n)) implies #[trigger] prefixes_fit(
            assignment_of(i, n),
            w,
        ) by {
            lemma_assignment_of_len(i, n);
            assert forall|x: int| 0 <= x <= assignment_of(i, n).len() implies #[trigger] assignment_weight(
                assignment_of(i, n).take(x),
                w,
            ) <= usize::MAX by {}
        }
    }
    if weighted_model_count(cs, w, n) <= usize::MAX && models_fit(cs, w, n, pow2(n)) {
        assert forall|k: nat, j: int|
            k < pow2(n) && formula_holds(cs, assignment_of(k, n)) && 0 <= j <= n implies #[trigger] assignment_weight(
            assignment_of(k, n).take(j),
            w,
        ) <= usize::MAX by {
            lemma_assignment_of_len(k, n);
            assert(prefixes_fit(assignment_of(k, n), w));
        }
    }
}

/// Where the products of the weights of a model do not fit, the count does
/// not fit.
pub proof fn lemma_model_too_heavy(cs: Seq<Seq<Literal>>, w: Seq<(nat, nat)>, n: nat, j: nat)
    requires
        j < pow2(n),
        formula_holds(cs, assignment_of(j, n)),
        !prefixes_fit(assignment_of(j, n), w),
    ensures
        !count_fits(cs, w, n),
{
    lemma_count_fits(cs, w, n);
    if models_fit(cs, w, n, pow2(n)) {
        assert(prefixes_fit(assignment_of(j, n), w));
    }
}

/// With an assignment whose weight fits, if it is a model, the models
/// among one more assignment have weights that fit.
pub proof fn lemma_models_fit_step(cs: Seq<Seq<Literal>>, w: Seq<(nat, nat)>, n: nat, j: nat)
    requires
        models_fit(cs, w, n, j),
        formula_holds(cs, assignment_of(j, n)) ==> prefixes_fit(assignment_of(j, n), w),
    ensures
        models_fit(cs, w, n, j + 1),
{
    assert forall|i: nat|
        i < j + 1 && formula_holds(cs, assignment_of(i, n)) implies #[trigger] prefixes_fit(
        assignment_of(i, n),
        w,
    ) by {
        if i < j {
            assert(prefixes_fit(assignment_of(i, n), w));
        }
    }
}

/// The sum grows with the bound on the codes.
pub proof fn lemma_count_monotone(
    cs: Seq<Seq<Literal>>,
    w: Seq<(nat, nat)>,
    n: nat,
    j: nat,
    k: nat,
)
    requires
        j <= k,
    ensures
        weighted_count_below(cs, w, n, j) <= weighted_count_below(cs, w, n, k),
    decreases k,
{
    if j < k {
        lemma_count_monotone(cs, w, n, j, (k - 1) as nat);
    }
}

impl Cnf {
    /// The weighted model count of the formula. `weights` gives each
    /// variable, by its number, the weight of `false` and the weight of
    /// `true`. The time taken doubles with each variable.
    pub fn wmc(&self, weights: &HashMap<u64, (usize, usize)>) -> (r: usize)
        requires
            self.wf(),
            forall|v: u64| v < self.spec_num_vars() ==> weights@.contains_key(v),
            count_fits(
                self@,
                weights_of(weights@, self.spec_num_vars() as nat),
                self.spec_num_vars() as nat,
            ),
        ensures
            r == weighted_model_count(
                self@,
                weights_of(weights@, self.spec_num_vars() as nat),
                self.spec_num_vars() as nat,
            ),
    {
        match self.try_wmc(weights) {
            Some(total) => total,
            None => {
                proof {
                    assert(false);
                }
                0
            },
        }
    }

    /// The weighted model count of the formula, if the count and every
    /// product that leads to the weight of a model fit the machine's word;
    /// `None` if one does not.
    pub fn try_wmc(&self, weights: &HashMap<u64, (usize, usize)>) -> (r: Option<usize>)
        requires
            self.wf(),
            forall|v: u64| v < self.spec_num_vars() ==> weights@.contains_key(v),
        ensures
            r is Some <==> count_fits(
                self@,
                weights_of(weights@, self.spec_num_vars() as nat),
                self.spec_num_vars() as nat,
            ),
            r matches Some(total) ==> total == weighted_model_count(
                self@,
                weights_of(weights@, self.spec_num_vars() as nat),
                self.spec_num_vars() as nat,
            ),
    {
        let n = self.num_vars();
        let ghost cs = self@;
        let ghost w = weights_of(weights@, n as nat);
        let mut total: usize = 0;
        let mut weight_vec: Vec<(usize, usize)> = Vec::new();
        let mut i: usize = 0;
        while i < n
            invariant
                i <= n,
                w == weights_of(weights@, n as nat),
                forall|v: u64| v < n ==> weights@.contains_key(v),
                weight_vec@.len() == i,
                forall|v: int|
                    0 <= v < i ==> (#[trigger] weight_vec@[v]).0 == w[v].0 && weight_vec@[v].1
                        == w[v].1,
            decreases n - i,
        {
            match weights.get(&(i as u64)) {
                Some(p) => {
                    weight_vec.push(*p);
                },
                None => {
                    assert(weights@.contains_key(i as u64));
                    assert(false);
                },
            }
            i += 1;
        }
        let mut iter = AssignmentIter::new(n);
        let ghost mut j: nat = 0;
        let mut next = iter.next();
        proof {
            lemma_assignment_of_zero(n as nat);
            Self::lemma_pow2_positive(n as nat);
        }
        while next.is_some()
            invariant
                self.wf(),
                n == self.spec_num_vars(),
                cs == self@,
                w == weights_of(weights@, n as nat),
                w.len() == n,
                weight_vec@.len() == n,
                forall|v: int|
                    0 <= v < n ==> (#[trigger] weight_vec@[v]).0 == w[v].0 && weight_vec@[v].1
                        == w[v].1,
                iter.width() == n,
                j <= pow2(n as nat),
                total == weighted_count_below(cs, w, n as nat, j),
                models_fit(cs, w, n as nat, j),
                next.is_some() ==> j < pow2(n as nat) && next.unwrap()@ == assignment_of(
                    j,
                    n as nat,
                ) && iter.cur() == Some(assignment_of(j, n as nat)),
                next.is_none() ==> j == pow2(n as nat),
            decreases pow2(n as nat) - j,
        {
            let assgn = next.unwrap();
            let ghost a = assignment_of(j, n as nat);
            proof {
                lemma_assignment_of_len(j, n as nat);
                lemma_count_monotone(cs, w, n as nat, j + 1, pow2(n as nat));
            }
            if self.eval(&assgn) {
                match Self::weight_of(&assgn, &weight_vec, Ghost(w)) {
                    Some(assgn_w) => match total.checked_add(assgn_w) {
                        Some(sum) => {
                            total = sum;
                        },
                        None => {
                            proof {
                                assert(weighted_count_below(cs, w, n as nat, j + 1) == total
                                    + assgn_w);
                                lemma_count_fits(cs, w, n as nat);
                            }
                            return None;
                        },
                    },
                    None => {
                        proof {
                            lemma_model_too_heavy(cs, w, n as nat, j);
                        }
                        return None;
                    },
                }
            }
            proof {
                lemma_models_fit_step(cs, w, n as nat, j);
                lemma_all_true_last(j, n as nat);
                if j + 1 < pow2(n as nat) {
                    lemma_incremented(j, n as nat);
                }
                j = j + 1;
            }
            next = iter.next();
        }
        proof {
            lemma_count_fits(cs, w, n as nat);
        }
        Some(total)
    }

    /// The product of the weights of the values of the assignment, if it
    /// and the products on the way to it fit the machine's word.
    fn weight_of(assgn: &Vec<bool>, weight_vec: &Vec<(usize, usize)>, Ghost(w): Ghost<
        Seq<(nat, nat)>,
    >) -> (r: Option<usize>)
        requires
            weight_vec@.len() == assgn@.len(),
            w.len() == assgn@.len(),
            forall|v: int|
                0 <= v < assgn@.len() ==> (#[trigger] weight_vec@[v]).0 == w[v].0
                    && weight_vec@[v].1 == w[v].1,
        ensures
            r is Some <==> prefixes_fit(assgn@, w),
            r matches Some(weight) ==> weight == assignment_weight(assgn@, w),
    {
        let ghost a = assgn@;
        let n = assgn.len();
        let mut assgn_w: usize = 1;
        let mut idx: usize = 0;
        proof {
            assert(a.take(0).len() == 0);
        }
        while idx < n
            invariant
                idx <= n,
                a == assgn@,
                a.len() == n,
                weight_vec@.len() == n,
                w.len() == n,
                forall|v: int|
                    0 <= v < n ==> (#[trigger] weight_vec@[v]).0 == w[v].0 && weight_vec@[v].1
                        == w[v].1,
                assgn_w == assignment_weight(a.take(idx as int), w),
                forall|x: int|
                    0 <= x <= idx ==> #[trigger] assignment_weight(a.take(x), w) <= usize::MAX,
            decreases n - idx,
        {
            let (loww, highw) = weight_vec[idx];
            let polarity = assgn[idx];
            proof {
                let t = a.take(idx + 1);
                assert(t.drop_last() =~= a.take(idx as int));
                assert(t.last() == a[idx as int]);
                assert(weight_vec@[idx as int].0 == w[idx as int].0);
            }
            let factor = if polarity {
                highw
            } else {
                loww
            };
            match assgn_w.checked_mul(factor) {
                Some(product) => {
                    assgn_w = product;
                },
                None => {
                    proof {
                        assert(assignment_weight(a.take(idx + 1), w) > usize::MAX);
                    }
                    return None;
                },
            }
            idx += 1;
        }
        proof {
            assert(a.take(n as int) =~= a);
        }
        Some(assgn_w)
    }

    proof fn lemma_pow2_positive(n: nat)
        ensures
            pow2(n) > 0,
        decreases n,
    {
        if n > 0 {
            Self::lemma_pow2_positive((n - 1) as nat);
        }
    }
}

} // verus!
