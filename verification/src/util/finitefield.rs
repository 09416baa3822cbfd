//! The integers modulo a number `P`, as weights for semantic hashing.

use vstd::arithmetic::div_mod::{
    lemma_add_mod_noop, lemma_mod_add_multiples_vanish, lemma_mod_bound, lemma_small_mod,
};
use vstd::arithmetic::mul::lemma_mul_upper_bound;
use vstd::prelude::*;

verus! {

/// The modulus is at least 2 and small enough for the product of two
/// residues to fit a machine word.
pub open spec fn modulus_ok(p: u128) -> bool {
    2 <= p <= 0x1_0000_0000_0000_0000
}

/// What stands for the negation of `v` modulo `p`: `1 - v`.
pub open spec fn negated(v: int, p: int) -> int {
    (p + 1 - v) % p
}

/// A value and what stands for its negation add up to 1 modulo `p`.
pub proof fn lemma_negated_sum(v: int, p: int)
    requires
        p >= 2,
        0 <= v < p,
    ensures
        (v + negated(v, p)) % p == 1,
        0 <= negated(v, p) < p,
        negated(negated(v, p), p) == v,
        v == 0 ==> negated(v, p) == 1,
        v == 1 ==> negated(v, p) == 0,
{
    lemma_mod_bound(p + 1 - v, p);
    lemma_add_mod_noop(v, p + 1 - v, p);
    lemma_small_mod(v as nat, p as nat);
    lemma_mod_add_multiples_vanish(1, p);
    lemma_small_mod(1, p as nat);
    // 1 - v is 1 for v == 0, 0 for v == 1, and p + 1 - v else
    if v == 0 {
        assert(negated(v, p) == 1);
        lemma_mod_self_zero(p);
    } else if v == 1 {
        lemma_mod_self_zero(p);
        assert(negated(v, p) == 0);
        assert(negated(0, p) == 1);
    } else {
        lemma_small_mod((p + 1 - v) as nat, p as nat);
        assert(negated(v, p) == p + 1 - v);
        lemma_small_mod(v as nat, p as nat);
    }
}

proof fn lemma_mod_self_zero(p: int)
    requires
        p >= 2,
    ensures
        p % p == 0,
        (p + 1) % p == 1,
{
    vstd::arithmetic::div_mod::lemma_mod_self_0(p);
    lemma_mod_add_multiples_vanish(1, p);
    lemma_small_mod(1, p as nat);
}

/// An integer modulo `P`.
#[derive(Clone, Copy, Debug, PartialEq, Eq, Hash)]
pub struct FiniteField<const P: u128> {
    v: u128,
}

impl<const P: u128> View for FiniteField<P> {
    type V = int;

    closed spec fn view(&self) -> int {
        self.v as int
    }
}

impl<const P: u128> FiniteField<P> {
    /// The value is a residue: it lies below `P`.
    pub open spec fn wf(&self) -> bool {
        0 <= self@ < P
    }

    /// The residue of `v`.
    pub fn new(v: u128) -> (r: Self)
        requires
            P > 0,
        ensures
            r@ == v % P,
            r.wf(),
    {
        proof {
            lemma_mod_bound(v as int, P as int);
        }
        FiniteField { v: v % P }
    }

    pub fn value(&self) -> (r: u128)
        ensures
            r == self@,
    {
        self.v
    }

    pub fn zero() -> (r: Self)
        ensures
            r@ == 0,
    {
        FiniteField { v: 0 }
    }

    pub fn one() -> (r: Self)
        requires
            modulus_ok(P),
        ensures
            r@ == 1,
            r.wf(),
    {
        FiniteField { v: 1 }
    }

    /// What stands for the negation: `1 - v` modulo `P`.
    pub fn negate(&self) -> (r: Self)
        requires
            modulus_ok(P),
            self.wf(),
        ensures
            r@ == negated(self@, P as int),
            r.wf(),
    {
        proof {
            lemma_mod_bound(P + 1 - self@, P as int);
        }
        FiniteField::new((P + 1) - self.v)
    }

    /// The sum modulo `P`.
    pub fn plus(&self, rhs: &Self) -> (r: Self)
        requires
            modulus_ok(P),
            self.wf(),
            rhs.wf(),
        ensures
            r@ == (self@ + rhs@) % (P as int),
            r.wf(),
    {
        FiniteField::new(self.v + rhs.v)
    }

    /// The product modulo `P`.
    pub fn times(&self, rhs: &Self) -> (r: Self)
        requires
            modulus_ok(P),
            self.wf(),
            rhs.wf(),
        ensures
            r@ == (self@ * rhs@) % (P as int),
            r.wf(),
    {
        proof {
            lemma_mul_upper_bound(self@, P - 1, rhs@, P - 1);
            assert((P - 1) * (P - 1) <= 0xffff_ffff_ffff_ffff_ffff_ffff_ffff_ffff) by (nonlinear_arith)
                requires
                    2 <= P <= 0x1_0000_0000_0000_0000,
            ;
        }
        FiniteField::new(self.v * rhs.v)
    }
}

} // verus!
