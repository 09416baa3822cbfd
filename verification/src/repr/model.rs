//! Three-valued assignments to propositional variables.

use crate::repr::var_label::{Literal, VarLabel};
use vstd::prelude::*;

verus! {

/// The assignment `a` makes the literal `l` true.
pub open spec fn lit_true(a: Seq<Option<bool>>, l: Literal) -> bool {
    0 <= l.var() < a.len() && a[l.var()] == Some(l.polarity)
}

/// The assignment `a` makes the literal `l` false.
pub open spec fn lit_false(a: Seq<Option<bool>>, l: Literal) -> bool {
    0 <= l.var() < a.len() && a[l.var()] == Some(!l.polarity)
}

/// The assignment `a` leaves the variable of `l` open.
pub open spec fn lit_unassigned(a: Seq<Option<bool>>, l: Literal) -> bool {
    0 <= l.var() < a.len() && a[l.var()] is None
}

/// The set of literals that `a` makes true.
pub open spec fn true_lits(a: Seq<Option<bool>>) -> Set<Literal> {
    Set::new(|l: Literal| lit_true(a, l))
}

/// `b` assigns everything that `a` assigns, with the same values.
pub open spec fn extends(a: Seq<Option<bool>>, b: Seq<Option<bool>>) -> bool {
    &&& a.len() == b.len()
    &&& forall|v: int| 0 <= v < a.len() && a[v] is Some ==> b[v] == a[v]
}

/// The number of variables among the first `n` that `a` leaves open.
pub open spec fn open_count(a: Seq<Option<bool>>, n: int) -> nat
    decreases n,
{
    if n <= 0 {
        0
    } else {
        open_count(a, n - 1) + if n <= a.len() && a[n - 1] is None {
            1nat
        } else {
            0nat
        }
    }
}

/// Assigning an open variable lowers the count of open variables by one.
pub proof fn lemma_open_count_assign(a: Seq<Option<bool>>, v: int, b: bool, n: int)
    requires
        0 <= v < a.len(),
        a[v] is None,
        0 <= n <= a.len(),
    ensures
        open_count(a.update(v, Some(b)), n) + (if v < n { 1nat } else { 0nat }) == open_count(a, n),
    decreases n,
{
    if n > 0 {
        lemma_open_count_assign(a, v, b, n - 1);
    }
}

/// An assignment that extends another leaves no more variables open.
pub proof fn lemma_open_count_extends(a: Seq<Option<bool>>, b: Seq<Option<bool>>, n: int)
    requires
        extends(a, b),
        0 <= n <= a.len(),
    ensures
        open_count(b, n) <= open_count(a, n),
    decreases n,
{
    if n > 0 {
        lemma_open_count_extends(a, b, n - 1);
    }
}

/// A partial model: for each variable `true`, `false`, or no value yet.
#[derive(Debug)]
pub struct PartialModel {
    pub assignments: Vec<Option<bool>>,
}

impl View for PartialModel {
    type V = Seq<Option<bool>>;

    open spec fn view(&self) -> Seq<Option<bool>> {
        self.assignments@
    }
}

impl Clone for PartialModel {
    fn clone(&self) -> (r: PartialModel)
        ensures
            r@ == self@,
    {
        let mut copy: Vec<Option<bool>> = Vec::new();
        let mut i: usize = 0;
        while i < self.assignments.len()
            invariant
                i <= self.assignments.len(),
                copy@ == self.assignments@.take(i as int),
            decreases self.assignments.len() - i,
        {
            copy.push(self.assignments[i]);
            i += 1;
        }
        PartialModel { assignments: copy }
    }
}

impl PartialModel {
    /// The model that holds `assignments[v]` for the variable numbered `v`.
    pub fn from_vec(assignments: Vec<Option<bool>>) -> (r: PartialModel)
        ensures
            r@ == assignments@,
    {
        PartialModel { assignments }
    }

    /// The value of a variable, if it has one.
    pub fn get(&self, label: VarLabel) -> (r: Option<bool>)
        requires
            label.0 < self@.len(),
        ensures
            r == self@[label.0 as int],
    {
        let n = self.assignments.len();
        assert(label.0 < n);
        self.assignments[label.0 as usize]
    }

    /// Gives a variable a value.
    pub fn set(&mut self, label: VarLabel, value: bool)
        requires
            label.0 < old(self)@.len(),
        ensures
            final(self)@ == old(self)@.update(label.0 as int, Some(value)),
    {
        let n = self.assignments.len();
        assert(label.0 < n);
        self.assignments[label.0 as usize] = Some(value);
    }

    /// The values of all variables, indexed by variable number.
    pub fn get_vec(&self) -> (r: &[Option<bool>])
        ensures
            r@ == self@,
    {
        self.assignments.as_slice()
    }

    /// Whether the model makes the literal true.
    pub fn lit_implied(&self, lit: Literal) -> (r: bool)
        requires
            lit.var() < self@.len(),
        ensures
            r == lit_true(self@, lit),
    {
        let n = self.assignments.len();
        assert(lit.label.0 < n);
        match self.assignments[lit.label.0 as usize] {
            Some(v) => v == lit.polarity,
            None => false,
        }
    }
}

} // verus!
