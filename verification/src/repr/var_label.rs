//! Propositional variables and signed literals.

use vstd::prelude::*;

verus! {

/// A propositional variable, identified by a non-negative number.
#[derive(Clone, Copy, Debug, PartialEq, Eq, Hash, PartialOrd, Ord, Structural)]
pub struct VarLabel(pub u64);

impl VarLabel {
    pub fn new(v: u64) -> (r: VarLabel)
        ensures
            r == VarLabel(v),
    {
        VarLabel(v)
    }

    /// The number that identifies the variable.
    pub fn value(&self) -> (r: u64)
        ensures
            r == self.0,
    {
        self.0
    }

    /// The identifying number as an index.
    pub fn value_usize(&self) -> (r: usize)
        requires
            self.0 <= usize::MAX,
        ensures
            r == self.0,
    {
        self.0 as usize
    }
}

/// A variable together with a polarity: `true` for the variable itself,
/// `false` for its negation.
#[derive(Clone, Copy, Debug, PartialEq, Eq, Hash, Structural)]
pub struct Literal {
    pub label: VarLabel,
    pub polarity: bool,
}

impl Literal {
    pub fn new(label: VarLabel, polarity: bool) -> (r: Literal)
        ensures
            r == (Literal { label, polarity }),
    {
        Literal { label, polarity }
    }

    pub fn get_label(&self) -> (r: VarLabel)
        ensures
            r == self.label,
    {
        self.label
    }

    pub fn get_polarity(&self) -> (r: bool)
        ensures
            r == self.polarity,
    {
        self.polarity
    }

    /// The number of the literal's variable.
    pub fn label(&self) -> (r: u64)
        ensures
            r == self.label.0,
    {
        self.label.0
    }

    /// The literal over the same variable with the opposite polarity.
    pub open spec fn negated(self) -> Literal {
        Literal { label: self.label, polarity: !self.polarity }
    }

    /// The variable's number as a mathematical integer.
    pub open spec fn var(self) -> int {
        self.label.0 as int
    }
}

} // verus!
