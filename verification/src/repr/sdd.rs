//! Nodes of sentential decision diagrams and the edges between them.

use crate::backing_store::bump_table::TableItem;
use crate::repr::var_label::VarLabel;
use vstd::prelude::*;

verus! {

/// An edge of a diagram: a constant, a literal, a handle of a binary node,
/// or a handle of a decision node, taken as it is or complemented.
#[derive(Clone, Copy, Debug, PartialEq, Eq, Hash, Structural)]
pub enum SddPtr {
    PtrTrue,
    PtrFalse,
    Literal(VarLabel, bool),
    BDD(usize),
    Reg(usize),
    Compl(usize),
}

impl SddPtr {
    /// The edge to the binary node with the given handle.
    pub fn bdd(handle: usize) -> (r: SddPtr)
        ensures
            r == SddPtr::BDD(handle),
    {
        SddPtr::BDD(handle)
    }

    /// The edge to the decision node with the given handle.
    pub fn or(handle: usize) -> (r: SddPtr)
        ensures
            r == SddPtr::Reg(handle),
    {
        SddPtr::Reg(handle)
    }
}

/// A node like that of a binary decision diagram, at a node of the variable
/// tree whose left child is the leaf of `label`.
#[derive(Clone, Copy, Debug, PartialEq, Eq, Hash, Structural)]
pub struct BinarySDD {
    pub vtree: usize,
    pub label: VarLabel,
    pub low: SddPtr,
    pub high: SddPtr,
}

impl View for BinarySDD {
    type V = BinarySDD;

    open spec fn view(&self) -> BinarySDD {
        *self
    }
}

impl TableItem for BinarySDD {
    fn same(&self, other: &Self) -> (r: bool) {
        *self == *other
    }
}

/// An element of a decision node: a prime and its sub.
#[derive(Clone, Copy, Debug, PartialEq, Eq, Hash, Structural)]
pub struct SddAnd {
    pub prime: SddPtr,
    pub sub: SddPtr,
}

/// A decision node at the node `index` of the variable tree: a list of
/// elements.
#[derive(Debug, PartialEq, Eq, Hash)]
pub struct SddOr {
    pub index: usize,
    pub nodes: Vec<SddAnd>,
}

impl View for SddOr {
    type V = (usize, Seq<SddAnd>);

    open spec fn view(&self) -> (usize, Seq<SddAnd>) {
        (self.index, self.nodes@)
    }
}

impl TableItem for SddOr {
    fn same(&self, other: &Self) -> (r: bool) {
        if self.index != other.index || self.nodes.len() != other.nodes.len() {
            return false;
        }
        let mut i: usize = 0;
        while i < self.nodes.len()
            invariant
                i <= self.nodes@.len(),
                self.nodes@.len() == other.nodes@.len(),
                forall|j: int| 0 <= j < i ==> self.nodes@[j] == other.nodes@[j],
            decreases self.nodes.len() - i,
        {
            if self.nodes[i] != other.nodes[i] {
                return false;
            }
            i += 1;
        }
        assert(self.nodes@ =~= other.nodes@);
        true
    }
}

} // verus!
