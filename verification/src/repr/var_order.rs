//! The order in which a decision diagram tests its variables.

use crate::repr::var_label::VarLabel;
use vstd::prelude::*;

verus! {

/// A sequence of variables: the variable at position 0 is tested first.
#[derive(Debug)]
pub struct VarOrder {
    pub order: Vec<VarLabel>,
}

impl View for VarOrder {
    type V = Seq<VarLabel>;

    open spec fn view(&self) -> Seq<VarLabel> {
        self.order@
    }
}

impl VarOrder {
    /// Every variable below the length occurs, and none twice.
    pub open spec fn is_permutation(&self) -> bool {
        &&& forall|i: int| 0 <= i < self@.len() ==> (#[trigger] self@[i]).0 < self@.len()
        &&& forall|i: int, j: int| 0 <= i < j < self@.len() ==> self@[i] != self@[j]
    }

    pub fn new(order: Vec<VarLabel>) -> (r: VarOrder)
        ensures
            r@ == order@,
    {
        VarOrder { order }
    }

    /// The number of variables in the order.
    pub fn num_vars(&self) -> (r: usize)
        ensures
            r == self@.len(),
    {
        self.order.len()
    }

    /// The variable at a position.
    pub fn var_at_pos(&self, pos: usize) -> (r: VarLabel)
        requires
            pos < self@.len(),
        ensures
            r == self@[pos as int],
    {
        self.order[pos]
    }
}

} // verus!
