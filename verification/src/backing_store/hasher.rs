//! Hashes for the unique tables.
//!
//! A node is hashed by what it is made of: the numbers of its parts are
//! mixed into one 64-bit hash. The builder that interns by semantic hash
//! hashes a residue with the `rustc_hash` crate.

use crate::repr::bdd::{BddNode, BddPtr};
use crate::repr::sdd::{BinarySDD, SddAnd, SddOr, SddPtr};
use vstd::prelude::*;

verus! {

/// What a unique table asks of a hasher: a 64-bit hash for an item, which
/// depends on the view of the item alone.
pub trait UniqueTableHasher<T: View> {
    /// The hash of an item with the given view.
    spec fn hash_of(&self, v: T::V) -> u64;

    fn u64hash(&self, elem: &T) -> (r: u64)
        ensures
            r == self.hash_of(elem@),
    ;
}

/// `a` and `b` mixed into one hash.
pub open spec fn mixed(a: int, b: int) -> int {
    ((a % 0x1_0000_0000_0000_0000) * 1000003 + b) % 0x1_0000_0000_0000_0000
}

/// `a` and `b` mixed into one hash.
pub fn mix(a: u128, b: u128) -> (r: u128)
    requires
        b < 0x1_0000_0000_0000_0000_0000,
    ensures
        r == mixed(a as int, b as int),
        r < 0x1_0000_0000_0000_0000,
{
    ((a % 0x1_0000_0000_0000_0000) * 1000003 + b) % 0x1_0000_0000_0000_0000
}

/// A number for each edge of a binary decision diagram, different for
/// different edges.
pub open spec fn ptr_code(p: BddPtr) -> int {
    match p {
        BddPtr::PtrTrue => 0,
        BddPtr::PtrFalse => 1,
        BddPtr::Reg(n) => 4 * n + 2,
        BddPtr::Compl(n) => 4 * n + 3,
    }
}

/// The number that stands for an edge in a hash.
pub fn code_of(p: BddPtr) -> (r: u128)
    ensures
        r == ptr_code(p),
        r <= 4 * usize::MAX + 3,
{
    match p {
        BddPtr::PtrTrue => 0,
        BddPtr::PtrFalse => 1,
        BddPtr::Reg(n) => 4 * (n as u128) + 2,
        BddPtr::Compl(n) => 4 * (n as u128) + 3,
    }
}

/// A number for each edge of a sentential decision diagram.
pub open spec fn sdd_ptr_code(p: SddPtr) -> int {
    match p {
        SddPtr::PtrTrue => 0,
        SddPtr::PtrFalse => 1,
        SddPtr::Literal(v, b) => 8 * v.0 + if b {
            3int
        } else {
            2int
        },
        SddPtr::BDD(n) => 8 * n + 4,
        SddPtr::Reg(n) => 8 * n + 5,
        SddPtr::Compl(n) => 8 * n + 6,
    }
}

/// The number that stands for an edge in a hash.
pub fn sdd_code_of(p: SddPtr) -> (r: u128)
    ensures
        r == sdd_ptr_code(p),
        r < 0x1_0000_0000_0000_0000_0000,
{
    match p {
        SddPtr::PtrTrue => 0,
        SddPtr::PtrFalse => 1,
        SddPtr::Literal(v, b) => 8 * (v.0 as u128) + if b {
            3
        } else {
            2
        },
        SddPtr::BDD(n) => 8 * (n as u128) + 4,
        SddPtr::Reg(n) => 8 * (n as u128) + 5,
        SddPtr::Compl(n) => 8 * (n as u128) + 6,
    }
}

/// The hash of a node of a binary decision diagram: its variable and its
/// two edges mixed.
pub open spec fn node_hash_of(node: BddNode) -> u64 {
    mixed(mixed(node.var.0 as int, ptr_code(node.low)), ptr_code(node.high)) as u64
}

/// The hash of a node of a binary decision diagram.
pub fn structural_hash(node: &BddNode) -> (r: u64)
    ensures
        r == node_hash_of(*node),
{
    mix(mix(node.var.0 as u128, code_of(node.low)), code_of(node.high)) as u64
}

/// The hash of a binary node of a sentential decision diagram: its place in
/// the variable tree, its variable and its two edges mixed.
pub open spec fn binary_hash_of(node: BinarySDD) -> u64 {
    mixed(
        mixed(mixed(node.vtree as int, node.label.0 as int), sdd_ptr_code(node.low)),
        sdd_ptr_code(node.high),
    ) as u64
}

/// The first `k` elements of a decision node mixed into the hash of its
/// place in the variable tree and the number of its elements.
pub open spec fn elements_hash(index: usize, nodes: Seq<SddAnd>, k: int) -> int
    decreases k,
{
    if k <= 0 {
        mixed(index as int, nodes.len() as int)
    } else {
        mixed(
            mixed(elements_hash(index, nodes, k - 1), sdd_ptr_code(nodes[k - 1].prime)),
            sdd_ptr_code(nodes[k - 1].sub),
        )
    }
}

/// The hash of a decision node.
pub open spec fn decision_hash_of(v: (usize, Seq<SddAnd>)) -> u64 {
    elements_hash(v.0, v.1, v.1.len() as int) as u64
}

/// The hasher that hashes an item by what it is made of.
#[derive(Debug, Default)]
pub struct DefaultUniqueTableHasher {}

impl UniqueTableHasher<BddNode> for DefaultUniqueTableHasher {
    open spec fn hash_of(&self, v: BddNode) -> u64 {
        node_hash_of(v)
    }

    fn u64hash(&self, elem: &BddNode) -> (r: u64) {
        structural_hash(elem)
    }
}

impl UniqueTableHasher<BinarySDD> for DefaultUniqueTableHasher {
    open spec fn hash_of(&self, v: BinarySDD) -> u64 {
        binary_hash_of(v)
    }

    fn u64hash(&self, elem: &BinarySDD) -> (r: u64) {
        mix(
            mix(mix(elem.vtree as u128, elem.label.0 as u128), sdd_code_of(elem.low)),
            sdd_code_of(elem.high),
        ) as u64
    }
}

impl UniqueTableHasher<SddOr> for DefaultUniqueTableHasher {
    open spec fn hash_of(&self, v: (usize, Seq<SddAnd>)) -> u64 {
        decision_hash_of(v)
    }

    fn u64hash(&self, elem: &SddOr) -> (r: u64) {
        let mut h = mix(elem.index as u128, elem.nodes.len() as u128);
        let mut k: usize = 0;
        while k < elem.nodes.len()
            invariant
                k <= elem.nodes@.len(),
                h == elements_hash(elem.index, elem.nodes@, k as int),
                h < 0x1_0000_0000_0000_0000,
            decreases elem.nodes.len() - k,
        {
            h = mix(mix(h, sdd_code_of(elem.nodes[k].prime)), sdd_code_of(elem.nodes[k].sub));
            k += 1;
        }
        h as u64
    }
}

/// Feeds the number to a fresh `rustc_hash::FxHasher` through
/// `std::hash::Hash::hash`, and hands back what `std::hash::Hasher::finish`
/// gives. The hash depends on the width and the byte order of the machine's
/// words, and nothing is claimed of it.
#[verifier::external_body]
pub(crate) fn fx_hash(v: u128) -> (r: u64) {
    let mut hasher = rustc_hash::FxHasher::default();
    std::hash::Hash::hash(&v, &mut hasher);
    std::hash::Hasher::finish(&hasher)
}

} // verus!
