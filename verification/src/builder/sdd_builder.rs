//! The builder of sentential decision diagrams along a variable tree.
//!
//! Nodes are made unique by what they hold. The conjunction of two edges is
//! taken at the lowest node of the variable tree that both belong to: the
//! elements of the two are multiplied out, elements with the same sub are
//! merged, and a list that stands for an edge of its own is replaced by
//! that edge.

use crate::backing_store::hasher::{sdd_code_of, sdd_ptr_code};
use crate::builder::bdd_builder::{field_weights, weights_ok};
use crate::builder::canonicalize::{CompressionCanonicalizer, SddCanonicalizationScheme};
use crate::repr::bdd::WmcParams;
use crate::repr::cnf::{clause_holds, clause_seqs, formula_holds, labels_below, literal_holds, Cnf};
use crate::repr::sdd::{SddAnd, SddOr, SddPtr};
use crate::repr::sdd_canonical::{
    lemma_can_be_true, lemma_grown_sat, lemma_push_sat, primes_sat, satisfiable, tables_sat,
};
use crate::repr::sdd_product::{
    is_added, is_product, lemma_count_prefix, lemma_grown_respects, lemma_grown_twice,
    lemma_pair_step, lemma_progress_end, lemma_progress_row, lemma_progress_start, progress, whole,
};
use crate::repr::sdd_semantics::{
    compressed, denotes, element_holds, grown, is_partition, key_before, lemma_child_room,
    lemma_count_of, lemma_grown_denotes, lemma_grown_list, lemma_list_insert, lemma_list_push,
    lemma_list_update, lemma_negated, lemma_negated_list, lemma_grown_structured, lemma_key_order,
    lemma_node_is_list, list_holds, negated_subs, or_ok, place, prime_count, room, prime_sorted,
    ptr_ok, respects, structured, subs_plain, tables_ok, trimmed, unit, SddTables,
};
use crate::repr::sdd_wmc::{
    edge_sum, lemma_false_sum, lemma_leaf_sum, lemma_partition_sum, lemma_whole_list, pair_sum,
    whole_list,
};
use crate::repr::vtree::{
    inside, leaves_below, left_of, node_shape, right_of, vars_ok, VTree, VTreeManager,
};
use crate::repr::var_label::{Literal, VarLabel};
use crate::util::finitefield::{modulus_ok, FiniteField};
use vstd::arithmetic::div_mod::{lemma_add_mod_noop, lemma_mul_mod_noop_general, lemma_small_mod};
use std::collections::HashMap;
use vstd::prelude::*;

verus! {

/// Whether the first edge comes before the second.
pub fn comes_before(p: SddPtr, q: SddPtr) -> (r: bool)
    ensures
        r == key_before(p, q),
{
    let (a, b, c) = key_of(p);
    let (x, y, z) = key_of(q);
    a < x || (a == x && (b < y || (b == y && c < z)))
}

/// The number by which an edge is ordered.
fn key_of(p: SddPtr) -> (r: (u8, u64, u8))
    ensures
        (r.0 as int, r.1 as int, r.2 as int) == p.key(),
{
    match p {
        SddPtr::PtrTrue => (0, 0, 0),
        SddPtr::PtrFalse => (1, 0, 0),
        SddPtr::Literal(v, b) => (2, v.0, if b {
            1
        } else {
            0
        }),
        SddPtr::BDD(h) => (3, h as u64, 0),
        SddPtr::Reg(h) => (4, h as u64, 0),
        SddPtr::Compl(h) => (5, h as u64, 0),
    }
}

/// The edge for the negation.
pub fn negate(p: SddPtr) -> (r: SddPtr)
    ensures
        r == p.negated(),
{
    match p {
        SddPtr::PtrTrue => SddPtr::PtrFalse,
        SddPtr::PtrFalse => SddPtr::PtrTrue,
        SddPtr::Literal(v, b) => SddPtr::Literal(v, !b),
        SddPtr::BDD(h) => SddPtr::BDD(h),
        SddPtr::Reg(h) => SddPtr::Compl(h),
        SddPtr::Compl(h) => SddPtr::Reg(h),
    }
}

/// Whether the edge is a constant.
pub fn is_constant(p: SddPtr) -> (r: bool)
    ensures
        r == p.is_constant(),
{
    match p {
        SddPtr::PtrTrue => true,
        SddPtr::PtrFalse => true,
        _ => false,
    }
}

/// Whether the edge is the negated one of the two edges for a function and
/// its negation.
pub fn is_negated(p: SddPtr) -> (r: bool)
    ensures
        r == p.is_negated(),
{
    match p {
        SddPtr::PtrFalse => true,
        SddPtr::Literal(_, b) => !b,
        SddPtr::Compl(_) => true,
        _ => false,
    }
}

/// The edge `r` denotes in the tables `u` the conjunction of what `f` and
/// `g` denote in the tables `t`.
#[verifier::opaque]
pub open spec fn is_and(t: SddTables, u: SddTables, r: SddPtr, f: SddPtr, g: SddPtr) -> bool {
    forall|a: Seq<bool>| #[trigger] denotes(u, r, a) == (denotes(t, f, a) && denotes(t, g, a))
}

/// The edge `r` denotes in the tables `u` what the list denotes in the
/// tables `t`.
#[verifier::opaque]
pub open spec fn is_list(t: SddTables, u: SddTables, r: SddPtr, l: Seq<SddAnd>) -> bool {
    forall|a: Seq<bool>| #[trigger] denotes(u, r, a) == list_holds(t, l, a)
}

/// The list denotes what the edge denotes.
#[verifier::opaque]
pub open spec fn list_of(t: SddTables, l: Seq<SddAnd>, f: SddPtr) -> bool {
    forall|a: Seq<bool>| #[trigger] list_holds(t, l, a) == denotes(t, f, a)
}

/// Under the assignments of `n` variables the edge denotes the disjunction
/// of the first `k` literals of the clause.
#[verifier::opaque]
pub open spec fn is_clause_upto(t: SddTables, n: nat, c: Seq<Literal>, k: int, r: SddPtr) -> bool {
    forall|a: Seq<bool>|
        a.len() == n ==> #[trigger] denotes(t, r, a) == (exists|i: int|
            0 <= i < k && #[trigger] literal_holds(c[i], a))
}

/// Under the assignments of `n` variables the edge denotes the conjunction
/// of the first `k` clauses.
#[verifier::opaque]
pub open spec fn is_formula_upto(
    t: SddTables,
    n: nat,
    cs: Seq<Seq<Literal>>,
    k: int,
    r: SddPtr,
) -> bool {
    forall|a: Seq<bool>|
        a.len() == n ==> #[trigger] denotes(t, r, a) == (forall|j: int|
            0 <= j < k ==> clause_holds(#[trigger] cs[j], a))
}

/// The edge `r` denotes in the tables `u` the disjunction of what `f` and
/// `g` denote in the tables `t`.
#[verifier::opaque]
pub open spec fn is_or(t: SddTables, u: SddTables, r: SddPtr, f: SddPtr, g: SddPtr) -> bool {
    forall|a: Seq<bool>| #[trigger] denotes(u, r, a) == (denotes(t, f, a) || denotes(t, g, a))
}

/// With the next literal joined the edge denotes the disjunction of one
/// more literal of the clause.
proof fn lemma_clause_step(
    t: SddTables,
    u: SddTables,
    n: nat,
    c: Seq<Literal>,
    i: int,
    before: SddPtr,
    r: SddPtr,
)
    requires
        0 <= i < c.len(),
        c[i].label.0 < n,
        is_clause_upto(t, n, c, i, before),
        is_or(t, u, r, before, SddPtr::Literal(c[i].label, c[i].polarity)),
    ensures
        is_clause_upto(u, n, c, i + 1, r),
{
    reveal(is_clause_upto);
    reveal(is_or);
    let v = SddPtr::Literal(c[i].label, c[i].polarity);
    assert forall|a: Seq<bool>| a.len() == n implies #[trigger] denotes(u, r, a) == (exists|k: int|
        0 <= k < i + 1 && #[trigger] literal_holds(c[k], a)) by {
        assert(denotes(u, r, a) == (denotes(t, before, a) || denotes(t, v, a)));
        assert(denotes(t, v, a) == literal_holds(c[i], a));
        if denotes(t, before, a) {
            let k = choose|k: int| 0 <= k < i && #[trigger] literal_holds(c[k], a);
            assert(literal_holds(c[k], a));
        }
    }
}

/// With the next clause conjoined the edge denotes the conjunction of one
/// more clause of the formula.
proof fn lemma_formula_step(
    t: SddTables,
    v: SddTables,
    u: SddTables,
    n: nat,
    cs: Seq<Seq<Literal>>,
    k: int,
    before: SddPtr,
    c: SddPtr,
    r: SddPtr,
)
    requires
        0 <= k < cs.len(),
        tables_ok(t),
        grown(t, v),
        ptr_ok(t, before),
        is_formula_upto(t, n, cs, k, before),
        is_clause_upto(v, n, cs[k], cs[k].len() as int, c),
        is_and(v, u, r, before, c),
    ensures
        is_formula_upto(u, n, cs, k + 1, r),
{
    reveal(is_formula_upto);
    reveal(is_clause_upto);
    reveal(is_and);
    assert forall|a: Seq<bool>| a.len() == n implies #[trigger] denotes(u, r, a) == (forall|j: int|
        0 <= j < k + 1 ==> clause_holds(#[trigger] cs[j], a)) by {
        lemma_grown_denotes(t, v, before, a);
        assert(denotes(u, r, a) == (denotes(v, before, a) && denotes(v, c, a)));
        assert(denotes(v, c, a) == clause_holds(cs[k], a));
    }
}

/// The edge `r` is one for the conjunction of the two edges of the key.
pub open spec fn entry_sound(t: SddTables, k: SddAnd, r: SddPtr) -> bool {
    &&& ptr_ok(t, k.prime)
    &&& ptr_ok(t, k.sub)
    &&& ptr_ok(t, r)
    &&& !(r is BDD)
    &&& is_and(t, t, r, k.prime, k.sub)
}

/// Each entry of the cache holds an edge for the conjunction of the two
/// edges of its key.
pub open spec fn cache_sound(t: SddTables, cache: Map<SddAnd, SddPtr>) -> bool {
    forall|k: SddAnd| #[trigger] cache.contains_key(k) ==> entry_sound(t, k, cache[k])
}

/// A sound cache is sound for tables that have grown.
proof fn lemma_cache_grown(t: SddTables, u: SddTables, cache: Map<SddAnd, SddPtr>)
    requires
        tables_ok(t),
        grown(t, u),
        cache_sound(t, cache),
    ensures
        cache_sound(u, cache),
{
    reveal(is_and);
    assert forall|k: SddAnd| #[trigger] cache.contains_key(k) implies entry_sound(
        u,
        k,
        cache[k],
    ) by {
        let r = cache[k];
        assert(entry_sound(t, k, r));
        assert forall|a: Seq<bool>| #[trigger]
            denotes(u, r, a) == (denotes(u, k.prime, a) && denotes(u, k.sub, a)) by {
            lemma_grown_denotes(t, u, r, a);
            lemma_grown_denotes(t, u, k.prime, a);
            lemma_grown_denotes(t, u, k.sub, a);
            assert(denotes(t, r, a) == (denotes(t, k.prime, a) && denotes(t, k.sub, a)));
        }
        lemma_grown_denotes(t, u, r, Seq::empty());
        lemma_grown_denotes(t, u, k.prime, Seq::empty());
        lemma_grown_denotes(t, u, k.sub, Seq::empty());
    }
}

/// A sound cache with the edge for a conjunction recorded is sound.
proof fn lemma_cache_put(
    t: SddTables,
    u: SddTables,
    cache: Map<SddAnd, SddPtr>,
    f: SddPtr,
    g: SddPtr,
    key: SddAnd,
    r: SddPtr,
)
    requires
        tables_ok(t),
        grown(t, u),
        cache_sound(u, cache),
        ptr_ok(t, f),
        ptr_ok(t, g),
        ptr_ok(u, r),
        !(r is BDD),
        is_and(t, u, r, f, g),
        key == (SddAnd { prime: f, sub: g }) || key == (SddAnd { prime: g, sub: f }),
    ensures
        cache_sound(u, cache.insert(key, r)),
{
    reveal(is_and);
    assert forall|a: Seq<bool>| #[trigger]
        denotes(u, r, a) == (denotes(u, key.prime, a) && denotes(u, key.sub, a)) by {
        lemma_grown_denotes(t, u, f, a);
        lemma_grown_denotes(t, u, g, a);
        assert(denotes(u, r, a) == (denotes(t, f, a) && denotes(t, g, a)));
    }
    lemma_grown_denotes(t, u, f, Seq::empty());
    lemma_grown_denotes(t, u, g, Seq::empty());
    assert(entry_sound(u, key, r));
}

/// What the memo of counts holds for the number of an edge to a decision
/// node is the count of the edge over the variables of the subtree of its
/// node of the variable tree, modulo `P`.
pub open spec fn counts_kept<const P: u128>(
    t: SddTables,
    w: Seq<(nat, nat)>,
    memo: Map<u128, FiniteField<P>>,
) -> bool {
    forall|p: SddPtr| #[trigger]
        memo.contains_key(sdd_ptr_code(p) as u128) && ptr_ok(t, p) && (p is Reg || p is Compl)
            ==> memo[sdd_ptr_code(p) as u128].wf() && memo[sdd_ptr_code(p) as u128]@ == edge_sum(
            t,
            w,
            place(t, p),
            p,
        ) % (P as nat)
}

/// The second list denotes what the first denotes, with as many true
/// primes.
#[verifier::opaque]
pub open spec fn same_meaning(t: SddTables, l: Seq<SddAnd>, m: Seq<SddAnd>) -> bool {
    forall|a: Seq<bool>|
        #![trigger list_holds(t, m, a)]
        #![trigger prime_count(t, m, a)]
        list_holds(t, m, a) == list_holds(t, l, a) && prime_count(t, m, a) == prime_count(t, l, a)
}

/// Each element of the second list is one of the first.
pub open spec fn taken_from(l: Seq<SddAnd>, m: Seq<SddAnd>) -> bool {
    forall|k: int| 0 <= k < m.len() ==> l.contains(#[trigger] m[k])
}

/// The elements of the list in the order of their primes.
fn sort_elements(l: &Vec<SddAnd>, Ghost(t): Ghost<SddTables>, Ghost(c): Ghost<int>) -> (r: Vec<
    SddAnd,
>)
    requires
        structured(t, c, l@),
        compressed(l@),
        primes_sat(t, l@),
    ensures
        r@.len() == l@.len(),
        structured(t, c, r@),
        compressed(r@),
        prime_sorted(r@),
        primes_sat(t, r@),
        same_meaning(t, l@, r@),
{
    let mut r: Vec<SddAnd> = Vec::new();
    let mut i: usize = 0;
    proof {
        reveal(same_meaning);
        assert(l@.take(0) =~= Seq::<SddAnd>::empty());
    }
    while i < l.len()
        invariant
            i <= l@.len(),
            r@.len() == i,
            structured(t, c, l@),
            compressed(l@),
            structured(t, c, r@),
            compressed(r@),
            prime_sorted(r@),
            taken_from(l@.take(i as int), r@),
            same_meaning(t, l@.take(i as int), r@),
        decreases l.len() - i,
    {
        let e = l[i];
        let mut k: usize = 0;
        while k < r.len() && !comes_before(e.prime, r[k].prime)
            invariant
                k <= r@.len(),
                forall|j: int| 0 <= j < k ==> !key_before(e.prime, (#[trigger] r@[j]).prime),
            decreases r.len() - k,
        {
            k += 1;
        }
        let ghost before = r@;
        r.insert(k, e);
        proof {
            reveal(same_meaning);
            let part = l@.take(i as int);
            let next = l@.take(i + 1);
            assert(next.drop_last() =~= part);
            assert(next.last() == e);
            assert forall|j: int| 0 <= j < r@.len() implies next.contains(#[trigger] r@[j]) by {
                if j < k {
                    assert(r@[j] == before[j]);
                    assert(part.contains(before[j]));
                    let x = choose|x: int| 0 <= x < part.len() && part[x] == before[j];
                    assert(next[x] == before[j]);
                } else if j == k {
                    assert(next[i as int] == e);
                } else {
                    assert(r@[j] == before[j - 1]);
                    assert(part.contains(before[j - 1]));
                    let x = choose|x: int| 0 <= x < part.len() && part[x] == before[j - 1];
                    assert(next[x] == before[j - 1]);
                }
            }
            assert forall|j: int| 0 <= j < r@.len() implies respects(
                t,
                left_of(c),
                (#[trigger] r@[j]).prime,
            ) && respects(t, right_of(t.row, c), r@[j].sub) by {
                assert(next.contains(r@[j]));
                let x = choose|x: int| 0 <= x < next.len() && next[x] == r@[j];
                assert(l@[x] == r@[j]);
            }
            assert forall|x: int, y: int| 0 <= x < y < r@.len() implies (#[trigger] r@[x]).sub != (
            #[trigger] r@[y]).sub by {
                let bx = if x < k { x } else { x - 1 };
                let by_ = if y < k { y } else { y - 1 };
                if x == k {
                    assert(r@[y] == before[by_]);
                    assert(part.contains(before[by_]));
                    let z = choose|z: int| 0 <= z < part.len() && part[z] == before[by_];
                    assert(l@[z].sub != l@[i as int].sub);
                } else if y == k {
                    assert(r@[x] == before[bx]);
                    assert(part.contains(before[bx]));
                    let z = choose|z: int| 0 <= z < part.len() && part[z] == before[bx];
                    assert(l@[z].sub != l@[i as int].sub);
                } else {
                    assert(r@[x] == before[bx] && r@[y] == before[by_]);
                    assert(before[bx].sub != before[by_].sub);
                }
            }
            assert forall|x: int, y: int| 0 <= x < y < r@.len() implies !key_before(
                (#[trigger] r@[y]).prime,
                (#[trigger] r@[x]).prime,
            ) by {
                let bx = if x < k { x } else { x - 1 };
                let by_ = if y < k { y } else { y - 1 };
                if x == k {
                    assert(r@[y] == before[by_]);
                    assert(!key_before(before[by_].prime, before[k as int].prime));
                    lemma_key_order(e.prime, before[k as int].prime, before[by_].prime);
                } else if y == k {
                    assert(r@[x] == before[bx]);
                } else {
                    assert(r@[x] == before[bx] && r@[y] == before[by_]);
                    assert(!key_before(before[by_].prime, before[bx].prime));
                }
            }
            assert forall|a: Seq<bool>|
                #![trigger list_holds(t, r@, a)]
                #![trigger prime_count(t, r@, a)]
                list_holds(t, r@, a) == list_holds(t, next, a) && prime_count(t, r@, a)
                    == prime_count(t, next, a) by {
                lemma_list_insert(t, before, k as int, e, a);
                assert(list_holds(t, before, a) == list_holds(t, part, a));
                assert(prime_count(t, before, a) == prime_count(t, part, a));
            }
        }
        i += 1;
    }
    proof {
        assert(l@.take(i as int) =~= l@);
        assert forall|k: int| 0 <= k < r@.len() implies satisfiable(t, (#[trigger] r@[k]).prime) by {
            assert(l@.contains(r@[k]));
            let x = choose|x: int| 0 <= x < l@.len() && l@[x] == r@[k];
            assert(satisfiable(t, l@[x].prime));
        }
    }
    r
}

/// The list with each sub negated.
fn negate_subs(l: &Vec<SddAnd>) -> (r: Vec<SddAnd>)
    ensures
        r@ == negated_subs(l@),
{
    let mut r: Vec<SddAnd> = Vec::new();
    let mut k: usize = 0;
    while k < l.len()
        invariant
            k <= l@.len(),
            r@ == negated_subs(l@.take(k as int)),
        decreases l.len() - k,
    {
        r.push(SddAnd { prime: l[k].prime, sub: negate(l[k].sub) });
        proof {
            assert(r@ =~= negated_subs(l@.take(k + 1)));
        }
        k += 1;
    }
    proof {
        assert(l@.take(k as int) =~= l@);
    }
    r
}

/// A list holds where one of its elements holds.
proof fn lemma_count_of_holds(t: SddTables, l: Seq<SddAnd>, k: int, a: Seq<bool>)
    requires
        0 <= k < l.len(),
        element_holds(t, l[k], a),
    ensures
        list_holds(t, l, a),
{
    lemma_count_of(t, l, k, a);
}

/// A builder of sentential decision diagrams that makes its nodes unique by
/// what they hold.
pub struct SddManager {
    canon: CompressionCanonicalizer,
    vtree: VTreeManager,
}

impl SddManager {
    /// What the edges of the builder are read in.
    pub closed spec fn tables(&self) -> SddTables {
        SddTables {
            ors: self.canon.sdds(),
            bdds: self.canon.bdds(),
            row: self.vtree.nodes@,
            leaf_of: self.vtree.leaf_of@,
        }
    }

    /// The invariant: the variable tree is valid, each decision node is
    /// structured, compressed, trimmed, in order and a partition of primes
    /// that can be true, no two handles lead to the same node, and the
    /// cache holds for each pair of edges an edge for their conjunction.
    pub closed spec fn wf(&self) -> bool {
        &&& self.canon.wf()
        &&& self.vtree.wf()
        &&& self.vtree.valid
        &&& tables_sat(self.tables())
        &&& cache_sound(self.tables(), self.canon.cache())
    }

    /// The number of variables.
    pub closed spec fn spec_num_vars(&self) -> nat {
        self.vtree.leaf_of@.len()
    }

    /// The edge leads to a node of the builder, to a literal of one of its
    /// variables, or to a constant.
    pub open spec fn has(&self, p: SddPtr) -> bool {
        ptr_ok(self.tables(), p) && !(p is BDD)
    }

    /// The value of the function of the edge under the assignment.
    pub open spec fn value(&self, p: SddPtr, a: Seq<bool>) -> bool {
        denotes(self.tables(), p, a)
    }

    /// What the invariant says of the tables.
    pub proof fn lemma_wf(&self)
        requires
            self.wf(),
        ensures
            tables_sat(self.tables()),
            tables_ok(self.tables()),
            self.tables().leaf_of.len() == self.spec_num_vars(),
            self.spec_num_vars() == leaves_below(
                self.tables().row,
                self.tables().row.len() as int,
            ),
            self.spec_num_vars() <= usize::MAX,
    {
        assert(self.vtree.leaf_of@.len() == self.vtree.leaf_of.len());
    }

    /// The number of variables.
    pub fn num_vars(&self) -> (r: usize)
        ensures
            r == self.spec_num_vars(),
    {
        self.vtree.num_vars()
    }

    /// The number of decision nodes.
    pub fn num_nodes(&self) -> (r: usize)
        requires
            self.wf(),
        ensures
            r == self.tables().ors.len(),
    {
        self.canon.sdd_tbl().num_nodes()
    }

    /// The edge for a literal.
    pub fn var(&self, label: VarLabel, polarity: bool) -> (r: SddPtr)
        requires
            self.wf(),
            label.0 < self.spec_num_vars(),
        ensures
            r == SddPtr::Literal(label, polarity),
            self.has(r),
            forall|a: Seq<bool>| #[trigger] self.value(r, a) == (a[label.0 as int] == polarity),
    {
        SddPtr::Literal(label, polarity)
    }

    /// The edge for the negation.
    pub fn neg(&self, p: SddPtr) -> (r: SddPtr)
        requires
            self.wf(),
            self.has(p),
        ensures
            r == p.negated(),
            self.has(r),
            forall|a: Seq<bool>| #[trigger] self.value(r, a) == !self.value(p, a),
    {
        proof {
            assert forall|a: Seq<bool>| #[trigger] self.value(p.negated(), a) == !self.value(
                p,
                a,
            ) by {
                lemma_negated(self.tables(), p, a);
            }
        }
        negate(p)
    }

    /// Whether two edges are the same.
    pub fn sdd_eq(&self, a: SddPtr, b: SddPtr) -> (r: bool)
        requires
            self.wf(),
        ensures
            r == (a == b),
    {
        self.canon.sdd_eq(a, b)
    }

    /// The decision node with the given handle.
    pub fn node(&self, h: usize) -> (r: &SddOr)
        requires
            self.wf(),
            h < self.tables().ors.len(),
        ensures
            r@ == self.tables().ors[h as int],
    {
        self.canon.sdd_tbl().get(h)
    }

    /// The place in the row of the node of the variable tree that the edge
    /// belongs to.
    fn place_of(&self, p: SddPtr) -> (r: usize)
        requires
            self.wf(),
            self.has(p),
            !p.is_constant(),
        ensures
            r == place(self.tables(), p),
            r < self.tables().row.len(),
    {
        match p {
            SddPtr::Literal(v, _) => {
                let n = self.vtree.leaf_of.len();
                assert(v.0 < n);
                self.vtree.leaf_of[v.0 as usize]
            },
            SddPtr::Reg(h) => {
                proof {
                    assert(or_ok(self.tables(), h as int));
                }
                self.node(h).index
            },
            SddPtr::Compl(h) => {
                proof {
                    assert(or_ok(self.tables(), h as int));
                }
                self.node(h).index
            },
            _ => 0,
        }
    }

    /// The elements of the edge at the node `c` of the variable tree: those
    /// of its node, if it belongs to `c`; else the edge with its negation
    /// for primes, if it belongs to the left of `c`, and the edge for the
    /// sub of the prime true, if it belongs to the right.
    fn elements_of(&self, f: SddPtr, c: usize) -> (r: Vec<SddAnd>)
        requires
            self.wf(),
            self.has(f),
            !f.is_constant(),
            c < self.tables().row.len(),
            !self.tables().row[c as int].leaf,
            inside(self.tables().row, c as int, place(self.tables(), f)),
        ensures
            structured(self.tables(), c as int, r@),
            is_partition(self.tables(), r@),
            list_of(self.tables(), r@, f),
            subs_plain(r@),
            primes_sat(self.tables(), r@),
    {
        let ghost t = self.tables();
        let pf = self.place_of(f);
        proof {
            lemma_can_be_true(t, f);
            lemma_can_be_true(t, SddPtr::PtrTrue);
            assert(node_shape(t.row, c as int));
            assert(node_shape(t.row, c + 1));
            assert(node_shape(t.row, right_of(t.row, c as int)));
            reveal(list_of);
        }
        let right = c + 1 + self.vtree.nodes[c + 1].size;
        if pf == c {
            match f {
                SddPtr::Reg(h) => {
                    let node = self.node(h);
                    let mut r: Vec<SddAnd> = Vec::new();
                    let mut k: usize = 0;
                    while k < node.nodes.len()
                        invariant
                            k <= node.nodes@.len(),
                            r@ == node.nodes@.take(k as int),
                        decreases node.nodes.len() - k,
                    {
                        r.push(node.nodes[k]);
                        proof {
                            assert(r@ =~= node.nodes@.take(k + 1));
                        }
                        k += 1;
                    }
                    proof {
                        assert(r@ =~= t.ors[h as int].1);
                        assert(or_ok(t, h as int));
                        assert(primes_sat(t, t.ors[h as int].1));
                        assert forall|a: Seq<bool>| #[trigger]
                            list_holds(t, r@, a) == denotes(t, f, a) by {
                            lemma_node_is_list(t, h, a);
                        }
                    }
                    r
                },
                SddPtr::Compl(h) => {
                    let node = self.node(h);
                    let r = negate_subs(&node.nodes);
                    proof {
                        let l = t.ors[h as int].1;
                        assert(or_ok(t, h as int));
                        assert(primes_sat(t, l));
                        lemma_negated_list(t, c as int, l);
                        assert forall|k: int| 0 <= k < r@.len() implies satisfiable(
                            t,
                            (#[trigger] r@[k]).prime,
                        ) by {
                            assert(satisfiable(t, l[k].prime));
                        }
                        assert forall|a: Seq<bool>| #[trigger]
                            list_holds(t, r@, a) == denotes(t, f, a) by {
                            lemma_node_is_list(t, h, a);
                            assert(list_holds(t, negated_subs(l), a) == !list_holds(t, l, a));
                        }
                        assert forall|k: int| 0 <= k < r@.len() implies !((
                        #[trigger] r@[k]).sub is BDD) by {
                            assert(respects(t, right_of(t.row, c as int), r@[k].sub));
                        }
                    }
                    r
                },
                _ => {
                    proof {
                        assert(false);
                    }
                    Vec::new()
                },
            }
        } else if pf < right {
            let mut r: Vec<SddAnd> = Vec::new();
            let first = SddAnd { prime: f, sub: SddPtr::PtrTrue };
            let second = SddAnd { prime: negate(f), sub: SddPtr::PtrFalse };
            r.push(first);
            r.push(second);
            proof {
                let empty = Seq::<SddAnd>::empty();
                assert(r@ =~= empty.push(first).push(second));
                assert forall|a: Seq<bool>| #[trigger]
                    list_holds(t, r@, a) == denotes(t, f, a) by {
                    lemma_list_push(t, empty, first, a);
                    lemma_list_push(t, empty.push(first), second, a);
                    lemma_negated(t, f, a);
                }
                assert forall|a: Seq<bool>| #[trigger] prime_count(t, r@, a) == 1 by {
                    lemma_list_push(t, empty, first, a);
                    lemma_list_push(t, empty.push(first), second, a);
                    lemma_negated(t, f, a);
                }
                lemma_negated(t, f, Seq::empty());
            }
            r
        } else {
            let mut r: Vec<SddAnd> = Vec::new();
            let first = SddAnd { prime: SddPtr::PtrTrue, sub: f };
            r.push(first);
            proof {
                let empty = Seq::<SddAnd>::empty();
                assert(r@ =~= empty.push(first));
                assert forall|a: Seq<bool>| #[trigger]
                    list_holds(t, r@, a) == denotes(t, f, a) by {
                    lemma_list_push(t, empty, first, a);
                }
                assert forall|a: Seq<bool>| #[trigger] prime_count(t, r@, a) == 1 by {
                    lemma_list_push(t, empty, first, a);
                }
            }
            r
        }
    }

    /// The edge to the decision node at `c` with the given elements.
    fn intern(&mut self, c: usize, s: Vec<SddAnd>) -> (r: SddPtr)
        requires
            old(self).wf(),
            c < old(self).tables().row.len(),
            !old(self).tables().row[c as int].leaf,
            structured(old(self).tables(), c as int, s@),
            compressed(s@),
            trimmed(s@),
            prime_sorted(s@),
            !s@[0].sub.is_negated(),
            is_partition(old(self).tables(), s@),
            primes_sat(old(self).tables(), s@),
        ensures
            final(self).wf(),
            grown(old(self).tables(), final(self).tables()),
            r is Reg,
            final(self).has(r),
            place(final(self).tables(), r) == c,
            is_list(old(self).tables(), final(self).tables(), r, s@),
    {
        let ghost t = self.tables();
        let ghost l = s@;
        let r = self.canon.sdd_get_or_insert(SddOr { index: c, nodes: s });
        proof {
            let u = self.tables();
            if t.ors.contains((c, l)) {
                assert(u == t);
            } else {
                assert(grown(t, u));
                self.canon.lemma_interned_once();
                lemma_push_sat(t, u, c, l);
            }
            lemma_cache_grown(t, u, self.canon.cache());
            reveal(is_list);
            lemma_grown_structured(t, u, c as int, l);
            assert forall|a: Seq<bool>| #[trigger] denotes(u, r, a) == list_holds(t, l, a) by {
                lemma_node_is_list(u, r->Reg_0, a);
                lemma_grown_list(t, u, l, a);
            }
        }
        r
    }

    /// The edge for what the list denotes at the node `c` of the variable
    /// tree: the sub of the one element of the prime true; the prime with
    /// the sub true of two elements with constants for subs; else the edge
    /// to the decision node with the elements in order, or with their subs
    /// negated, if the first sub is negated.
    fn canonicalize(&mut self, c: usize, list: Vec<SddAnd>) -> (r: SddPtr)
        requires
            old(self).wf(),
            c < old(self).tables().row.len(),
            !old(self).tables().row[c as int].leaf,
            structured(old(self).tables(), c as int, list@),
            compressed(list@),
            is_partition(old(self).tables(), list@),
            primes_sat(old(self).tables(), list@),
        ensures
            final(self).wf(),
            grown(old(self).tables(), final(self).tables()),
            respects(final(self).tables(), c as int, r),
            is_list(old(self).tables(), final(self).tables(), r, list@),
    {
        let ghost t = self.tables();
        let s = sort_elements(&list, Ghost(t), Ghost(c as int));
        proof {
            reveal(same_meaning);
            reveal(is_list);
            assert forall|a: Seq<bool>| #[trigger] prime_count(t, s@, a) == 1 by {
                assert(prime_count(t, list@, a) == 1);
            }
            assert(prime_count(t, s@, Seq::empty()) == 1);
            assert(s@.len() > 0);
            assert(respects(t, left_of(c as int), s@[0].prime));
            lemma_child_room(t, c as int, s@[0].prime);
            lemma_child_room(t, c as int, s@[0].sub);
        }
        if s.len() == 1 && s[0].prime == SddPtr::PtrTrue {
            proof {
                assert(s@.drop_last().len() == 0);
                assert forall|a: Seq<bool>| #[trigger]
                    denotes(t, s@[0].sub, a) == list_holds(t, list@, a) by {
                    assert(list_holds(t, s@, a) == list_holds(t, list@, a));
                    assert(!list_holds(t, s@.drop_last(), a));
                }
            }
            return s[0].sub;
        }
        if s.len() == 2 && is_constant(s[0].sub) && is_constant(s[1].sub) {
            proof {
                assert(respects(t, left_of(c as int), s@[1].prime));
                lemma_child_room(t, c as int, s@[1].prime);
                assert(s@[0].sub != s@[1].sub);
                let one = s@.drop_last();
                assert(one.drop_last().len() == 0);
                let picked = if s@[0].sub == SddPtr::PtrTrue {
                    s@[0].prime
                } else {
                    s@[1].prime
                };
                assert forall|a: Seq<bool>| #[trigger]
                    denotes(t, picked, a) == list_holds(t, list@, a) by {
                    assert(list_holds(t, s@, a) == list_holds(t, list@, a));
                    assert(!list_holds(t, one.drop_last(), a));
                    assert(one.last() == s@[0]);
                    assert(s@.last() == s@[1]);
                    assert(list_holds(t, one, a) == element_holds(t, s@[0], a));
                    assert(list_holds(t, s@, a) == (list_holds(t, one, a) || element_holds(
                        t,
                        s@[1],
                        a,
                    )));
                }
            }
            if s[0].sub == SddPtr::PtrTrue {
                return s[0].prime;
            } else {
                return s[1].prime;
            }
        }
        if is_negated(s[0].sub) {
            let n = negate_subs(&s);
            proof {
                lemma_negated_list(t, c as int, s@);
                assert forall|k: int| 0 <= k < n@.len() implies satisfiable(
                    t,
                    (#[trigger] n@[k]).prime,
                ) by {
                    assert(satisfiable(t, s@[k].prime));
                }
            }
            let h = self.intern(c, n);
            proof {
                let u = self.tables();
                assert(node_shape(t.row, c as int));
                assert forall|a: Seq<bool>| #[trigger]
                    denotes(u, h.negated(), a) == list_holds(t, list@, a) by {
                    lemma_negated(u, h, a);
                    assert(denotes(u, h, a) == list_holds(t, n@, a));
                    assert(list_holds(t, n@, a) == !list_holds(t, s@, a));
                    assert(list_holds(t, s@, a) == list_holds(t, list@, a));
                }
            }
            negate(h)
        } else {
            let h = self.intern(c, s);
            proof {
                let u = self.tables();
                assert(node_shape(t.row, c as int));
                assert forall|a: Seq<bool>| #[trigger]
                    denotes(u, h, a) == list_holds(t, list@, a) by {
                    assert(denotes(u, h, a) == list_holds(t, s@, a));
                    assert(list_holds(t, s@, a) == list_holds(t, list@, a));
                }
            }
            h
        }
    }

    /// The lowest node of the variable tree below `d` that both edges
    /// belong to.
    fn meet(&self, f: SddPtr, g: SddPtr, d: usize) -> (c: usize)
        requires
            self.wf(),
            d < self.tables().row.len(),
            respects(self.tables(), d as int, f),
            respects(self.tables(), d as int, g),
            !f.is_constant(),
            !g.is_constant(),
            f != g,
            f != g.negated(),
        ensures
            d <= c < self.tables().row.len(),
            c + self.tables().row[c as int].size <= d + self.tables().row[d as int].size,
            !self.tables().row[c as int].leaf,
            inside(self.tables().row, c as int, place(self.tables(), f)),
            inside(self.tables().row, c as int, place(self.tables(), g)),
    {
        let pf = self.place_of(f);
        let pg = self.place_of(g);
        let c = self.vtree.lca_below(d, pf, pg);
        proof {
            let t = self.tables();
            assert(node_shape(t.row, c as int));
            if t.row[c as int].leaf {
                self.lemma_same_leaf(f, g);
            }
        }
        c
    }

    /// Two edges that belong to one leaf are the same or each the negation
    /// of the other.
    proof fn lemma_same_leaf(&self, f: SddPtr, g: SddPtr)
        requires
            self.wf(),
            self.has(f),
            self.has(g),
            !f.is_constant(),
            !g.is_constant(),
            place(self.tables(), f) == place(self.tables(), g),
            self.tables().row[place(self.tables(), f)].leaf,
        ensures
            f == g || f == g.negated(),
    {
        let t = self.tables();
        match f {
            SddPtr::Reg(h) => {
                assert(or_ok(t, h as int));
            },
            SddPtr::Compl(h) => {
                assert(or_ok(t, h as int));
            },
            _ => {},
        }
        match g {
            SddPtr::Reg(h) => {
                assert(or_ok(t, h as int));
            },
            SddPtr::Compl(h) => {
                assert(or_ok(t, h as int));
            },
            _ => {},
        }
    }

    /// Puts the element of the prime `p` and the sub `s` into the list: the
    /// prime is joined to that of the element with the same sub, if there
    /// is one.
    fn merge_in(&mut self, list: &mut Vec<SddAnd>, p: SddPtr, s: SddPtr, c: usize)
        requires
            old(self).wf(),
            c < old(self).tables().row.len(),
            !old(self).tables().row[c as int].leaf,
            structured(old(self).tables(), c as int, old(list)@),
            compressed(old(list)@),
            primes_sat(old(self).tables(), old(list)@),
            respects(old(self).tables(), left_of(c as int), p),
            respects(old(self).tables(), right_of(old(self).tables().row, c as int), s),
            satisfiable(old(self).tables(), p),
        ensures
            final(self).wf(),
            grown(old(self).tables(), final(self).tables()),
            structured(final(self).tables(), c as int, final(list)@),
            compressed(final(list)@),
            primes_sat(final(self).tables(), final(list)@),
            is_added(
                old(self).tables(),
                final(self).tables(),
                old(list)@,
                final(list)@,
                (SddAnd { prime: p, sub: s }),
                whole(),
            ),
        decreases old(self).tables().row.len() - c, 0nat,
    {
        let ghost t = self.tables();
        let ghost l = list@;
        let e = SddAnd { prime: p, sub: s };
        let mut k: usize = 0;
        while k < list.len() && list[k].sub != s
            invariant
                k <= list@.len(),
                list@ == l,
                forall|j: int| 0 <= j < k ==> (#[trigger] l[j]).sub != s,
            decreases list.len() - k,
        {
            k += 1;
        }
        if k < list.len() {
            let pk = list[k].prime;
            proof {
                assert(node_shape(t.row, c as int));
                assert(respects(t, left_of(c as int), l[k as int].prime));
                lemma_negated(t, pk, Seq::empty());
                lemma_negated(t, p, Seq::empty());
            }
            let n = self.and_in(negate(pk), negate(p), c + 1);
            let q = negate(n);
            let joined = SddAnd { prime: q, sub: s };
            list.set(k, joined);
            proof {
                let u = self.tables();
                lemma_negated(u, n, Seq::empty());
                lemma_grown_structured(t, u, c as int, l);
                lemma_grown_respects(t, u, right_of(t.row, c as int), s);
                lemma_grown_sat(t, u, l);
                assert forall|j: int| 0 <= j < list@.len() implies satisfiable(
                    u,
                    (#[trigger] list@[j]).prime,
                ) by {
                    if j != k {
                        assert(list@[j] == l[j]);
                        assert(satisfiable(u, l[j].prime));
                    } else {
                        let x = choose|x: Seq<bool>|
                            x.len() == t.leaf_of.len() && #[trigger] denotes(t, p, x);
                        reveal(is_and);
                        lemma_negated(t, pk, x);
                        lemma_negated(t, p, x);
                        lemma_negated(u, n, x);
                        assert(denotes(u, n, x) == (denotes(t, pk.negated(), x) && denotes(
                            t,
                            p.negated(),
                            x,
                        )));
                        assert(denotes(u, q, x));
                    }
                }
                assert forall|j: int| 0 <= j < list@.len() implies respects(
                    u,
                    left_of(c as int),
                    (#[trigger] list@[j]).prime,
                ) && respects(u, right_of(u.row, c as int), list@[j].sub) by {
                    if j != k {
                        assert(list@[j] == l[j]);
                        assert(respects(u, left_of(c as int), l[j].prime));
                    }
                }
                assert forall|i: int, j: int| 0 <= i < j < list@.len() implies (
                #[trigger] list@[i]).sub != (#[trigger] list@[j]).sub by {
                    assert(l[i].sub != l[j].sub);
                }
                reveal(is_added);
                reveal(is_and);
                assert forall|a: Seq<bool>|
                    #![trigger list_holds(u, list@, a)]
                    #![trigger prime_count(u, list@, a)]
                    list_holds(u, list@, a) == (list_holds(t, l, a) || (element_holds(t, e, a)
                        && element_holds(t, whole(), a))) && ((denotes(t, e.prime, a) && denotes(
                        t,
                        whole().prime,
                        a,
                    ) ==> prime_count(t, l, a) == 0) ==> prime_count(u, list@, a) == prime_count(
                        t,
                        l,
                        a,
                    ) + unit(denotes(t, e.prime, a) && denotes(t, whole().prime, a))) by {
                    lemma_grown_list(t, u, l, a);
                    lemma_grown_denotes(t, u, p, a);
                    lemma_grown_denotes(t, u, s, a);
                    lemma_grown_denotes(t, u, pk, a);
                    lemma_negated(t, pk, a);
                    lemma_negated(t, p, a);
                    lemma_negated(u, n, a);
                    assert(denotes(u, n, a) == (denotes(t, pk.negated(), a) && denotes(
                        t,
                        p.negated(),
                        a,
                    )));
                    assert(denotes(u, q, a) == (denotes(u, pk, a) || denotes(u, p, a)));
                    lemma_list_update(u, l, k as int, joined, a);
                    if denotes(u, pk, a) {
                        lemma_count_of(u, l, k as int, a);
                    }
                }
            }
        } else {
            list.push(e);
            proof {
                reveal(is_added);
                assert forall|j: int| 0 <= j < list@.len() implies satisfiable(
                    t,
                    (#[trigger] list@[j]).prime,
                ) by {
                    if j < l.len() {
                        assert(list@[j] == l[j]);
                        assert(satisfiable(t, l[j].prime));
                    }
                }
                assert forall|j: int| 0 <= j < list@.len() implies respects(
                    t,
                    left_of(c as int),
                    (#[trigger] list@[j]).prime,
                ) && respects(t, right_of(t.row, c as int), list@[j].sub) by {
                    if j < l.len() {
                        assert(list@[j] == l[j]);
                        assert(respects(t, left_of(c as int), l[j].prime));
                    }
                }
                assert forall|a: Seq<bool>|
                    #![trigger list_holds(t, list@, a)]
                    #![trigger prime_count(t, list@, a)]
                    list_holds(t, list@, a) == (list_holds(t, l, a) || (element_holds(t, e, a)
                        && element_holds(t, whole(), a))) && prime_count(t, list@, a)
                        == prime_count(t, l, a) + unit(
                        denotes(t, e.prime, a) && denotes(t, whole().prime, a),
                    ) by {
                    lemma_list_push(t, l, e, a);
                }
            }
        }
    }

    /// Puts the product of two elements into the list, if its prime is not
    /// the constant false.
    fn multiply_pair(&mut self, list: &mut Vec<SddAnd>, e: SddAnd, x: SddAnd, c: usize)
        requires
            old(self).wf(),
            c < old(self).tables().row.len(),
            !old(self).tables().row[c as int].leaf,
            structured(old(self).tables(), c as int, old(list)@),
            compressed(old(list)@),
            primes_sat(old(self).tables(), old(list)@),
            respects(old(self).tables(), left_of(c as int), e.prime),
            respects(old(self).tables(), left_of(c as int), x.prime),
            respects(old(self).tables(), right_of(old(self).tables().row, c as int), e.sub),
            respects(old(self).tables(), right_of(old(self).tables().row, c as int), x.sub),
        ensures
            final(self).wf(),
            grown(old(self).tables(), final(self).tables()),
            structured(final(self).tables(), c as int, final(list)@),
            compressed(final(list)@),
            primes_sat(final(self).tables(), final(list)@),
            is_added(old(self).tables(), final(self).tables(), old(list)@, final(list)@, e, x),
        decreases old(self).tables().row.len() - c, 1nat,
    {
        let ghost t = self.tables();
        let ghost l = list@;
        proof {
            assert(node_shape(t.row, c as int));
            assert(node_shape(t.row, c + 1));
        }
        let p = self.and_in(e.prime, x.prime, c + 1);
        let ghost t1 = self.tables();
        proof {
            lemma_grown_structured(t, t1, c as int, l);
            lemma_grown_sat(t, t1, l);
        }
        if p == SddPtr::PtrFalse {
            proof {
                reveal(is_added);
                reveal(is_and);
                assert forall|a: Seq<bool>|
                    #![trigger list_holds(t1, l, a)]
                    #![trigger prime_count(t1, l, a)]
                    list_holds(t1, l, a) == (list_holds(t, l, a) || (element_holds(t, e, a)
                        && element_holds(t, x, a))) && prime_count(t1, l, a) == prime_count(
                        t,
                        l,
                        a,
                    ) + unit(denotes(t, e.prime, a) && denotes(t, x.prime, a)) by {
                    lemma_grown_list(t, t1, l, a);
                    assert(denotes(t1, p, a) == (denotes(t, e.prime, a) && denotes(
                        t,
                        x.prime,
                        a,
                    )));
                }
            }
            return ;
        }
        proof {
            lemma_grown_respects(t, t1, right_of(t.row, c as int), e.sub);
            lemma_grown_respects(t, t1, right_of(t.row, c as int), x.sub);
            assert(node_shape(t.row, right_of(t.row, c as int)));
        }
        let right = c + 1 + self.vtree.nodes[c + 1].size;
        let s = self.and_in(e.sub, x.sub, right);
        let ghost t2 = self.tables();
        proof {
            lemma_grown_structured(t1, t2, c as int, l);
            lemma_grown_respects(t1, t2, left_of(c as int), p);
            lemma_grown_sat(t1, t2, l);
            lemma_can_be_true(t2, p);
        }
        self.merge_in(list, p, s, c);
        proof {
            let t3 = self.tables();
            lemma_grown_twice(t, t1, t2);
            lemma_grown_twice(t, t2, t3);
            reveal(is_added);
            reveal(is_and);
            assert forall|a: Seq<bool>|
                #![trigger list_holds(t3, list@, a)]
                #![trigger prime_count(t3, list@, a)]
                list_holds(t3, list@, a) == (list_holds(t, l, a) || (element_holds(t, e, a)
                    && element_holds(t, x, a))) && ((denotes(t, e.prime, a) && denotes(
                    t,
                    x.prime,
                    a,
                ) ==> prime_count(t, l, a) == 0) ==> prime_count(t3, list@, a) == prime_count(
                    t,
                    l,
                    a,
                ) + unit(denotes(t, e.prime, a) && denotes(t, x.prime, a))) by {
                lemma_grown_list(t, t2, l, a);
                lemma_grown_denotes(t1, t2, p, a);
                lemma_grown_denotes(t, t1, e.sub, a);
                lemma_grown_denotes(t, t1, x.sub, a);
                assert(denotes(t1, p, a) == (denotes(t, e.prime, a) && denotes(t, x.prime, a)));
                assert(denotes(t2, s, a) == (denotes(t1, e.sub, a) && denotes(t1, x.sub, a)));
                assert(list_holds(t3, list@, a) == (list_holds(t2, l, a) || (element_holds(
                    t2,
                    (SddAnd { prime: p, sub: s }),
                    a,
                ) && element_holds(t2, whole(), a))));
            }
        }
    }

    /// The products of the elements of two partitions, those with the same
    /// sub joined.
    fn product(&mut self, f: &Vec<SddAnd>, g: &Vec<SddAnd>, c: usize) -> (r: Vec<SddAnd>)
        requires
            old(self).wf(),
            c < old(self).tables().row.len(),
            !old(self).tables().row[c as int].leaf,
            structured(old(self).tables(), c as int, f@),
            structured(old(self).tables(), c as int, g@),
            is_partition(old(self).tables(), f@),
            is_partition(old(self).tables(), g@),
        ensures
            final(self).wf(),
            grown(old(self).tables(), final(self).tables()),
            structured(final(self).tables(), c as int, r@),
            compressed(r@),
            primes_sat(final(self).tables(), r@),
            is_partition(final(self).tables(), r@),
            is_product(old(self).tables(), final(self).tables(), f@, g@, r@),
        decreases old(self).tables().row.len() - c, 2nat,
    {
        let ghost t0 = self.tables();
        let mut r: Vec<SddAnd> = Vec::new();
        let mut i: usize = 0;
        proof {
            lemma_progress_start(t0, f@, g@);
        }
        while i < f.len()
            invariant
                i <= f@.len(),
                self.wf(),
                t0 == old(self).tables(),
                grown(t0, self.tables()),
                c < t0.row.len(),
                !t0.row[c as int].leaf,
                structured(self.tables(), c as int, f@),
                structured(self.tables(), c as int, g@),
                is_partition(self.tables(), f@),
                is_partition(self.tables(), g@),
                structured(self.tables(), c as int, r@),
                compressed(r@),
                primes_sat(self.tables(), r@),
                progress(self.tables(), f@, g@, r@, i as int, 0),
            decreases f.len() - i,
        {
            let mut j: usize = 0;
            while j < g.len()
                invariant
                    i < f@.len(),
                    j <= g@.len(),
                    self.wf(),
                    t0 == old(self).tables(),
                    grown(t0, self.tables()),
                    c < t0.row.len(),
                    !t0.row[c as int].leaf,
                    structured(self.tables(), c as int, f@),
                    structured(self.tables(), c as int, g@),
                    is_partition(self.tables(), f@),
                    is_partition(self.tables(), g@),
                    structured(self.tables(), c as int, r@),
                    compressed(r@),
                    primes_sat(self.tables(), r@),
                    progress(self.tables(), f@, g@, r@, i as int, j as int),
                decreases g.len() - j,
            {
                let ghost t = self.tables();
                let ghost before = r@;
                proof {
                    assert(respects(t, left_of(c as int), f@[i as int].prime));
                    assert(respects(t, left_of(c as int), g@[j as int].prime));
                }
                self.multiply_pair(&mut r, f[i], g[j], c);
                proof {
                    let u = self.tables();
                    lemma_pair_step(t, u, c as int, f@, g@, before, r@, i as int, j as int);
                    lemma_grown_twice(t0, t, u);
                }
                j += 1;
            }
            proof {
                lemma_progress_row(self.tables(), f@, g@, r@, i as int);
            }
            i += 1;
        }
        proof {
            let u = self.tables();
            lemma_progress_end(u, f@, g@, r@);
            lemma_grown_structured(t0, u, c as int, f@);
            lemma_grown_structured(t0, u, c as int, g@);
            reveal(is_product);
            assert forall|a: Seq<bool>| #[trigger]
                list_holds(u, r@, a) == (list_holds(t0, f@, a) && list_holds(t0, g@, a)) by {
                lemma_grown_list(t0, u, f@, a);
                lemma_grown_list(t0, u, g@, a);
            }
        }
        r
    }

    /// The edge for the conjunction of two edges that belong to the subtree
    /// of the node `d` of the variable tree.
    fn and_in(&mut self, f: SddPtr, g: SddPtr, d: usize) -> (r: SddPtr)
        requires
            old(self).wf(),
            d < old(self).tables().row.len(),
            respects(old(self).tables(), d as int, f),
            respects(old(self).tables(), d as int, g),
        ensures
            final(self).wf(),
            grown(old(self).tables(), final(self).tables()),
            respects(final(self).tables(), d as int, r),
            is_and(old(self).tables(), final(self).tables(), r, f, g),
        decreases old(self).tables().row.len() - d, 3nat,
    {
        let ghost t = self.tables();
        proof {
            reveal(is_and);
        }
        if f == SddPtr::PtrFalse || g == SddPtr::PtrFalse {
            return SddPtr::PtrFalse;
        }
        if f == SddPtr::PtrTrue {
            return g;
        }
        if g == SddPtr::PtrTrue {
            return f;
        }
        if f == g {
            return f;
        }
        if f == negate(g) {
            proof {
                assert forall|a: Seq<bool>| !(denotes(t, f, a) && denotes(t, g, a)) by {
                    lemma_negated(t, g, a);
                }
            }
            return SddPtr::PtrFalse;
        }
        let key = if comes_before(f, g) {
            SddAnd { prime: f, sub: g }
        } else {
            SddAnd { prime: g, sub: f }
        };
        match self.canon.cache_get(key) {
            Some(r) => {
                proof {
                    assert(entry_sound(t, key, r));
                }
                if is_constant(r) {
                    return r;
                }
                let at = self.place_of(r);
                if d <= at && at - d < self.vtree.nodes[d].size {
                    return r;
                }
            },
            None => {},
        }
        let c = self.meet(f, g, d);
        let left = self.elements_of(f, c);
        let right = self.elements_of(g, c);
        let list = self.product(&left, &right, c);
        let ghost t1 = self.tables();
        let r = self.canonicalize(c, list);
        let ghost cache = self.canon.cache();
        self.canon.cache_put(key, r);
        proof {
            let u = self.tables();
            lemma_grown_twice(t, t1, u);
            reveal(is_product);
            reveal(is_list);
            reveal(list_of);
            assert forall|a: Seq<bool>| #[trigger]
                denotes(u, r, a) == (denotes(t, f, a) && denotes(t, g, a)) by {
                assert(denotes(u, r, a) == list_holds(t1, list@, a));
                assert(list_holds(t1, list@, a) == (list_holds(t, left@, a) && list_holds(
                    t,
                    right@,
                    a,
                )));
                assert(list_holds(t, left@, a) == denotes(t, f, a));
                assert(list_holds(t, right@, a) == denotes(t, g, a));
            }
            assert(is_and(t, u, r, f, g));
            lemma_cache_put(t, u, cache, f, g, key, r);
        }
        r
    }

    /// The edge for the conjunction of two edges.
    pub fn and(&mut self, f: SddPtr, g: SddPtr) -> (r: SddPtr)
        requires
            old(self).wf(),
            old(self).has(f),
            old(self).has(g),
        ensures
            final(self).wf(),
            grown(old(self).tables(), final(self).tables()),
            final(self).spec_num_vars() == old(self).spec_num_vars(),
            final(self).has(r),
            is_and(old(self).tables(), final(self).tables(), r, f, g),
    {
        proof {
            self.lemma_whole_tree(f);
            self.lemma_whole_tree(g);
        }
        self.and_in(f, g, 0)
    }

    /// The edge for the disjunction of two edges.
    pub fn or(&mut self, f: SddPtr, g: SddPtr) -> (r: SddPtr)
        requires
            old(self).wf(),
            old(self).has(f),
            old(self).has(g),
        ensures
            final(self).wf(),
            grown(old(self).tables(), final(self).tables()),
            final(self).spec_num_vars() == old(self).spec_num_vars(),
            final(self).has(r),
            is_or(old(self).tables(), final(self).tables(), r, f, g),
    {
        let ghost t = self.tables();
        proof {
            lemma_negated(t, f, Seq::empty());
            lemma_negated(t, g, Seq::empty());
            self.lemma_whole_tree(f.negated());
            self.lemma_whole_tree(g.negated());
        }
        let n = self.and_in(negate(f), negate(g), 0);
        proof {
            let u = self.tables();
            reveal(is_and);
            reveal(is_or);
            assert forall|a: Seq<bool>| #[trigger]
                denotes(u, n.negated(), a) == (denotes(t, f, a) || denotes(t, g, a)) by {
                lemma_negated(u, n, a);
                lemma_negated(t, f, a);
                lemma_negated(t, g, a);
                assert(denotes(u, n, a) == (denotes(t, f.negated(), a) && denotes(
                    t,
                    g.negated(),
                    a,
                )));
            }
            lemma_negated(u, n, Seq::empty());
        }
        negate(n)
    }

    /// Every edge of the builder belongs to the whole variable tree.
    proof fn lemma_whole_tree(&self, p: SddPtr)
        requires
            self.wf(),
            self.has(p),
        ensures
            respects(self.tables(), 0, p),
            0 < self.tables().row.len(),
    {
        let t = self.tables();
        match p {
            SddPtr::Reg(h) => {
                assert(or_ok(t, h as int));
            },
            SddPtr::Compl(h) => {
                assert(or_ok(t, h as int));
            },
            _ => {},
        }
    }

    /// An edge of a builder is one of the builder when that has grown, for
    /// the same function.
    pub proof fn lemma_kept(&self, later: &SddManager, p: SddPtr)
        requires
            self.wf(),
            grown(self.tables(), later.tables()),
            self.has(p),
        ensures
            later.has(p),
            forall|a: Seq<bool>| #[trigger] later.value(p, a) == self.value(p, a),
    {
        assert forall|a: Seq<bool>| #[trigger] later.value(p, a) == self.value(p, a) by {
            lemma_grown_denotes(self.tables(), later.tables(), p, a);
        }
        lemma_grown_denotes(self.tables(), later.tables(), p, Seq::empty());
    }

    /// The edge for the disjunction of the literals of a clause.
    fn clause(&mut self, clause: &Vec<Literal>, Ghost(n): Ghost<nat>) -> (r: SddPtr)
        requires
            old(self).wf(),
            n == old(self).spec_num_vars(),
            forall|i: int| 0 <= i < clause@.len() ==> (#[trigger] clause@[i]).label.0 < n,
        ensures
            final(self).wf(),
            grown(old(self).tables(), final(self).tables()),
            final(self).spec_num_vars() == old(self).spec_num_vars(),
            final(self).has(r),
            is_clause_upto(final(self).tables(), n, clause@, clause@.len() as int, r),
    {
        let ghost t0 = self.tables();
        let mut cur = SddPtr::PtrFalse;
        let mut i: usize = 0;
        proof {
            reveal(is_clause_upto);
        }
        while i < clause.len()
            invariant
                i <= clause@.len(),
                self.wf(),
                grown(t0, self.tables()),
                n == self.spec_num_vars(),
                forall|k: int| 0 <= k < clause@.len() ==> (#[trigger] clause@[k]).label.0 < n,
                self.has(cur),
                is_clause_upto(self.tables(), n, clause@, i as int, cur),
            decreases clause.len() - i,
        {
            let ghost t = self.tables();
            let ghost before = cur;
            let lit = clause[i];
            let v = self.var(lit.label, lit.polarity);
            cur = self.or(cur, v);
            proof {
                let u = self.tables();
                lemma_grown_twice(t0, t, u);
                lemma_clause_step(t, u, n, clause@, i as int, before, cur);
            }
            i += 1;
        }
        cur
    }

    /// The edge for the formula: the conjunction of its clauses.
    pub fn from_cnf(&mut self, cnf: &Cnf) -> (r: SddPtr)
        requires
            old(self).wf(),
            cnf.wf(),
            cnf.spec_num_vars() <= old(self).spec_num_vars(),
        ensures
            final(self).wf(),
            grown(old(self).tables(), final(self).tables()),
            final(self).spec_num_vars() == old(self).spec_num_vars(),
            final(self).has(r),
            forall|a: Seq<bool>|
                a.len() == final(self).spec_num_vars() ==> #[trigger] final(self).value(r, a)
                    == formula_holds(cnf@, a),
    {
        let ghost t0 = self.tables();
        let ghost n = self.spec_num_vars();
        let clauses = cnf.clauses();
        let mut acc = SddPtr::PtrTrue;
        let mut k: usize = 0;
        proof {
            reveal(is_formula_upto);
        }
        while k < clauses.len()
            invariant
                k <= clauses@.len(),
                clause_seqs(clauses@) == cnf@,
                labels_below(cnf@, n as int),
                self.wf(),
                grown(t0, self.tables()),
                n == self.spec_num_vars(),
                self.has(acc),
                is_formula_upto(self.tables(), n, cnf@, k as int, acc),
            decreases clauses.len() - k,
        {
            let ghost t = self.tables();
            let ghost before = acc;
            proof {
                assert(clauses@[k as int]@ == cnf@[k as int]);
                assert forall|i: int| 0 <= i < clauses@[k as int]@.len() implies (
                #[trigger] clauses@[k as int]@[i]).label.0 < n by {
                    assert(cnf@[k as int][i].label.0 < n);
                }
            }
            let c = self.clause(&clauses[k], Ghost(n));
            let ghost t1 = self.tables();
            proof {
                lemma_grown_denotes(t, t1, acc, Seq::empty());
            }
            acc = self.and(acc, c);
            proof {
                let u = self.tables();
                lemma_grown_twice(t, t1, u);
                lemma_grown_twice(t0, t, u);
                lemma_formula_step(t, t1, u, n, cnf@, k as int, before, c, acc);
            }
            k += 1;
        }
        proof {
            reveal(is_formula_upto);
            assert(clauses@.len() == cnf@.len());
        }
        acc
    }

    /// Every decision node of the builder is compressed, trimmed and
    /// structured along the variable tree; its primes part the
    /// assignments and stand in order, and its first sub is not negated.
    pub proof fn lemma_decision_node(&self, h: int)
        requires
            self.wf(),
            0 <= h < self.tables().ors.len(),
        ensures
            compressed(self.tables().ors[h].1),
            trimmed(self.tables().ors[h].1),
            structured(self.tables(), self.tables().ors[h].0 as int, self.tables().ors[h].1),
            is_partition(self.tables(), self.tables().ors[h].1),
            primes_sat(self.tables(), self.tables().ors[h].1),
            prime_sorted(self.tables().ors[h].1),
            !self.tables().ors[h].1[0].sub.is_negated(),
    {
        assert(or_ok(self.tables(), h));
        assert(primes_sat(self.tables(), self.tables().ors[h].1));
    }

    /// The value of the function of the edge under the assignment.
    pub fn eval(&self, p: SddPtr, a: &Vec<bool>) -> (r: bool)
        requires
            self.wf(),
            self.has(p),
            a@.len() == self.spec_num_vars(),
        ensures
            r == self.value(p, a@),
        decreases room(self.tables(), p), 1nat,
    {
        match p {
            SddPtr::PtrTrue => true,
            SddPtr::PtrFalse => false,
            SddPtr::Literal(v, b) => {
                let n = a.len();
                assert(v.0 < n);
                a[v.0 as usize] == b
            },
            SddPtr::Reg(h) => {
                proof {
                    lemma_node_is_list(self.tables(), h, a@);
                }
                self.eval_node(h, a)
            },
            SddPtr::Compl(h) => {
                proof {
                    lemma_node_is_list(self.tables(), h, a@);
                }
                !self.eval_node(h, a)
            },
            _ => false,
        }
    }

    /// Whether an element of the decision node is true under the
    /// assignment.
    fn eval_node(&self, h: usize, a: &Vec<bool>) -> (r: bool)
        requires
            self.wf(),
            h < self.tables().ors.len(),
            a@.len() == self.spec_num_vars(),
        ensures
            r == list_holds(self.tables(), self.tables().ors[h as int].1, a@),
        decreases room(self.tables(), SddPtr::Reg(h)), 0nat,
    {
        let ghost t = self.tables();
        let ghost l = t.ors[h as int].1;
        let node = self.node(h);
        let mut k: usize = 0;
        proof {
            assert(l.take(0) =~= Seq::<SddAnd>::empty());
            assert(or_ok(t, h as int));
        }
        while k < node.nodes.len()
            invariant
                k <= l.len(),
                self.wf(),
                t == self.tables(),
                h < t.ors.len(),
                l == t.ors[h as int].1,
                node@ == t.ors[h as int],
                a@.len() == self.spec_num_vars(),
                !list_holds(t, l.take(k as int), a@),
            decreases node.nodes.len() - k,
        {
            let e = node.nodes[k];
            proof {
                let c = t.ors[h as int].0 as int;
                assert(or_ok(t, h as int));
                assert(respects(t, left_of(c), l[k as int].prime));
                lemma_child_room(t, c, e.prime);
                lemma_child_room(t, c, e.sub);
                lemma_count_prefix(t, l, k as int, a@);
            }
            if self.eval(e.prime, a) && self.eval(e.sub, a) {
                proof {
                    lemma_count_of_holds(t, l, k as int, a@);
                }
                return true;
            }
            k += 1;
        }
        proof {
            assert(l.take(k as int) =~= l);
        }
        false
    }

    /// Whether the nodes that the edge leads to are compressed and
    /// trimmed: those of a builder are.
    pub fn is_canonical(&self, p: SddPtr) -> (r: bool)
        requires
            self.wf(),
            self.has(p),
        ensures
            r,
        decreases room(self.tables(), p),
    {
        let h = match p {
            SddPtr::Reg(h) => h,
            SddPtr::Compl(h) => h,
            _ => {
                return true;
            },
        };
        let ghost t = self.tables();
        let ghost l = t.ors[h as int].1;
        let node = self.node(h);
        let n = node.nodes.len();
        proof {
            assert(or_ok(t, h as int));
        }
        if n == 0 || (n == 1 && node.nodes[0].prime == SddPtr::PtrTrue) || (n == 2 && is_constant(
            node.nodes[0].sub,
        ) && is_constant(node.nodes[1].sub)) {
            return false;
        }
        let mut i: usize = 0;
        while i < n
            invariant
                self.wf(),
                t == self.tables(),
                h < t.ors.len(),
                l == t.ors[h as int].1,
                node@ == t.ors[h as int],
                n == l.len(),
                room(t, p) == room(t, SddPtr::Reg(h)),
            decreases n - i,
        {
            let e = node.nodes[i];
            proof {
                let c = t.ors[h as int].0 as int;
                assert(or_ok(t, h as int));
                assert(respects(t, left_of(c), l[i as int].prime));
                lemma_child_room(t, c, e.prime);
                lemma_child_room(t, c, e.sub);
            }
            if !self.is_canonical(e.prime) || !self.is_canonical(e.sub) {
                return false;
            }
            let mut j: usize = i + 1;
            while j < n
                invariant
                    i < j <= n,
                    n == l.len(),
                    node@.1 == l,
                    compressed(l),
                decreases n - j,
            {
                if node.nodes[i].sub == node.nodes[j].sub {
                    proof {
                        assert(l[i as int].sub != l[j as int].sub);
                    }
                    return false;
                }
                j += 1;
            }
            i += 1;
        }
        true
    }

    /// The weighted model count of the edge over all variables, modulo `P`.
    pub fn wmc<const P: u128>(&self, p: SddPtr, params: &WmcParams<FiniteField<P>>) -> (r:
        FiniteField<P>)
        requires
            self.wf(),
            self.has(p),
            modulus_ok(P),
            params.var_to_val@.len() == self.spec_num_vars(),
            weights_ok(params.var_to_val@),
        ensures
            r.wf(),
            r@ == edge_sum(self.tables(), field_weights(params.var_to_val@), 0, p) % (P as nat),
    {
        proof {
            self.lemma_whole_tree(p);
        }
        let mut memo: HashMap<u128, FiniteField<P>> = HashMap::new();
        self.count_in(p, 0, params, &mut memo)
    }

    /// The weighted model count of the edge over the variables of the
    /// subtree of the node at `c`, modulo `P`, with a memo of the counts of
    /// the decision nodes that were found on the way.
    fn count_in<const P: u128>(
        &self,
        p: SddPtr,
        c: usize,
        params: &WmcParams<FiniteField<P>>,
        memo: &mut HashMap<u128, FiniteField<P>>,
    ) -> (r: FiniteField<P>)
        requires
            self.wf(),
            c < self.tables().row.len(),
            respects(self.tables(), c as int, p),
            modulus_ok(P),
            params.var_to_val@.len() == self.spec_num_vars(),
            weights_ok(params.var_to_val@),
            counts_kept(self.tables(), field_weights(params.var_to_val@), old(memo)@),
        ensures
            r.wf(),
            r@ == edge_sum(self.tables(), field_weights(params.var_to_val@), c as int, p) % (
            P as nat),
            counts_kept(self.tables(), field_weights(params.var_to_val@), final(memo)@),
        decreases self.tables().row.len() - c,
    {
        let ghost t = self.tables();
        let ghost w = field_weights(params.var_to_val@);
        proof {
            lemma_small_mod(0, P as nat);
            assert(node_shape(t.row, c as int));
        }
        if p == SddPtr::PtrFalse {
            proof {
                lemma_false_sum(t, w, c as int);
            }
            return FiniteField::zero();
        }
        if self.vtree.nodes[c].leaf {
            let var = self.vtree.nodes[c].var;
            proof {
                assert(t.row[c as int].var.0 < t.leaf_of.len());
                match p {
                    SddPtr::Reg(h) => {
                        assert(or_ok(t, h as int));
                    },
                    SddPtr::Compl(h) => {
                        assert(or_ok(t, h as int));
                    },
                    _ => {},
                }
            }
            let (lo, hi) = params.get_var_weight(var);
            proof {
                assert(params.var_to_val@[var.0 as int].0.wf());
                assert(w[var.0 as int] == (lo@ as nat, hi@ as nat));
                lemma_small_mod(lo@ as nat, P as nat);
                lemma_small_mod(hi@ as nat, P as nat);
            }
            return match p {
                SddPtr::Literal(v, b) => {
                    proof {
                        assert(t.leaf_of[v.0 as int] == c);
                        assert(v == var);
                        lemma_leaf_sum(t, w, c as int, b);
                    }
                    if b {
                        hi
                    } else {
                        lo
                    }
                },
                _ => {
                    proof {
                        lemma_leaf_sum(t, w, c as int, true);
                    }
                    lo.plus(&hi)
                },
            };
        }
        proof {
            assert(node_shape(t.row, c + 1));
            assert(node_shape(t.row, right_of(t.row, c as int)));
        }
        let right = c + 1 + self.vtree.nodes[c + 1].size;
        let here = p != SddPtr::PtrTrue && self.place_of(p) == c;
        let key = sdd_code_of(p);
        if here {
            match memo.get(&key) {
                Some(v) => {
                    proof {
                        assert(memo@.contains_key(sdd_ptr_code(p) as u128));
                    }
                    return *v;
                },
                None => {},
            }
        }
        let list = if p == SddPtr::PtrTrue {
            let mut one: Vec<SddAnd> = Vec::new();
            one.push(SddAnd { prime: SddPtr::PtrTrue, sub: SddPtr::PtrTrue });
            proof {
                assert(one@ =~= whole_list());
                lemma_whole_list(t, c as int);
            }
            one
        } else {
            let l = self.elements_of(p, c);
            proof {
                reveal(list_of);
            }
            l
        };
        proof {
            lemma_partition_sum(t, w, c as int, p, list@);
            assert(list@.take(0).len() == 0);
        }
        let mut acc = FiniteField::<P>::zero();
        let mut k: usize = 0;
        while k < list.len()
            invariant
                k <= list@.len(),
                self.wf(),
                t == self.tables(),
                w == field_weights(params.var_to_val@),
                c < t.row.len(),
                !t.row[c as int].leaf,
                right == right_of(t.row, c as int),
                c + 1 < t.row.len(),
                right < t.row.len(),
                structured(t, c as int, list@),
                modulus_ok(P),
                params.var_to_val@.len() == self.spec_num_vars(),
                weights_ok(params.var_to_val@),
                counts_kept(t, w, memo@),
                acc.wf(),
                acc@ == pair_sum(t, w, c as int, list@.take(k as int)) % (P as nat),
            decreases list.len() - k,
        {
            let e = list[k];
            proof {
                assert(respects(t, left_of(c as int), list@[k as int].prime));
            }
            let x = self.count_in(e.prime, c + 1, params, memo);
            let y = self.count_in(e.sub, right, params, memo);
            let ghost before = acc@;
            acc = acc.plus(&x.times(&y));
            proof {
                let part = list@.take(k as int);
                let next = list@.take(k + 1);
                assert(next.drop_last() =~= part);
                assert(next.last() == e);
                let xx = edge_sum(t, w, left_of(c as int), e.prime) as int;
                let yy = edge_sum(t, w, right_of(t.row, c as int), e.sub) as int;
                let ss = pair_sum(t, w, c as int, part) as int;
                lemma_mul_mod_noop_general(xx, yy, P as int);
                lemma_add_mod_noop(ss, xx * yy, P as int);
                assert(pair_sum(t, w, c as int, next) == ss + xx * yy);
            }
            k += 1;
        }
        proof {
            assert(list@.take(k as int) =~= list@);
        }
        if here {
            let ghost before = memo@;
            memo.insert(key, acc);
            proof {
                assert forall|q: SddPtr| #[trigger]
                    memo@.contains_key(sdd_ptr_code(q) as u128) && ptr_ok(t, q) && (q is Reg
                        || q is Compl) implies memo@[sdd_ptr_code(q) as u128].wf() && memo@[sdd_ptr_code(
                    q,
                ) as u128]@ == edge_sum(t, w, place(t, q), q) % (P as nat) by {
                    if q != p {
                        assert(sdd_ptr_code(q) != sdd_ptr_code(p));
                        assert(before.contains_key(sdd_ptr_code(q) as u128));
                    }
                }
            }
        }
        acc
    }

    /// The builder along the tree, if each variable below the number of
    /// leaves stands at one leaf of the tree.
    pub fn new(vtree: VTree) -> (r: Option<SddManager>)
        ensures
            r is Some == vars_ok(vtree.row()),
            r matches Some(m) ==> m.wf() && m.tables().ors.len() == 0 && m.spec_num_vars()
                == leaves_below(vtree.row(), vtree.row().len() as int),
    {
        let manager = VTreeManager::new(vtree);
        if !manager.is_valid_vtree() {
            return None;
        }
        let canon = CompressionCanonicalizer::new(&manager);
        let m = SddManager { canon, vtree: manager };
        Some(m)
    }
}

} // verus!
