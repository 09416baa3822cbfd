//! What holds while the elements of two lists are multiplied out: the
//! primes of the products part the assignments as far as the pairs have
//! been taken, and the products denote the conjunction of what has been
//! taken of the two lists.

use crate::repr::sdd::{SddAnd, SddPtr};
use crate::repr::sdd_semantics::{
    denotes, element_holds, grown, is_partition, lemma_grown_denotes, lemma_grown_list,
    lemma_grown_partition, lemma_grown_structured, lemma_list_push, list_holds, list_ok,
    prime_count, ptr_ok, respects, structured, tables_ok, unit, SddTables,
};
use vstd::prelude::*;

verus! {

/// The list `m` in the tables `u` is the list `l` in the tables `t` with
/// the product of the elements `e` and `x`: it denotes what `l` denotes or
/// both elements, and where no prime of `l` is true with the primes of
/// both elements, one more of its primes is true where those are.
#[verifier::opaque]
pub open spec fn is_added(
    t: SddTables,
    u: SddTables,
    l: Seq<SddAnd>,
    m: Seq<SddAnd>,
    e: SddAnd,
    x: SddAnd,
) -> bool {
    forall|a: Seq<bool>|
        #![trigger list_holds(u, m, a)]
        #![trigger prime_count(u, m, a)]
        list_holds(u, m, a) == (list_holds(t, l, a) || (element_holds(t, e, a) && element_holds(
            t,
            x,
            a,
        ))) && ((denotes(t, e.prime, a) && denotes(t, x.prime, a) ==> prime_count(t, l, a) == 0)
            ==> prime_count(u, m, a) == prime_count(t, l, a) + unit(
            denotes(t, e.prime, a) && denotes(t, x.prime, a),
        ))
}

/// The element of the constant true for prime and sub.
pub open spec fn whole() -> SddAnd {
    SddAnd { prime: SddPtr::PtrTrue, sub: SddPtr::PtrTrue }
}

/// The list `r` holds the products of the first `i` elements of `f` with
/// all elements of `g`, and of the next element of `f` with the first `j`
/// elements of `g`.
#[verifier::opaque]
pub open spec fn progress(
    t: SddTables,
    f: Seq<SddAnd>,
    g: Seq<SddAnd>,
    r: Seq<SddAnd>,
    i: int,
    j: int,
) -> bool {
    forall|a: Seq<bool>|
        #![trigger list_holds(t, r, a)]
        #![trigger prime_count(t, r, a)]
        prime_count(t, r, a) == prime_count(t, f.take(i), a) + (if i < f.len() && denotes(
            t,
            f[i].prime,
            a,
        ) {
            prime_count(t, g.take(j), a)
        } else {
            0
        }) && list_holds(t, r, a) == ((list_holds(t, f.take(i), a) && list_holds(t, g, a)) || (i
            < f.len() && element_holds(t, f[i], a) && list_holds(t, g.take(j), a)))
}

/// The list `r` in the tables `u` denotes the conjunction of what the lists
/// `f` and `g` denote in the tables `t`.
#[verifier::opaque]
pub open spec fn is_product(
    t: SddTables,
    u: SddTables,
    f: Seq<SddAnd>,
    g: Seq<SddAnd>,
    r: Seq<SddAnd>,
) -> bool {
    forall|a: Seq<bool>| #[trigger]
        list_holds(u, r, a) == (list_holds(t, f, a) && list_holds(t, g, a))
}

/// An edge that respects a node respects it in tables that have grown.
pub proof fn lemma_grown_respects(t: SddTables, u: SddTables, c: int, p: SddPtr)
    requires
        tables_ok(t),
        grown(t, u),
        respects(t, c, p),
    ensures
        respects(u, c, p),
{
    lemma_grown_denotes(t, u, p, Seq::empty());
}

/// Tables that have grown from tables that have grown have grown.
pub proof fn lemma_grown_twice(t: SddTables, u: SddTables, v: SddTables)
    requires
        grown(t, u),
        grown(u, v),
    ensures
        grown(t, v),
{
    assert forall|h: int| 0 <= h < t.ors.len() implies #[trigger] v.ors[h] == t.ors[h] by {
        assert(u.ors[h] == t.ors[h]);
    }
}

/// The true primes among the first elements and the next one are among
/// those of the list.
pub proof fn lemma_count_prefix(t: SddTables, l: Seq<SddAnd>, i: int, a: Seq<bool>)
    requires
        0 <= i < l.len(),
    ensures
        prime_count(t, l.take(i), a) + unit(denotes(t, l[i].prime, a)) <= prime_count(t, l, a),
        prime_count(t, l.take(i + 1), a) == prime_count(t, l.take(i), a) + unit(
            denotes(t, l[i].prime, a),
        ),
        list_holds(t, l.take(i + 1), a) == (list_holds(t, l.take(i), a) || element_holds(
            t,
            l[i],
            a,
        )),
    decreases l.len(),
{
    assert(l.take(i + 1) =~= l.take(i).push(l[i]));
    lemma_list_push(t, l.take(i), l[i], a);
    if i == l.len() - 1 {
        assert(l.take(i + 1) =~= l);
    } else {
        lemma_count_prefix(t, l.drop_last(), i, a);
        assert(l.drop_last().take(i) =~= l.take(i));
    }
}

/// Nothing has been multiplied at the start.
pub proof fn lemma_progress_start(t: SddTables, f: Seq<SddAnd>, g: Seq<SddAnd>)
    ensures
        progress(t, f, g, Seq::empty(), 0, 0),
{
    reveal(progress);
    assert(f.take(0) =~= Seq::<SddAnd>::empty());
    assert(g.take(0) =~= Seq::<SddAnd>::empty());
}

/// The prefix of a list of valid edges is one.
pub proof fn lemma_prefix_ok(t: SddTables, l: Seq<SddAnd>, i: int)
    requires
        list_ok(t, l),
        0 <= i <= l.len(),
    ensures
        list_ok(t, l.take(i)),
{
    assert forall|k: int| 0 <= k < l.take(i).len() implies ptr_ok(
        t,
        (#[trigger] l.take(i)[k]).prime,
    ) && ptr_ok(t, l.take(i)[k].sub) by {
        assert(l.take(i)[k] == l[k]);
    }
}

/// With the product of one more pair, one more pair has been taken.
pub proof fn lemma_pair_step(
    t: SddTables,
    u: SddTables,
    c: int,
    f: Seq<SddAnd>,
    g: Seq<SddAnd>,
    r: Seq<SddAnd>,
    m: Seq<SddAnd>,
    i: int,
    j: int,
)
    requires
        tables_ok(t),
        grown(t, u),
        structured(t, c, f),
        structured(t, c, g),
        is_partition(t, f),
        is_partition(t, g),
        0 <= i < f.len(),
        0 <= j < g.len(),
        progress(t, f, g, r, i, j),
        is_added(t, u, r, m, f[i], g[j]),
    ensures
        progress(u, f, g, m, i, j + 1),
        structured(u, c, f),
        structured(u, c, g),
        is_partition(u, f),
        is_partition(u, g),
{
    reveal(progress);
    reveal(is_added);
    lemma_grown_structured(t, u, c, f);
    lemma_grown_structured(t, u, c, g);
    lemma_grown_partition(t, u, f);
    lemma_grown_partition(t, u, g);
    lemma_prefix_ok(t, f, i);
    lemma_prefix_ok(t, g, j);
    lemma_prefix_ok(t, g, j + 1);
    assert(ptr_ok(t, f[i].prime) && ptr_ok(t, f[i].sub));
    assert(ptr_ok(t, g[j].prime) && ptr_ok(t, g[j].sub));
    assert forall|a: Seq<bool>|
        #![trigger list_holds(u, m, a)]
        #![trigger prime_count(u, m, a)]
        prime_count(u, m, a) == prime_count(u, f.take(i), a) + (if i < f.len() && denotes(
            u,
            f[i].prime,
            a,
        ) {
            prime_count(u, g.take(j + 1), a)
        } else {
            0
        }) && list_holds(u, m, a) == ((list_holds(u, f.take(i), a) && list_holds(u, g, a)) || (i
            < f.len() && element_holds(u, f[i], a) && list_holds(u, g.take(j + 1), a))) by {
        lemma_grown_list(t, u, f.take(i), a);
        lemma_grown_list(t, u, g.take(j + 1), a);
        lemma_grown_list(t, u, g, a);
        lemma_grown_denotes(t, u, f[i].prime, a);
        lemma_grown_denotes(t, u, f[i].sub, a);
        lemma_count_prefix(t, f, i, a);
        lemma_count_prefix(t, g, j, a);
        assert(prime_count(t, f, a) == 1);
        assert(prime_count(t, g, a) == 1);
        assert(prime_count(t, r, a) == prime_count(t, f.take(i), a) + (if denotes(
            t,
            f[i].prime,
            a,
        ) {
            prime_count(t, g.take(j), a)
        } else {
            0
        }));
        assert(list_holds(t, r, a) == ((list_holds(t, f.take(i), a) && list_holds(t, g, a)) || (
        element_holds(t, f[i], a) && list_holds(t, g.take(j), a))));
    }
}

/// When an element has been multiplied with a whole partition, the next
/// element comes.
pub proof fn lemma_progress_row(
    t: SddTables,
    f: Seq<SddAnd>,
    g: Seq<SddAnd>,
    r: Seq<SddAnd>,
    i: int,
)
    requires
        0 <= i < f.len(),
        is_partition(t, g),
        progress(t, f, g, r, i, g.len() as int),
    ensures
        progress(t, f, g, r, i + 1, 0),
{
    reveal(progress);
    assert(g.take(g.len() as int) =~= g);
    assert(g.take(0) =~= Seq::<SddAnd>::empty());
    assert forall|a: Seq<bool>|
        #![trigger list_holds(t, r, a)]
        #![trigger prime_count(t, r, a)]
        prime_count(t, r, a) == prime_count(t, f.take(i + 1), a) + (if i + 1 < f.len() && denotes(
            t,
            f[i + 1].prime,
            a,
        ) {
            prime_count(t, g.take(0), a)
        } else {
            0
        }) && list_holds(t, r, a) == ((list_holds(t, f.take(i + 1), a) && list_holds(t, g, a)) || (
        i + 1 < f.len() && element_holds(t, f[i + 1], a) && list_holds(t, g.take(0), a))) by {
        lemma_count_prefix(t, f, i, a);
        assert(prime_count(t, g, a) == 1);
        assert(prime_count(t, r, a) == prime_count(t, f.take(i), a) + (if denotes(
            t,
            f[i].prime,
            a,
        ) {
            prime_count(t, g.take(g.len() as int), a)
        } else {
            0
        }));
        assert(list_holds(t, r, a) == ((list_holds(t, f.take(i), a) && list_holds(t, g, a)) || (
        element_holds(t, f[i], a) && list_holds(t, g.take(g.len() as int), a))));
    }
}

/// When all pairs of two partitions have been taken, the products are a
/// partition that denotes the conjunction.
pub proof fn lemma_progress_end(t: SddTables, f: Seq<SddAnd>, g: Seq<SddAnd>, r: Seq<SddAnd>)
    requires
        is_partition(t, f),
        progress(t, f, g, r, f.len() as int, 0),
    ensures
        is_partition(t, r),
        is_product(t, t, f, g, r),
{
    reveal(progress);
    reveal(is_product);
    assert(f.take(f.len() as int) =~= f);
    assert forall|a: Seq<bool>| #[trigger] prime_count(t, r, a) == 1 by {
        assert(prime_count(t, f, a) == 1);
    }
    assert forall|a: Seq<bool>| #[trigger]
        list_holds(t, r, a) == (list_holds(t, f, a) && list_holds(t, g, a)) by {
        assert(prime_count(t, r, a) == prime_count(t, f.take(f.len() as int), a));
    }
}

} // verus!
