//! Clauses in normal form: ordered by variable, with no literal repeated in
//! a row.

use crate::repr::var_label::Literal;
use vstd::prelude::*;

verus! {

/// No literal of the clause has a smaller variable number than one before it.
pub open spec fn label_sorted(c: Seq<Literal>) -> bool {
    forall|i: int, j: int| 0 <= i <= j < c.len() ==> c[i].label.0 <= c[j].label.0
}

/// No two neighbours in the clause are the same literal.
pub open spec fn adjacent_distinct(c: Seq<Literal>) -> bool {
    forall|i: int| 0 <= i && i + 1 < c.len() ==> #[trigger] c[i] != c[i + 1]
}

/// The form in which a formula keeps its clauses.
pub open spec fn clause_normal(c: Seq<Literal>) -> bool {
    label_sorted(c) && adjacent_distinct(c)
}

/// `s` with `x` put behind the last literal whose variable number does not
/// exceed that of `x`.
pub open spec fn insert_by_label(s: Seq<Literal>, x: Literal) -> Seq<Literal>
    decreases s.len(),
{
    if s.len() == 0 || s.last().label.0 <= x.label.0 {
        s.push(x)
    } else {
        insert_by_label(s.drop_last(), x).push(s.last())
    }
}

/// The literals of `s` ordered by variable number; literals of one variable
/// keep the order they had in `s`.
pub open spec fn sort_by_label(s: Seq<Literal>) -> Seq<Literal>
    decreases s.len(),
{
    if s.len() == 0 {
        s
    } else {
        insert_by_label(sort_by_label(s.drop_last()), s.last())
    }
}

/// `s` without the literals that repeat the one just before them.
pub open spec fn dedup(s: Seq<Literal>) -> Seq<Literal>
    decreases s.len(),
{
    if s.len() == 0 {
        s
    } else if s.len() >= 2 && s[s.len() - 2] == s.last() {
        dedup(s.drop_last())
    } else {
        dedup(s.drop_last()).push(s.last())
    }
}

/// The normal form of a clause.
pub open spec fn normalize_clause(c: Seq<Literal>) -> Seq<Literal> {
    dedup(sort_by_label(c))
}

/// Where `insert_by_label` puts the new literal.
pub proof fn lemma_insert_position(s: Seq<Literal>, x: Literal, j: int)
    requires
        0 <= j <= s.len(),
        forall|k: int| j <= k < s.len() ==> s[k].label.0 > x.label.0,
        j == 0 || s[j - 1].label.0 <= x.label.0,
    ensures
        insert_by_label(s, x) == s.insert(j, x),
    decreases s.len(),
{
    if j == s.len() {
        assert(s.push(x) =~= s.insert(j, x));
    } else {
        assert(s.last().label.0 > x.label.0);
        lemma_insert_position(s.drop_last(), x, j);
        assert(s.drop_last().insert(j, x).push(s.last()) =~= s.insert(j, x));
    }
}

/// Inserting keeps the length, the order and the literals.
pub proof fn lemma_insert_by_label(s: Seq<Literal>, x: Literal)
    ensures
        insert_by_label(s, x).len() == s.len() + 1,
        label_sorted(s) ==> label_sorted(insert_by_label(s, x)),
        forall|l: Literal| #[trigger]
            insert_by_label(s, x).contains(l) <==> (s.contains(l) || l == x),
    decreases s.len(),
{
    let r = insert_by_label(s, x);
    if s.len() == 0 || s.last().label.0 <= x.label.0 {
        assert(r == s.push(x));
        assert forall|l: Literal| #[trigger] r.contains(l) <==> (s.contains(l) || l == x) by {
            if r.contains(l) {
                let i = choose|i: int| 0 <= i < r.len() && r[i] == l;
                if i < s.len() {
                    assert(s[i] == l);
                }
            }
            if s.contains(l) {
                let i = choose|i: int| 0 <= i < s.len() && s[i] == l;
                assert(r[i] == l);
            }
            if l == x {
                assert(r[s.len() as int] == l);
            }
        }
    } else {
        let t = s.drop_last();
        let rt = insert_by_label(t, x);
        lemma_insert_by_label(t, x);
        assert(r == rt.push(s.last()));
        if label_sorted(s) {
            assert(label_sorted(t));
            assert forall|i: int, j: int| 0 <= i <= j < r.len() implies r[i].label.0
                <= r[j].label.0 by {
                if j == r.len() - 1 {
                    if i < j {
                        assert(rt.contains(rt[i]));
                        if rt[i] != x {
                            assert(t.contains(rt[i]));
                            let k = choose|k: int| 0 <= k < t.len() && t[k] == rt[i];
                            assert(s[k] == rt[i]);
                        }
                    }
                } else {
                    assert(rt[i].label.0 <= rt[j].label.0);
                }
            }
        }
        assert forall|l: Literal| #[trigger] r.contains(l) <==> (s.contains(l) || l == x) by {
            if r.contains(l) {
                let i = choose|i: int| 0 <= i < r.len() && r[i] == l;
                if i < rt.len() {
                    assert(rt.contains(l));
                    if l != x {
                        assert(t.contains(l));
                        let k = choose|k: int| 0 <= k < t.len() && t[k] == l;
                        assert(s[k] == l);
                    }
                } else {
                    assert(s[s.len() - 1] == l);
                }
            }
            if s.contains(l) {
                let i = choose|i: int| 0 <= i < s.len() && s[i] == l;
                if i < t.len() {
                    assert(t[i] == l);
                    assert(t.contains(l));
                    assert(rt.contains(l));
                    let k = choose|k: int| 0 <= k < rt.len() && rt[k] == l;
                    assert(r[k] == l);
                } else {
                    assert(r[r.len() - 1] == l);
                }
            }
            if l == x {
                assert(rt.contains(l));
                let k = choose|k: int| 0 <= k < rt.len() && rt[k] == l;
                assert(r[k] == l);
            }
        }
    }
}

/// Sorting keeps the length and the literals, and orders them.
pub proof fn lemma_sort_by_label(s: Seq<Literal>)
    ensures
        sort_by_label(s).len() == s.len(),
        label_sorted(sort_by_label(s)),
        forall|l: Literal| #[trigger] sort_by_label(s).contains(l) <==> s.contains(l),
    decreases s.len(),
{
    if s.len() > 0 {
        let t = s.drop_last();
        lemma_sort_by_label(t);
        lemma_insert_by_label(sort_by_label(t), s.last());
        let r = sort_by_label(s);
        assert forall|l: Literal| #[trigger] r.contains(l) <==> s.contains(l) by {
            if s.contains(l) {
                let i = choose|i: int| 0 <= i < s.len() && s[i] == l;
                if i < t.len() {
                    assert(t[i] == l);
                    assert(t.contains(l));
                }
            }
            if r.contains(l) && l != s.last() {
                assert(sort_by_label(t).contains(l));
                assert(t.contains(l));
                let i = choose|i: int| 0 <= i < t.len() && t[i] == l;
                assert(s[i] == l);
            }
            if l == s.last() {
                assert(s[s.len() - 1] == l);
            }
        }
    }
}

/// Removing repeats keeps the order and the literals, leaves no literal
/// next to itself, and ends with the literal that `s` ends with.
pub proof fn lemma_dedup(s: Seq<Literal>)
    ensures
        dedup(s).len() <= s.len(),
        s.len() > 0 ==> dedup(s).len() > 0 && dedup(s).last() == s.last(),
        adjacent_distinct(dedup(s)),
        label_sorted(s) ==> label_sorted(dedup(s)),
        forall|l: Literal| #[trigger] dedup(s).contains(l) <==> s.contains(l),
    decreases s.len(),
{
    if s.len() > 0 {
        let t = s.drop_last();
        let dt = dedup(t);
        let r = dedup(s);
        lemma_dedup(t);
        assert(label_sorted(s) ==> label_sorted(t));
        if s.len() >= 2 && s[s.len() - 2] == s.last() {
            assert(r == dt);
            assert(t.last() == s.last());
            assert forall|l: Literal| #[trigger] r.contains(l) <==> s.contains(l) by {
                if r.contains(l) {
                    assert(t.contains(l));
                    let i = choose|i: int| 0 <= i < t.len() && t[i] == l;
                    assert(s[i] == l);
                }
                if s.contains(l) {
                    let i = choose|i: int| 0 <= i < s.len() && s[i] == l;
                    if i < t.len() {
                        assert(t[i] == l);
                    } else {
                        assert(t[t.len() - 1] == l);
                    }
                    assert(t.contains(l));
                }
            }
        } else {
            assert(r == dt.push(s.last()));
            assert(r.last() == s.last());
            assert forall|i: int| 0 <= i && i + 1 < r.len() implies #[trigger] r[i] != r[i
                + 1] by {
                if i + 1 == r.len() - 1 {
                    assert(dt.last() == t.last());
                    assert(t.last() == s[s.len() - 2]);
                } else {
                    assert(dt[i] != dt[i + 1]);
                }
            }
            if label_sorted(s) {
                assert forall|i: int, j: int| 0 <= i <= j < r.len() implies r[i].label.0
                    <= r[j].label.0 by {
                    if j == r.len() - 1 && i < j {
                        assert(dt.contains(dt[i]));
                        assert(t.contains(dt[i]));
                        let k = choose|k: int| 0 <= k < t.len() && t[k] == dt[i];
                        assert(s[k] == dt[i]);
                    }
                }
            }
            assert forall|l: Literal| #[trigger] r.contains(l) <==> s.contains(l) by {
                if r.contains(l) {
                    let i = choose|i: int| 0 <= i < r.len() && r[i] == l;
                    if i < dt.len() {
                        assert(dt[i] == l);
                        assert(dt.contains(l));
                        assert(t.contains(l));
                        let k = choose|k: int| 0 <= k < t.len() && t[k] == l;
                        assert(s[k] == l);
                    } else {
                        assert(s[s.len() - 1] == l);
                    }
                }
                if s.contains(l) {
                    let i = choose|i: int| 0 <= i < s.len() && s[i] == l;
                    if i < t.len() {
                        assert(t[i] == l);
                        assert(t.contains(l));
                        assert(dt.contains(l));
                        let k = choose|k: int| 0 <= k < dt.len() && dt[k] == l;
                        assert(r[k] == l);
                    } else {
                        assert(r[r.len() - 1] == l);
                    }
                }
            }
        }
    }
}

/// The normal form of a clause is normal, holds the literals of the clause
/// and no others, and is empty only if the clause is.
pub proof fn lemma_normalize_clause(c: Seq<Literal>)
    ensures
        clause_normal(normalize_clause(c)),
        forall|l: Literal| #[trigger] normalize_clause(c).contains(l) <==> c.contains(l),
        normalize_clause(c).len() <= c.len(),
        c.len() > 0 ==> normalize_clause(c).len() > 0,
{
    lemma_sort_by_label(c);
    lemma_dedup(sort_by_label(c));
    assert forall|l: Literal| #[trigger] normalize_clause(c).contains(l) <==> c.contains(l) by {
        assert(dedup(sort_by_label(c)).contains(l) <==> sort_by_label(c).contains(l));
    }
}

/// A clause that is normal already is its own normal form.
pub proof fn lemma_normalize_normal(c: Seq<Literal>)
    requires
        clause_normal(c),
    ensures
        normalize_clause(c) == c,
    decreases c.len(),
{
    if c.len() > 0 {
        let t = c.drop_last();
        assert(clause_normal(t)) by {
            assert forall|i: int| 0 <= i && i + 1 < t.len() implies #[trigger] t[i] != t[i
                + 1] by {
                assert(c[i] != c[i + 1]);
            }
        }
        lemma_normalize_normal(t);
        lemma_sorted_sort(c);
        lemma_distinct_dedup(c);
    }
}

/// Sorting an ordered clause changes nothing.
pub proof fn lemma_sorted_sort(c: Seq<Literal>)
    requires
        label_sorted(c),
    ensures
        sort_by_label(c) == c,
    decreases c.len(),
{
    if c.len() > 0 {
        let t = c.drop_last();
        lemma_sorted_sort(t);
        lemma_insert_position(t, c.last(), t.len() as int);
        assert(t.insert(t.len() as int, c.last()) =~= c);
    }
}

/// Removing repeats from a clause that has none changes nothing.
pub proof fn lemma_distinct_dedup(c: Seq<Literal>)
    requires
        adjacent_distinct(c),
    ensures
        dedup(c) == c,
    decreases c.len(),
{
    if c.len() > 0 {
        let t = c.drop_last();
        assert(adjacent_distinct(t)) by {
            assert forall|i: int| 0 <= i && i + 1 < t.len() implies #[trigger] t[i] != t[i
                + 1] by {
                assert(c[i] != c[i + 1]);
            }
        }
        lemma_distinct_dedup(t);
        if c.len() >= 2 {
            assert(c[c.len() - 2] != c[c.len() - 2 + 1]);
        }
        assert(t.push(c.last()) =~= c);
    }
}

/// Orders the literals of a clause by variable number, keeping the order
/// among the literals of one variable.
pub fn sort_clause(c: &Vec<Literal>) -> (r: Vec<Literal>)
    ensures
        r@ == sort_by_label(c@),
{
    let mut out: Vec<Literal> = Vec::new();
    let mut i: usize = 0;
    while i < c.len()
        invariant
            i <= c.len(),
            out@ == sort_by_label(c@.take(i as int)),
        decreases c.len() - i,
    {
        let x = c[i];
        let mut j: usize = out.len();
        while j > 0 && out[j - 1].label.0 > x.label.0
            invariant
                j <= out.len(),
                forall|k: int| j <= k < out.len() ==> out@[k].label.0 > x.label.0,
            decreases j,
        {
            j -= 1;
        }
        proof {
            lemma_insert_position(out@, x, j as int);
            assert(c@.take(i + 1).drop_last() =~= c@.take(i as int));
        }
        out.insert(j, x);
        i += 1;
    }
    proof {
        assert(c@.take(c.len() as int) =~= c@);
    }
    out
}

/// Drops each literal of a clause that repeats the one just before it.
pub fn dedup_clause(c: &Vec<Literal>) -> (r: Vec<Literal>)
    ensures
        r@ == dedup(c@),
{
    let mut out: Vec<Literal> = Vec::new();
    let mut i: usize = 0;
    while i < c.len()
        invariant
            i <= c.len(),
            out@ == dedup(c@.take(i as int)),
        decreases c.len() - i,
    {
        proof {
            assert(c@.take(i + 1).drop_last() =~= c@.take(i as int));
        }
        if i == 0 || c[i - 1] != c[i] {
            out.push(c[i]);
        }
        i += 1;
    }
    proof {
        assert(c@.take(c.len() as int) =~= c@);
    }
    out
}

} // verus!
