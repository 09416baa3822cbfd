//! Formulas as text, such as `  (0 || !1) && (2) && (!0 || 3)`.

use crate::repr::cnf::Cnf;
use crate::repr::var_label::Literal;
use vstd::prelude::*;

verus! {

/// The character of a decimal digit.
pub open spec fn digit_char(d: nat) -> char {
    if d == 0 {
        '0'
    } else if d == 1 {
        '1'
    } else if d == 2 {
        '2'
    } else if d == 3 {
        '3'
    } else if d == 4 {
        '4'
    } else if d == 5 {
        '5'
    } else if d == 6 {
        '6'
    } else if d == 7 {
        '7'
    } else if d == 8 {
        '8'
    } else {
        '9'
    }
}

/// The number in decimal notation, without leading zeros.
pub open spec fn decimal(n: nat) -> Seq<char>
    decreases n,
{
    if n < 10 {
        seq![digit_char(n)]
    } else {
        decimal(n / 10).push(digit_char(n % 10))
    }
}

/// The literal as text: the number of its variable, behind a `!` if the
/// literal is negative.
pub open spec fn literal_text(l: Literal) -> Seq<char> {
    if l.polarity {
        decimal(l.label.0 as nat)
    } else {
        seq!['!'] + decimal(l.label.0 as nat)
    }
}

/// The clause as text: its literals with ` || ` between them.
pub open spec fn clause_text(c: Seq<Literal>) -> Seq<char>
    decreases c.len(),
{
    if c.len() == 0 {
        Seq::empty()
    } else if c.len() == 1 {
        literal_text(c[0])
    } else {
        clause_text(c.drop_last()) + seq![' ', '|', '|', ' '] + literal_text(c.last())
    }
}

/// The formula as text: the first clause in brackets; each further clause
/// puts a blank in front of the text and ` && ` and itself, in brackets,
/// behind it.
pub open spec fn formula_text(cs: Seq<Seq<Literal>>) -> Seq<char>
    decreases cs.len(),
{
    if cs.len() == 0 {
        Seq::empty()
    } else if cs.len() == 1 {
        seq!['('] + clause_text(cs[0]) + seq![')']
    } else {
        seq![' '] + formula_text(cs.drop_last()) + seq![' ', '&', '&', ' ', '('] + clause_text(
            cs.last(),
        ) + seq![')']
    }
}

/// The text of a literal is not empty, nor is that of a clause that holds a
/// literal, nor that of a formula that holds a clause.
pub proof fn lemma_text_not_empty(cs: Seq<Seq<Literal>>, c: Seq<Literal>, l: Literal)
    ensures
        literal_text(l).len() > 0,
        c.len() > 0 ==> clause_text(c).len() > 0,
        cs.len() > 0 ==> formula_text(cs).len() > 0,
{
    assert(decimal(l.label.0 as nat).len() > 0);
    if c.len() > 1 {
        assert(literal_text(c.last()).len() > 0) by {
            assert(decimal(c.last().label.0 as nat).len() > 0);
        }
    } else if c.len() == 1 {
        assert(decimal(c[0].label.0 as nat).len() > 0);
    }
}

/// The text of a decimal digit.
fn digit_str(d: u64) -> (r: &'static str)
    requires
        d < 10,
    ensures
        r@ == seq![digit_char(d as nat)],
{
    proof {
        reveal_strlit("0");
        reveal_strlit("1");
        reveal_strlit("2");
        reveal_strlit("3");
        reveal_strlit("4");
        reveal_strlit("5");
        reveal_strlit("6");
        reveal_strlit("7");
        reveal_strlit("8");
        reveal_strlit("9");
    }
    let r = if d == 0 {
        "0"
    } else if d == 1 {
        "1"
    } else if d == 2 {
        "2"
    } else if d == 3 {
        "3"
    } else if d == 4 {
        "4"
    } else if d == 5 {
        "5"
    } else if d == 6 {
        "6"
    } else if d == 7 {
        "7"
    } else if d == 8 {
        "8"
    } else {
        "9"
    };
    assert(r@ =~= seq![digit_char(d as nat)]);
    r
}

/// The number in decimal notation.
pub fn decimal_string(v: u64) -> (r: String)
    ensures
        r@ == decimal(v as nat),
    decreases v,
{
    if v < 10 {
        let mut s = String::new();
        s.append(digit_str(v));
        assert(s@ =~= decimal(v as nat));
        s
    } else {
        let mut s = decimal_string(v / 10);
        s.append(digit_str(v % 10));
        assert(s@ =~= decimal(v as nat));
        s
    }
}

/// The literal as text.
pub fn literal_string(lit: Literal) -> (r: String)
    ensures
        r@ == literal_text(lit),
{
    let mut s = String::new();
    if !lit.get_polarity() {
        proof {
            reveal_strlit("!");
        }
        s.append("!");
    }
    let digits = decimal_string(lit.get_label().value());
    s.append(digits.as_str());
    assert(s@ =~= literal_text(lit));
    s
}

/// The clause as text.
pub fn clause_string(clause: &Vec<Literal>) -> (r: String)
    ensures
        r@ == clause_text(clause@),
{
    let mut clause_str = String::new();
    let mut i: usize = 0;
    while i < clause.len()
        invariant
            i <= clause.len(),
            clause_str@ == clause_text(clause@.take(i as int)),
        decreases clause.len() - i,
    {
        let lit_str = literal_string(clause[i]);
        proof {
            let t = clause@.take(i + 1);
            assert(t.drop_last() =~= clause@.take(i as int));
            assert(t.last() == clause@[i as int]);
            lemma_text_not_empty(Seq::empty(), clause@.take(i as int), clause@[i as int]);
            reveal_strlit(" || ");
            if i == 1 {
                assert(t[0] == t.drop_last()[0]);
            }
        }
        if clause_str.as_str().is_empty() {
            clause_str = lit_str;
        } else {
            clause_str.append(" || ");
            clause_str.append(lit_str.as_str());
            assert(" || "@ =~= seq![' ', '|', '|', ' ']);
        }
        assert(clause_str@ =~= clause_text(clause@.take(i + 1)));
        i += 1;
    }
    proof {
        assert(clause@.take(clause.len() as int) =~= clause@);
    }
    clause_str
}

impl Cnf {
    /// The formula as text.
    pub fn to_string(&self) -> (r: String)
        ensures
            r@ == formula_text(self@),
    {
        let clauses = self.clauses();
        let ghost cs = self@;
        let mut r = String::new();
        let mut k: usize = 0;
        while k < clauses.len()
            invariant
                k <= clauses.len(),
                cs == self@,
                crate::repr::cnf::clause_seqs(clauses@) == cs,
                r@ == formula_text(cs.take(k as int)),
            decreases clauses.len() - k,
        {
            let clause_str = clause_string(&clauses[k]);
            proof {
                let t = cs.take(k + 1);
                assert(t.drop_last() =~= cs.take(k as int));
                assert(t.last() == clauses@[k as int]@);
                lemma_text_not_empty(cs.take(k as int), Seq::empty(), Literal {
                    label: crate::repr::var_label::VarLabel(0),
                    polarity: true,
                });
                reveal_strlit("(");
                reveal_strlit(")");
                reveal_strlit(" ");
                reveal_strlit(" && (");
                assert("("@ =~= seq!['(']);
                assert(")"@ =~= seq![')']);
                assert(" "@ =~= seq![' ']);
                assert(" && ("@ =~= seq![' ', '&', '&', ' ', '(']);
            }
            let mut next = String::new();
            if r.as_str().is_empty() {
                next.append("(");
                next.append(clause_str.as_str());
                next.append(")");
            } else {
                next.append(" ");
                next.append(r.as_str());
                next.append(" && (");
                next.append(clause_str.as_str());
                next.append(")");
            }
            assert(next@ =~= formula_text(cs.take(k + 1)));
            r = next;
            k += 1;
        }
        proof {
            assert(cs.take(clauses.len() as int) =~= cs);
        }
        r
    }
}

} // verus!
