//! Formulas from text in the DIMACS format.
//!
//! The text is parsed by the `dimacs` crate. What is proved here is what
//! becomes of the clauses that the parser hands back.

use crate::repr::cnf::{clause_seqs, normalize, Cnf};
use crate::repr::var_label::{Literal, VarLabel};
use vstd::prelude::*;

verus! {

/// The longest run of decimal digits that the parser is handed. The
/// parser's own arithmetic would take more, but it reserves room for as
/// many clauses as the header of the file announces before it reads one:
/// with 8 digits that is room for fewer than 100 million clauses.
pub const MAX_DIGITS: usize = 8;

/// The largest number that a run of `MAX_DIGITS` digits stands for.
pub const MAX_NUMBER: u64 = 99_999_999;

/// The largest number of opening brackets that the parser is handed.
pub const MAX_BRACKETS: usize = 256;

/// The largest number of comment marks that the parser is handed: of
/// letters `c` that no letter or digit follows. A comment begins with one,
/// and the parser descends once for each comment in a row that it skips.
pub const MAX_COMMENT_MARKS: usize = 256;

/// A decimal digit.
pub open spec fn is_digit(c: char) -> bool {
    '0' <= c && c <= '9'
}

/// The number of decimal digits in a row that end just before the place
/// `i` of the text.
pub open spec fn run_before(text: Seq<char>, i: int) -> nat
    decreases i,
{
    if i <= 0 || i > text.len() || !is_digit(text[i - 1]) {
        0
    } else {
        run_before(text, i - 1) + 1
    }
}

/// The number of opening brackets in the text.
pub open spec fn bracket_count(text: Seq<char>) -> nat
    decreases text.len(),
{
    if text.len() == 0 {
        0
    } else {
        bracket_count(text.drop_last()) + if text.last() == '(' {
            1nat
        } else {
            0nat
        }
    }
}

/// A letter or a digit of the ASCII alphabet.
pub open spec fn is_ascii_alnum(c: char) -> bool {
    ('0' <= c && c <= '9') || ('a' <= c && c <= 'z') || ('A' <= c && c <= 'Z')
}

/// At the place `p` of the text stands a letter `c` that no letter or
/// digit follows.
pub open spec fn mark_at(text: Seq<char>, p: int) -> bool {
    0 <= p < text.len() && text[p] == 'c' && (p + 1 == text.len() || !is_ascii_alnum(text[p + 1]))
}

/// The number of comment marks before the place `k` of the text.
pub open spec fn marks_before(text: Seq<char>, k: int) -> nat
    decreases k,
{
    if k <= 0 {
        0
    } else {
        marks_before(text, k - 1) + if mark_at(text, k - 1) {
            1nat
        } else {
            0nat
        }
    }
}

/// The number of comment marks in the text.
pub open spec fn comment_marks(text: Seq<char>) -> nat {
    marks_before(text, text.len() as int)
}

/// The marks before a place are among those before a later place.
pub proof fn lemma_marks_before(text: Seq<char>, i: int, k: int)
    requires
        i <= k,
    ensures
        marks_before(text, i) <= marks_before(text, k),
    decreases k - i,
{
    if i < k {
        lemma_marks_before(text, i, k - 1);
    }
}

/// The text is one that the parser can be handed: no number in it has more
/// than `MAX_DIGITS` digits, so that the parser's arithmetic stays in range
/// and it reserves no more room than can be addressed, and it holds no more
/// than `MAX_BRACKETS` opening brackets and no more than
/// `MAX_COMMENT_MARKS` comment marks, which bounds how deep the parser
/// descends in a formula and over comments.
pub open spec fn within_parser_limits(text: Seq<char>) -> bool {
    &&& forall|i: int| 0 <= i <= text.len() ==> #[trigger] run_before(text, i) <= MAX_DIGITS
    &&& bracket_count(text) <= MAX_BRACKETS
    &&& comment_marks(text) <= MAX_COMMENT_MARKS
}

/// Whether the text is within the parser's limits.
pub fn check_parser_limits(text: &str) -> (r: bool)
    ensures
        r == within_parser_limits(text@),
{
    let mut run: usize = 0;
    let mut brackets: usize = 0;
    let mut marks: usize = 0;
    // whether the character before is a letter `c`
    let mut pending = false;
    let mut ok = true;
    for c in it: text.chars()
        invariant
            it.seq() == text@,
            ok ==> run == run_before(text@, it.index() as int) && brackets == bracket_count(
                text@.take(it.index() as int),
            ) && marks == marks_before(text@, it.index() - 1),
            ok ==> pending == (it.index() > 0 && text@[it.index() - 1] == 'c'),
            ok ==> run <= MAX_DIGITS && brackets <= MAX_BRACKETS && marks <= MAX_COMMENT_MARKS,
            ok ==> forall|i: int| 0 <= i <= it.index() ==> #[trigger] run_before(text@, i) <= MAX_DIGITS,
            !ok ==> !within_parser_limits(text@),
    {
        if ok {
            proof {
                let i = it.index() as int;
                assert(text@.take(i + 1).drop_last() =~= text@.take(i));
                assert(text@.take(i + 1).last() == c);
                lemma_bracket_count_take(text@, i + 1);
                lemma_marks_before(text@, i, text@.len() as int);
            }
            if c >= '0' && c <= '9' {
                run = run + 1;
            } else {
                run = 0;
            }
            if c == '(' {
                brackets = brackets + 1;
            }
            let alnum = (c >= '0' && c <= '9') || (c >= 'a' && c <= 'z') || (c >= 'A' && c <= 'Z');
            if pending && !alnum {
                marks = marks + 1;
            }
            pending = c == 'c';
            if run > MAX_DIGITS || brackets > MAX_BRACKETS || marks > MAX_COMMENT_MARKS {
                proof {
                    let i = it.index() as int;
                    assert(run == run_before(text@, i + 1));
                    assert(brackets == bracket_count(text@.take(i + 1)));
                    assert(marks == marks_before(text@, i));
                }
                ok = false;
            }
        }
    }
    proof {
        assert(text@.take(text@.len() as int) =~= text@);
    }
    if ok && pending {
        marks = marks + 1;
        if marks > MAX_COMMENT_MARKS {
            return false;
        }
    }
    ok
}

/// The brackets of a part of the text are among those of the text.
pub proof fn lemma_bracket_count_take(text: Seq<char>, i: int)
    requires
        0 <= i <= text.len(),
    ensures
        bracket_count(text.take(i)) <= bracket_count(text),
    decreases text.len() - i,
{
    if i < text.len() {
        lemma_bracket_count_take(text, i + 1);
        assert(text.take(i + 1).drop_last() =~= text.take(i));
    } else {
        assert(text.take(i) =~= text);
    }
}

/// The clauses that vectors of numbered, signed variables hold.
pub open spec fn clause_lists(v: Seq<Vec<(u64, bool)>>) -> Seq<Seq<(u64, bool)>> {
    Seq::new(v.len(), |k: int| v[k]@)
}

/// What the parser hands back, as values.
pub open spec fn parsed_view(r: Option<Vec<Vec<(u64, bool)>>>) -> Option<Seq<Seq<(u64, bool)>>> {
    match r {
        Some(v) => Some(clause_lists(v@)),
        None => None,
    }
}

/// The clauses that the text holds, read as a DIMACS file of the kind
/// `cnf`: each literal as the number of its variable, counted from 1, and
/// `true` for a positive literal. `None` for a text that is no DIMACS file,
/// or one of another kind.
pub uninterp spec fn dimacs_cnf(text: Seq<char>) -> Option<Seq<Seq<(u64, bool)>>>;

/// The number of each variable is one that a run of digits of a text
/// within the parser's limits stands for, and not 0.
pub open spec fn numbers_read(cs: Seq<Seq<(u64, bool)>>) -> bool {
    forall|k: int, i: int|
        0 <= k < cs.len() && 0 <= i < cs[k].len() ==> 1 <= (#[trigger] cs[k][i]).0 <= MAX_NUMBER
}

/// Calls `dimacs::parse_dimacs` on the text and hands back the clauses of
/// the instance, if the text parses and is of the kind `cnf`: for each
/// literal the number of its variable and whether its sign is positive.
/// The contract gives the result its name. Of the numbers it claims what
/// the parser's reading of a number shows: a number is read from a run of
/// digits that begins with one of 1 to 9, a single 0 ends a clause, and
/// the text holds no run of more than `MAX_DIGITS` digits; so each
/// variable has a number from 1 to `MAX_NUMBER`.
#[verifier::external_body]
fn parse_dimacs_clauses(text: &str) -> (r: Option<Vec<Vec<(u64, bool)>>>)
    requires
        within_parser_limits(text@),
    ensures
        parsed_view(r) == dimacs_cnf(text@),
        parsed_view(r) matches Some(cs) ==> numbers_read(cs),
{
    match dimacs::parse_dimacs(text) {
        Ok(dimacs::Instance::Cnf { clauses, .. }) => Some(
            clauses.iter().map(|c| c.lits().iter().map(|l| (l.var().to_u64(), match l.sign() {
                dimacs::Sign::Pos => true,
                dimacs::Sign::Neg => false,
            })).collect()).collect(),
        ),
        Ok(dimacs::Instance::Sat { .. }) => None,
        Err(_) => None,
    }
}

/// The literal that a numbered, signed variable of a DIMACS file stands
/// for: DIMACS counts variables from 1, the library from 0.
pub open spec fn literal_of(p: (u64, bool)) -> Literal {
    Literal { label: VarLabel((p.0 - 1) as u64), polarity: p.1 }
}

/// The clause that a parsed clause stands for.
pub open spec fn clause_of(c: Seq<(u64, bool)>) -> Seq<Literal> {
    Seq::new(c.len(), |i: int| literal_of(c[i]))
}

/// The clauses that parsed clauses stand for.
pub open spec fn clauses_of(cs: Seq<Seq<(u64, bool)>>) -> Seq<Seq<Literal>> {
    Seq::new(cs.len(), |k: int| clause_of(cs[k]))
}

/// Every variable has a number from 1 on that the machine can index by.
pub open spec fn variables_in_range(cs: Seq<Seq<(u64, bool)>>) -> bool {
    forall|k: int, i: int|
        0 <= k < cs.len() && 0 <= i < cs[k].len() ==> 1 <= (#[trigger] cs[k][i]).0 <= usize::MAX
}

impl Cnf {
    /// The formula of parsed clauses; `None` if a variable has the number 0
    /// or one beyond what the machine can index by.
    pub fn from_dimacs_clauses(parsed: &Vec<Vec<(u64, bool)>>) -> (r: Option<Cnf>)
        ensures
            r is Some <==> variables_in_range(clause_lists(parsed@)),
            r matches Some(c) ==> c.wf() && c@ == normalize(clauses_of(clause_lists(parsed@))),
    {
        let ghost cs = clause_lists(parsed@);
        let mut clause_vec: Vec<Vec<Literal>> = Vec::new();
        let mut k: usize = 0;
        while k < parsed.len()
            invariant
                k <= parsed.len(),
                cs == clause_lists(parsed@),
                variables_in_range(cs.take(k as int)),
                clause_seqs(clause_vec@) == clauses_of(cs.take(k as int)),
            decreases parsed.len() - k,
        {
            let itm = &parsed[k];
            let mut lit_vec: Vec<Literal> = Vec::new();
            let mut i: usize = 0;
            while i < itm.len()
                invariant
                    i <= itm.len(),
                    0 <= k < cs.len(),
                    cs == clause_lists(parsed@),
                    itm@ == cs[k as int],
                    forall|j: int| 0 <= j < i ==> 1 <= (#[trigger] itm@[j]).0 <= usize::MAX,
                    lit_vec@ == clause_of(itm@.take(i as int)),
                decreases itm.len() - i,
            {
                let (var, sign) = itm[i];
                if var == 0 || var - 1 >= usize::MAX as u64 {
                    proof {
                        assert(cs[k as int][i as int] == itm@[i as int]);
                        assert(!(1 <= cs[k as int][i as int].0 <= usize::MAX));
                    }
                    return None;
                }
                // subtract 1, we are 0-indexed
                let lbl = VarLabel::new(var - 1);
                lit_vec.push(Literal::new(lbl, sign));
                assert(lit_vec@ =~= clause_of(itm@.take(i + 1)));
                i += 1;
            }
            proof {
                assert(itm@.take(itm.len() as int) =~= itm@);
                let t = cs.take(k + 1);
                assert forall|a: int, b: int|
                    0 <= a < t.len() && 0 <= b < t[a].len() implies 1 <= (#[trigger] t[a][b]).0
                    <= usize::MAX by {
                    if a < k {
                        assert(cs.take(k as int)[a][b] == t[a][b]);
                    } else {
                        assert(t[a][b] == itm@[b]);
                    }
                }
                let old_seqs = clause_seqs(clause_vec@);
                let new_seqs = clause_seqs(clause_vec@.push(lit_vec));
                assert(old_seqs.len() == clauses_of(cs.take(k as int)).len());
                assert(new_seqs.len() == t.len());
                assert forall|a: int| 0 <= a < new_seqs.len() implies new_seqs[a] == clauses_of(
                    t,
                )[a] by {
                    if a < k {
                        assert(new_seqs[a] == old_seqs[a]);
                        assert(old_seqs[a] == clauses_of(cs.take(k as int))[a]);
                        assert(cs.take(k as int)[a] == t[a]);
                    } else {
                        assert(t[a] == itm@);
                    }
                }
                assert(new_seqs =~= clauses_of(t));
            }
            clause_vec.push(lit_vec);
            k += 1;
        }
        proof {
            assert(cs.take(parsed.len() as int) =~= cs);
            let ls = clause_seqs(clause_vec@);
            assert forall|a: int, b: int|
                0 <= a < ls.len() && 0 <= b < ls[a].len() implies (#[trigger] ls[a][b]).label.0
                < usize::MAX by {
                assert(ls[a][b] == literal_of(cs[a][b]));
            }
        }
        Some(Cnf::new(clause_vec))
    }

    /// The formula that a DIMACS file of the kind `cnf` holds. A clause
    /// line that holds only the closing 0 is an empty clause.
    pub fn from_file(v: String) -> (r: Cnf)
        requires
            within_parser_limits(v@),
            dimacs_cnf(v@) is Some,
        ensures
            r.wf(),
            r@ == normalize(clauses_of(dimacs_cnf(v@).unwrap())),
    {
        match parse_dimacs_clauses(v.as_str()) {
            Some(cvec) => match Cnf::from_dimacs_clauses(&cvec) {
                Some(cnf) => cnf,
                None => {
                    proof {
                        assert(false);
                    }
                    Cnf::new(Vec::new())
                },
            },
            None => {
                proof {
                    assert(false);
                }
                Cnf::new(Vec::new())
            },
        }
    }

    /// The formula that a DIMACS file of the kind `cnf` holds; `None` where
    /// the text is beyond the parser's limits, does not parse, or is of
    /// another kind.
    pub fn try_from_file(v: String) -> (r: Option<Cnf>)
        ensures
            r is Some <==> within_parser_limits(v@) && dimacs_cnf(v@) is Some,
            r matches Some(c) ==> c.wf() && c@ == normalize(
                clauses_of(dimacs_cnf(v@).unwrap()),
            ),
    {
        if !check_parser_limits(v.as_str()) {
            return None;
        }
        match parse_dimacs_clauses(v.as_str()) {
            Some(_) => Some(Cnf::from_file(v)),
            None => None,
        }
    }
}

} // verus!
