use rsdd::repr::cnf::Cnf;
use rsdd::repr::dimacs::check_parser_limits;
use rsdd::repr::var_label::{Literal, VarLabel};

fn l(v: u64, polarity: bool) -> Literal {
    Literal::new(VarLabel::new(v), polarity)
}

static C1_A: &str = "
p cnf 5 3
1 2 0
-1 2 0
";

static C4_A: &str = "
p cnf 5 3
-1 2 0
1
";

#[test]
fn from_file_reads_the_clauses() {
    let cnf = Cnf::from_file(String::from(C1_A));
    assert_eq!(cnf.num_vars(), 2);
    assert_eq!(
        cnf.clauses().to_vec(),
        vec![vec![l(0, true), l(1, true)], vec![l(0, false), l(1, true)]]
    );
}

#[test]
fn from_file_takes_a_last_clause_without_its_zero() {
    let cnf = Cnf::from_file(String::from(C4_A));
    assert_eq!(
        cnf.clauses().to_vec(),
        vec![vec![l(0, false), l(1, true)], vec![l(0, true)]]
    );
}

#[test]
fn from_file_skips_comments_and_normalizes() {
    let text = "c a comment (with brackets) and 123456789012 digits\np cnf 3 2\n3 -1 3 0\n0\n2 0\n";
    // the comment holds a number of more than 8 digits
    assert!(!check_parser_limits(text));
    assert!(Cnf::try_from_file(String::from(text)).is_none());
    let text = "c a comment (with brackets)\np cnf 3 2\n3 -1 3 0\n0\n2 0\n";
    assert!(check_parser_limits(text));
    let cnf = Cnf::try_from_file(String::from(text)).unwrap();
    // the line that holds only the 0 is an empty clause
    assert_eq!(
        cnf.clauses().to_vec(),
        vec![vec![l(0, false), l(2, true)], vec![], vec![l(1, true)]]
    );
    assert_eq!(cnf.num_vars(), 3);
    assert!(cnf.has_empty_clause());
    assert!(!cnf.eval(&vec![false, true, true]));
}

#[test]
fn try_from_file_refuses_what_does_not_parse() {
    assert!(Cnf::try_from_file(String::from("p cnf 2 1\n1 x 0\n")).is_none());
    assert!(Cnf::try_from_file(String::from("")).is_none());
    assert!(Cnf::try_from_file(String::from("1 2 0\n")).is_none());
}

#[test]
fn try_from_file_refuses_a_sat_instance() {
    assert!(Cnf::try_from_file(String::from("p sat 3\n(*(+(1 3 -2) +(2)))\n")).is_none());
}

#[test]
fn try_from_file_agrees_with_from_file() {
    let a = Cnf::try_from_file(String::from(C1_A)).unwrap();
    let b = Cnf::from_file(String::from(C1_A));
    assert_eq!(a, b);
}

#[test]
fn parser_limits_count_digits_and_brackets() {
    assert!(check_parser_limits("12345678 12345678"));
    assert!(!check_parser_limits("123456789"));
    assert!(!check_parser_limits("x 000000000"));
    assert!(check_parser_limits(&"(".repeat(256)));
    assert!(!check_parser_limits(&"(".repeat(257)));
    assert!(check_parser_limits(""));
    // a letter c counts where no letter or digit follows it
    assert!(check_parser_limits(&"cnf ".repeat(300)));
    assert!(check_parser_limits(&"c ".repeat(256)));
    assert!(!check_parser_limits(&"c ".repeat(257)));
    assert!(!check_parser_limits(&format!("{}c", "c\n".repeat(256))));
}

#[test]
fn from_dimacs_clauses_counts_variables_from_one() {
    let parsed = vec![vec![(1u64, true), (3u64, false)], vec![(2u64, true)]];
    let cnf = Cnf::from_dimacs_clauses(&parsed).unwrap();
    assert_eq!(
        cnf.clauses().to_vec(),
        vec![vec![l(0, true), l(2, false)], vec![l(1, true)]]
    );
}

#[test]
fn from_dimacs_clauses_refuses_the_variable_zero() {
    let parsed = vec![vec![(1u64, true), (0u64, false)]];
    assert!(Cnf::from_dimacs_clauses(&parsed).is_none());
}

#[test]
fn many_comments_are_beyond_the_parsers_limits() {
    let mut text = String::new();
    for _ in 0..300 {
        text.push_str("c\n");
    }
    text.push_str("p cnf 1 1\n1 0\n");
    assert!(!check_parser_limits(&text));
    assert!(Cnf::try_from_file(text).is_none());
    let mut text = String::new();
    for _ in 0..200 {
        text.push_str("c a line of comment, once counted\n");
    }
    text.push_str("p cnf 1 1\n-1 0\n");
    assert!(check_parser_limits(&text));
    let cnf = Cnf::try_from_file(text).unwrap();
    assert_eq!(cnf.clauses().to_vec(), vec![vec![l(0, false)]]);
}

#[test]
fn a_clause_line_of_the_closing_zero_alone_makes_the_formula_false() {
    let cnf = Cnf::try_from_file(String::from("p cnf 1 2\n1 0\n0\n")).unwrap();
    assert!(cnf.has_empty_clause());
    assert!(!cnf.eval(&vec![true]));
    assert!(!cnf.eval(&vec![false]));
    assert!(rsdd::repr::unit_prop::UnitPropagate::new(&cnf).is_none());
}
