use rsdd::repr::cnf::Cnf;
use rsdd::repr::cnf_text::{clause_string, decimal_string, literal_string};
use rsdd::repr::force::positions_of_ranking;
use rsdd::repr::var_label::{Literal, VarLabel};

fn l(v: u64, polarity: bool) -> Literal {
    Literal::new(VarLabel::new(v), polarity)
}

#[test]
fn to_string_of_one_clause() {
    let cnf = Cnf::new(vec![vec![l(0, true), l(1, false)]]);
    assert_eq!(cnf.to_string(), "(0 || !1)");
}

#[test]
fn to_string_puts_a_blank_in_front_for_each_further_clause() {
    let cnf = Cnf::new(vec![
        vec![l(0, true), l(1, false)],
        vec![l(2, true)],
        vec![l(10, false), l(12, true), l(345, false)],
    ]);
    assert_eq!(cnf.to_string(), "  (0 || !1) && (2) && (!10 || 12 || !345)");
}

#[test]
fn to_string_of_the_empty_formula_is_empty() {
    assert_eq!(Cnf::new(vec![]).to_string(), "");
}

#[test]
fn decimal_string_writes_numbers() {
    assert_eq!(decimal_string(0), "0");
    assert_eq!(decimal_string(7), "7");
    assert_eq!(decimal_string(10), "10");
    assert_eq!(decimal_string(9081726354), "9081726354");
    assert_eq!(decimal_string(u64::MAX), "18446744073709551615");
    assert_eq!(literal_string(l(42, false)), "!42");
    assert_eq!(clause_string(&vec![]), "");
}

#[test]
fn rand_cnf_has_the_clauses_asked_for() {
    let mut rng = rand::thread_rng();
    for _ in 0..20 {
        let cnf = Cnf::rand_cnf(&mut rng, 6, 9);
        assert_eq!(cnf.clauses().len(), 9);
        assert!(cnf.num_vars() <= 6);
        let mut polarity: Vec<Option<bool>> = vec![None; 6];
        for clause in cnf.clauses() {
            assert!(1 <= clause.len() && clause.len() <= 3);
            for lit in clause {
                let v = lit.get_label().value() as usize;
                assert!(1 <= v && v < 6);
                match polarity[v] {
                    None => polarity[v] = Some(lit.get_polarity()),
                    Some(p) => assert_eq!(p, lit.get_polarity()),
                }
            }
        }
    }
}

#[test]
fn from_picks_makes_a_clause_of_each_three_picks() {
    let polarities = vec![true, false, true];
    let picks = vec![2, 0, 1, 1, 1, 1, 0, 2];
    let cnf = Cnf::from_picks(&polarities, &picks);
    assert_eq!(
        cnf.clauses().to_vec(),
        vec![vec![l(1, true), l(2, false), l(3, true)], vec![l(2, false)]]
    );
    assert_eq!(cnf.num_vars(), 4);
}

#[test]
fn arbitrary_formulas_are_small() {
    let mut g = quickcheck::Gen::new(10);
    for _ in 0..50 {
        let cnf = Cnf::arbitrary(&mut g);
        assert!(cnf.num_vars() <= 8);
        assert!(1 <= cnf.clauses().len() && cnf.clauses().len() <= 16);
        for clause in cnf.clauses() {
            assert!(1 <= clause.len() && clause.len() <= 3);
        }
    }
}

#[test]
fn from_draws_takes_the_numbers_modulo_the_variables() {
    let cnf = Cnf::from_draws(3, &vec![vec![(7, true), (3, false)], vec![(u64::MAX, true)]]);
    assert_eq!(
        cnf.clauses().to_vec(),
        vec![vec![l(0, false), l(1, true)], vec![l(0, true)]]
    );
}

#[test]
fn span_sum_adds_the_spans_of_the_clauses() {
    let cnf = Cnf::new(vec![
        vec![l(0, true), l(3, true)],
        vec![l(1, true)],
        vec![l(1, false), l(2, true), l(3, false)],
    ]);
    // positions 2, 0, 3, 1: spans 2 - 1, 0 - 0, 3 - 0
    assert_eq!(cnf.span_sum(&[2, 0, 3, 1]), 1 + 0 + 3);
    assert_eq!(cnf.span_sum(&[0, 1, 2, 3]), 3 + 0 + 2);
}

#[test]
fn position_sum_adds_the_positions() {
    let cnf = Cnf::new(vec![vec![l(0, true), l(3, true)]]);
    assert_eq!(cnf.position_sum(&[l(0, true), l(3, false), l(3, true)], &[5, 0, 0, 7]), 19);
    assert_eq!(cnf.position_sum(&[], &[5, 0, 0, 7]), 0);
}

#[test]
fn positions_of_ranking_inverts_the_ranking() {
    assert_eq!(positions_of_ranking(&vec![2, 0, 3, 1]), vec![1, 3, 0, 2]);
    assert_eq!(positions_of_ranking(&vec![]), Vec::<usize>::new());
}

#[test]
fn to_string_of_an_empty_clause() {
    let cnf = Cnf::new(vec![vec![], vec![Literal::new(VarLabel::new(0), false)]]);
    assert_eq!(cnf.to_string(), " () && (!0)");
    assert_eq!(Cnf::new(vec![vec![]]).to_string(), "()");
}
