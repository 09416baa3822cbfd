use rsdd::repr::assignment_iter::AssignmentIter;
use rsdd::repr::cnf::Cnf;
use rsdd::repr::var_label::{Literal, VarLabel};
use std::collections::HashMap;

fn l(v: u64, polarity: bool) -> Literal {
    Literal::new(VarLabel::new(v), polarity)
}

#[test]
fn test_cnf_wmc() {
    let v = vec![vec![
        Literal::new(VarLabel::new(0), true),
        Literal::new(VarLabel::new(1), false),
    ]];
    let cnf = Cnf::new(v);
    let mut weights = HashMap::new();
    weights.insert(VarLabel::new(0).value(), (1, 1));
    weights.insert(VarLabel::new(1).value(), (1, 1));
    assert_eq!(cnf.wmc(&weights), 3);
}

#[test]
fn wmc_multiplies_the_weights_of_each_model() {
    // x0 | x1 with weights (2, 3) and (5, 7): models 10, 01, 11
    let cnf = Cnf::new(vec![vec![l(0, true), l(1, true)]]);
    let mut weights = HashMap::new();
    weights.insert(0u64, (2usize, 3usize));
    weights.insert(1u64, (5usize, 7usize));
    assert_eq!(cnf.wmc(&weights), 3 * 5 + 2 * 7 + 3 * 7);
}

#[test]
fn wmc_of_the_formula_without_variables_is_one() {
    let cnf = Cnf::new(vec![]);
    let weights: HashMap<u64, (usize, usize)> = HashMap::new();
    assert_eq!(cnf.num_vars(), 0);
    assert_eq!(cnf.wmc(&weights), 1);
}

#[test]
fn wmc_of_a_contradiction_is_zero() {
    let cnf = Cnf::new(vec![vec![l(0, true)], vec![l(0, false)]]);
    let mut weights = HashMap::new();
    weights.insert(0u64, (4usize, 9usize));
    assert_eq!(cnf.wmc(&weights), 0);
}

#[test]
fn new_keeps_an_empty_clause_and_normalizes_the_others() {
    let cnf = Cnf::new(vec![
        vec![],
        vec![l(2, true), l(0, false), l(2, true), l(1, true), l(0, false)],
        vec![l(5, false)],
    ]);
    assert_eq!(cnf.num_vars(), 6);
    assert!(cnf.has_empty_clause());
    let clauses = cnf.clauses();
    assert_eq!(clauses.len(), 3);
    assert!(clauses[0].is_empty());
    assert_eq!(
        clauses[1],
        vec![l(0, false), l(1, true), l(2, true)]
    );
    assert_eq!(clauses[2], vec![l(5, false)]);
}

#[test]
fn a_formula_with_an_empty_clause_has_no_model() {
    let only = Cnf::new(vec![vec![]]);
    assert_eq!(only.num_vars(), 0);
    assert!(only.has_empty_clause());
    assert!(!only.eval(&vec![]));
    assert!(!only.eval(&vec![true, false]));
    assert!(rsdd::repr::unit_prop::UnitPropagate::new(&only).is_none());
    let more = Cnf::new(vec![vec![l(0, true)], vec![], vec![l(1, false)]]);
    let mut it = AssignmentIter::new(2);
    while let Some(a) = it.next() {
        assert!(!more.eval(&a));
    }
    assert!(rsdd::repr::unit_prop::UnitPropagate::new(&more).is_none());
    let none = Cnf::new(vec![]);
    assert!(!none.has_empty_clause());
    assert!(none.eval(&vec![]));
}

#[test]
fn the_cofactor_of_a_unit_clause_on_its_negation_has_no_model() {
    // x0 under x0 = false: the clause is emptied
    let mut cnf = Cnf::new(vec![vec![l(0, true)]]);
    let hi = cnf.condition(l(0, true));
    let lo = cnf.condition(l(0, false));
    assert!(lo.has_empty_clause());
    assert!(!hi.has_empty_clause());
    for a in [vec![false], vec![true]] {
        let expected = if a[0] { hi.eval(&a) } else { lo.eval(&a) };
        assert_eq!(cnf.eval(&a), expected);
    }
    assert!(!lo.eval(&vec![false]));
}

#[test]
fn the_cofactors_of_a_contradiction_have_no_model() {
    // x0 and not x0: neither cofactor holds, as the formula holds for no value of x0
    let mut cnf = Cnf::new(vec![vec![l(0, true)], vec![l(0, false)]]);
    let hi = cnf.condition(l(0, true));
    let lo = cnf.condition(l(0, false));
    for a in [vec![false], vec![true]] {
        assert!(!hi.eval(&a));
        assert!(!lo.eval(&a));
        assert!(!cnf.eval(&a));
    }
}

#[test]
fn quantifying_a_variable_away_is_the_disjunction_of_the_cofactors() {
    let mut cnf = Cnf::new(vec![
        vec![l(0, true), l(1, true)],
        vec![l(0, false), l(2, true)],
        vec![l(1, false)],
    ]);
    let hi = cnf.condition(l(1, true));
    let lo = cnf.condition(l(1, false));
    let mut it = AssignmentIter::new(3);
    while let Some(a) = it.next() {
        let mut with_true = a.clone();
        with_true[1] = true;
        let mut with_false = a.clone();
        with_false[1] = false;
        assert_eq!(
            hi.eval(&a) || lo.eval(&a),
            cnf.eval(&with_true) || cnf.eval(&with_false)
        );
    }
}

#[test]
fn the_clauses_of_two_formulas_together_are_their_conjunction() {
    let c1 = vec![vec![l(0, true), l(1, false)], vec![l(2, true)]];
    let c2 = vec![vec![l(1, true), l(2, false)], vec![l(0, false), l(2, true)]];
    let f = Cnf::new(c1.clone());
    let g = Cnf::new(c2.clone());
    let mut both = c1;
    both.extend(c2);
    let fg = Cnf::new(both);
    let mut it = AssignmentIter::new(3);
    while let Some(a) = it.next() {
        let expected = if f.eval(&a) { g.eval(&a) } else { false };
        assert_eq!(fg.eval(&a), expected);
    }
}

#[test]
fn new_keeps_the_order_among_literals_of_one_variable() {
    let cnf = Cnf::new(vec![vec![l(1, true), l(0, true), l(1, false), l(1, true)]]);
    assert_eq!(
        cnf.clauses()[0],
        vec![l(0, true), l(1, true), l(1, false), l(1, true)]
    );
}

#[test]
fn num_vars_of_the_empty_formula_is_zero() {
    let cnf = Cnf::new(vec![]);
    assert_eq!(cnf.num_vars(), 0);
    assert_eq!(cnf.clauses().len(), 0);
    // empty clauses hold no variable, and stay
    let cnf = Cnf::new(vec![vec![], vec![]]);
    assert_eq!(cnf.num_vars(), 0);
    assert_eq!(cnf.clauses().len(), 2);
}

#[test]
fn eval_checks_every_clause() {
    let cnf = Cnf::new(vec![vec![l(0, true), l(1, false)], vec![l(1, true), l(2, true)]]);
    assert!(cnf.eval(&vec![true, true, false]));
    assert!(cnf.eval(&vec![false, false, true]));
    assert!(!cnf.eval(&vec![false, true, true]));
    assert!(!cnf.eval(&vec![true, false, false]));
    // a longer assignment is accepted
    assert!(cnf.eval(&vec![true, true, false, false]));
}

#[test]
fn condition_removes_satisfied_clauses_and_false_literals() {
    let mut cnf = Cnf::new(vec![
        vec![l(0, true), l(1, true)],
        vec![l(0, false), l(2, true)],
        vec![l(1, false), l(2, false)],
    ]);
    let given = cnf.clone();
    let c = cnf.condition(l(0, true));
    assert_eq!(cnf, given);
    assert_eq!(
        c,
        Cnf::new(vec![vec![l(2, true)], vec![l(1, false), l(2, false)]])
    );
    assert_eq!(c.num_vars(), 3);
    let d = cnf.condition(l(0, false));
    assert_eq!(
        d,
        Cnf::new(vec![vec![l(1, true)], vec![l(1, false), l(2, false)]])
    );
}

#[test]
fn condition_leaves_a_clause_that_loses_its_last_literal_empty() {
    let mut cnf = Cnf::new(vec![vec![l(0, false)], vec![l(1, true)]]);
    let c = cnf.condition(l(0, true));
    assert_eq!(c, Cnf::new(vec![vec![], vec![l(1, true)]]));
    assert!(c.has_empty_clause());
    assert!(!c.eval(&vec![true, true]));
}

#[test]
fn cofactors_agree_with_the_formula() {
    // f = (x & f|x=1) | (!x & f|x=0), on every assignment
    let mut cnf = Cnf::new(vec![
        vec![l(0, true), l(1, true)],
        vec![l(0, false), l(2, true)],
        vec![l(1, false), l(2, false)],
    ]);
    let hi = cnf.condition(l(0, true));
    let lo = cnf.condition(l(0, false));
    let mut it = AssignmentIter::new(3);
    let mut seen = 0;
    while let Some(a) = it.next() {
        let expected = if a[0] { hi.eval(&a) } else { lo.eval(&a) };
        assert_eq!(cnf.eval(&a), expected);
        seen += 1;
    }
    assert_eq!(seen, 8);
}

#[test]
fn linear_order_lists_the_variables_by_number() {
    let cnf = Cnf::new(vec![vec![l(2, true), l(0, false)]]);
    let order = cnf.linear_order();
    assert_eq!(order.num_vars(), 3);
    assert_eq!(order.var_at_pos(0), VarLabel::new(0));
    assert_eq!(order.var_at_pos(1), VarLabel::new(1));
    assert_eq!(order.var_at_pos(2), VarLabel::new(2));
}

#[test]
fn assignment_iter_counts_in_binary() {
    let mut it = AssignmentIter::new(2);
    assert_eq!(it.next(), Some(vec![false, false]));
    assert_eq!(it.next(), Some(vec![true, false]));
    assert_eq!(it.next(), Some(vec![false, true]));
    assert_eq!(it.next(), Some(vec![true, true]));
    assert_eq!(it.next(), None);
}

#[test]
fn assignment_iter_over_no_variables_yields_the_empty_assignment() {
    let mut it = AssignmentIter::new(0);
    assert_eq!(it.next(), Some(vec![]));
    assert_eq!(it.next(), None);
}

#[test]
fn try_wmc_gives_nothing_where_the_count_does_not_fit() {
    let cnf = Cnf::new(vec![vec![l(0, true), l(1, true)]]);
    let mut weights = std::collections::HashMap::new();
    weights.insert(0u64, (2usize, 3usize));
    weights.insert(1u64, (5usize, 7usize));
    // the models: 3 * 5, 2 * 7, 3 * 7
    assert_eq!(cnf.try_wmc(&weights), Some(15 + 14 + 21));
    assert_eq!(cnf.wmc(&weights), 50);
    weights.insert(1u64, (5usize, usize::MAX));
    assert_eq!(cnf.try_wmc(&weights), None);
    // the product of a model fits, the sum does not
    weights.insert(0u64, (1usize, 1usize));
    weights.insert(1u64, (1usize, usize::MAX));
    assert_eq!(cnf.try_wmc(&weights), None);
    // an assignment that is no model may weigh what it will
    let single = Cnf::new(vec![vec![l(0, false)]]);
    let mut heavy = std::collections::HashMap::new();
    heavy.insert(0u64, (4usize, usize::MAX));
    assert_eq!(single.try_wmc(&heavy), Some(4));
}

#[test]
fn the_iterator_hands_back_each_assignment_once_by_its_code() {
    let n = 4;
    let mut it = AssignmentIter::new(n);
    let mut k = 0usize;
    while let Some(a) = it.next() {
        assert_eq!(a.len(), n);
        for i in 0..n {
            assert_eq!(a[i], (k >> i) & 1 == 1);
        }
        k += 1;
    }
    assert_eq!(k, 16);
}
