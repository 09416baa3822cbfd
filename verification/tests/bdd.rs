use rsdd::builder::bdd_builder::BddManager;
use rsdd::repr::assignment_iter::AssignmentIter;
use rsdd::repr::bdd::{BddPtr, WmcParams};
use rsdd::repr::cnf::Cnf;
use rsdd::repr::model::PartialModel;
use rsdd::repr::var_label::{Literal, VarLabel};
use rsdd::repr::var_order::VarOrder;
use rsdd::util::finitefield::FiniteField;
use std::collections::HashMap;

/// A list of canonical forms in DIMACS form. The goal of these tests is to ensure that caching
/// and application are working as intended
static C1_A: &str = "
p cnf 5 3
1 2 0
-1 2 0
";

static C1_B: &str = "
p cnf 2 1
2 0
";

static C2_A: &str = "
p cnf 5 3
1 2 3 0
1 2 0
-1 2 0
";

static C2_B: &str = "
p cnf 2 1
2 0
";

static C3_A: &str = "
p cnf 5 3
1 2 3 4 5 0
1 2 0
-1 2 0
";

static C3_B: &str = "
p cnf 2 1
2 0
";

static C4_A: &str = "
p cnf 5 3
-1 2 0
1
";

static C4_B: &str = "
p cnf 2 1
1 0
2 0
";

static C5_A: &str = "
p cnf 5 3
-1 2 0
-2 3 0
-3 4 0
-4 5 0
-5 6 0
-6 7 0
-7 8 0
1
";

static C5_B: &str = "
p cnf 2 1
1 0
2 0
3 0
4 0
5 0
6 0
7 0
8 0
";

static C6_A: &str = "
p cnf 8 3
1 2 3 4 5 6 7 8 0
1 8 0
";

static C6_B: &str = "
p cnf 2 1
1 8 0
";

static C7_A: &str = "
p cnf 8 3
1 2 3 4 5 6 7 8 0
3 5 0
";

static C7_B: &str = "
p cnf 2 1
3 5 0
";

static C8_A: &str = "
p cnf 8 3
1 2 3 4 5 6 7 8 0
1 5 0
";

static C8_B: &str = "
p cnf 2 1
1 5 0
";

static C9_A: &str = "
p cnf 8 3
1 2 3 4 5 6 7 8 0
2 6 0
";

static C9_B: &str = "
p cnf 2 1
2 6 0
";

static C10_A: &str = "
p cnf 8 3
1 2 3 4 5 6 7 8 0
2 7 0
";

static C10_B: &str = "
p cnf 2 1
2 7 0
";

static C11_A: &str = "
p cnf 8 3
1 2 3 4 5 6 7 8 0
1 3 5 0
";

static C11_B: &str = "
p cnf 2 1
1 3 5 0
";

static C12_A: &str = "
p cnf 8 3
1 2 3 4 5 6 7 8 0
2 4 8 0
";

static C12_B: &str = "
p cnf 2 1
2 4 8 0
";

static C13_A: &str = "
p cnf 8 3
1 2 3 4 5 6 7 8 0
1 2 3 4 5 6 7 0
";

static C13_B: &str = "
p cnf 2 1
1 2 3 4 5 6 7 0
";

static C14_A: &str = "
p cnf 8 3
1 2 3 4 5 6 7 8 0
2 3 4 5 6 7 8 0
";

static C14_B: &str = "
p cnf 2 1
2 3 4 5 6 7 8 0
";

fn get_canonical_forms() -> Vec<(Cnf, Cnf)> {
    vec![
        (
            Cnf::from_file(String::from(C1_A)),
            Cnf::from_file(String::from(C1_B)),
        ),
        (
            Cnf::from_file(String::from(C2_A)),
            Cnf::from_file(String::from(C2_B)),
        ),
        (
            Cnf::from_file(String::from(C3_A)),
            Cnf::from_file(String::from(C3_B)),
        ),
        (
            Cnf::from_file(String::from(C4_A)),
            Cnf::from_file(String::from(C4_B)),
        ),
        (
            Cnf::from_file(String::from(C5_A)),
            Cnf::from_file(String::from(C5_B)),
        ),
        (
            Cnf::from_file(String::from(C6_A)),
            Cnf::from_file(String::from(C6_B)),
        ),
        (
            Cnf::from_file(String::from(C7_A)),
            Cnf::from_file(String::from(C7_B)),
        ),
        (
            Cnf::from_file(String::from(C8_A)),
            Cnf::from_file(String::from(C8_B)),
        ),
        (
            Cnf::from_file(String::from(C9_A)),
            Cnf::from_file(String::from(C9_B)),
        ),
        (
            Cnf::from_file(String::from(C10_A)),
            Cnf::from_file(String::from(C10_B)),
        ),
        (
            Cnf::from_file(String::from(C11_A)),
            Cnf::from_file(String::from(C11_B)),
        ),
        (
            Cnf::from_file(String::from(C12_A)),
            Cnf::from_file(String::from(C12_B)),
        ),
        (
            Cnf::from_file(String::from(C13_A)),
            Cnf::from_file(String::from(C13_B)),
        ),
        (
            Cnf::from_file(String::from(C14_A)),
            Cnf::from_file(String::from(C14_B)),
        ),
    ]
}

#[test]
fn test_bdd_canonicity() {
    for (cnf1, cnf2) in get_canonical_forms().into_iter() {
        let mut man = BddManager::new_default_order(cnf1.num_vars());
        let r1 = man.from_cnf(&cnf1);
        let r2 = man.from_cnf(&cnf2);
        assert!(
            man.eq_bdd(r1, r2),
            "Not eq\nCNF 1: {:?}\nCNF 2: {:?}\nBDD 1:{}\n BDD 2: {}",
            cnf1,
            cnf2,
            format!("{:?}", r1),
            format!("{:?}", r2)
        );
    }
}

fn l(v: u64, polarity: bool) -> Literal {
    Literal::new(VarLabel::new(v), polarity)
}

/// Formulas of several shapes over up to five variables.
fn sample_formulas() -> Vec<Cnf> {
    vec![
        Cnf::new(vec![vec![l(0, true), l(1, false)], vec![l(1, true), l(2, true)]]),
        Cnf::new(vec![vec![l(0, true)], vec![l(0, false), l(3, true)], vec![l(2, false), l(4, true)]]),
        Cnf::new(vec![vec![l(4, true), l(0, false), l(2, true)], vec![l(1, false), l(3, false)]]),
        Cnf::new(vec![vec![l(0, true)], vec![l(0, false)]]),
        Cnf::new(vec![
            vec![l(0, true), l(1, true), l(2, true)],
            vec![l(0, false), l(1, false)],
            vec![l(1, true), l(2, false), l(3, true)],
            vec![l(3, false), l(4, false), l(0, true)],
        ]),
        Cnf::new(vec![]),
        Cnf::new(vec![vec![l(2, true), l(2, false)]]),
    ]
}

fn all_assignments(n: usize) -> Vec<Vec<bool>> {
    let mut it = AssignmentIter::new(n);
    let mut r = Vec::new();
    while let Some(a) = it.next() {
        r.push(a);
    }
    r
}

#[test]
fn from_cnf_has_the_models_of_the_formula() {
    for cnf in sample_formulas() {
        let mut man = BddManager::new_default_order(5);
        let r = man.from_cnf(&cnf);
        for a in all_assignments(5) {
            assert_eq!(man.eval(r, &a), cnf.eval(&a));
        }
    }
}

#[test]
fn from_cnf_under_another_order_has_the_same_models() {
    let order = VarOrder::new(vec![3, 0, 4, 2, 1].into_iter().map(VarLabel::new).collect());
    for cnf in sample_formulas() {
        let mut man = BddManager::new(VarOrder::new(order.order.clone()));
        let r = man.from_cnf(&cnf);
        for a in all_assignments(5) {
            assert_eq!(man.eval(r, &a), cnf.eval(&a));
        }
        assert_eq!(man.place_of(VarLabel::new(3)), 0);
        assert_eq!(man.place_of(VarLabel::new(1)), 4);
        assert_eq!(man.get_order().var_at_pos(2), VarLabel::new(4));
    }
}

#[test]
fn equivalent_formulas_get_one_edge_and_others_two() {
    let forms = sample_formulas();
    for (i, c1) in forms.iter().enumerate() {
        for (j, c2) in forms.iter().enumerate() {
            let mut man = BddManager::new_default_order(5);
            let r1 = man.from_cnf(c1);
            let r2 = man.from_cnf(c2);
            let same = all_assignments(5).iter().all(|a| c1.eval(a) == c2.eval(a));
            assert_eq!(man.eq_bdd(r1, r2), same, "formulas {} and {}", i, j);
        }
    }
}

#[test]
fn test_ite_and() {
    // ite(f, g, false) is the conjunction
    let forms = sample_formulas();
    for c1 in forms.iter() {
        for c2 in forms.iter() {
            let mut man = BddManager::new_default_order(5);
            let f = man.from_cnf(c1);
            let g = man.from_cnf(c2);
            let itebdd = man.ite(f, g, BddPtr::PtrFalse);
            let andbdd = man.and(f, g);
            assert_eq!(itebdd, andbdd);
            for a in all_assignments(5) {
                assert_eq!(man.eval(andbdd, &a), c1.eval(&a) && c2.eval(&a));
            }
        }
    }
}

#[test]
fn bdd_ite_iff() {
    // iff(f, g) is (f & g) | (!f & !g)
    let forms = sample_formulas();
    for c1 in forms.iter() {
        for c2 in forms.iter() {
            let mut man = BddManager::new_default_order(5);
            let f = man.from_cnf(c1);
            let g = man.from_cnf(c2);
            let iff1 = man.iff(f, g);
            let both = man.and(f, g);
            let neither = man.and(f.neg(), g.neg());
            let iff2 = man.or(both, neither);
            assert_eq!(iff1, iff2);
            let iff3 = man.ite(f, g, g.neg());
            assert_eq!(iff1, iff3);
        }
    }
}

#[test]
fn test_cond_and() {
    // f is (x & f|x=1) | (!x & f|x=0), and exists is the disjunction of the cofactors
    for cnf in sample_formulas() {
        for v in 0..5u64 {
            let mut man = BddManager::new_default_order(5);
            let f = man.from_cnf(&cnf);
            let x = man.var(VarLabel::new(v), true);
            let hi = man.condition(f, VarLabel::new(v), true);
            let lo = man.condition(f, VarLabel::new(v), false);
            let t1 = man.and(x, hi);
            let t2 = man.and(x.neg(), lo);
            let r = man.or(t1, t2);
            assert_eq!(r, f);
            let e1 = man.exists_var(f, VarLabel::new(v));
            let e2 = man.or(hi, lo);
            assert_eq!(e1, e2);
            for a in all_assignments(5) {
                let mut a1 = a.clone();
                a1[v as usize] = true;
                let mut a0 = a.clone();
                a0[v as usize] = false;
                assert_eq!(man.eval(hi, &a), cnf.eval(&a1));
                assert_eq!(man.eval(lo, &a), cnf.eval(&a0));
                assert_eq!(man.eval(e1, &a), cnf.eval(&a1) || cnf.eval(&a0));
            }
        }
    }
}

#[test]
fn compile_with_assignments() {
    // conjoining the clauses that a model leaves open
    let cnf = Cnf::new(vec![
        vec![l(0, true), l(1, true)],
        vec![l(0, false), l(2, true)],
        vec![l(1, false), l(2, false), l(3, true)],
    ]);
    let mut man = BddManager::new_default_order(4);
    let model = PartialModel::from_vec(vec![Some(true), None, None, None]);
    let r = man.from_cnf_with_assignments(&cnf, &model);
    let rest = Cnf::new(vec![
        vec![l(0, false), l(2, true)],
        vec![l(1, false), l(2, false), l(3, true)],
    ]);
    let expected = man.from_cnf(&rest);
    assert_eq!(r, expected);
    let all = man.from_cnf(&cnf);
    let x0 = man.var(VarLabel::new(0), true);
    let with_x0 = man.and(r, x0);
    let all_with_x0 = man.and(all, x0);
    assert_eq!(with_x0, all_with_x0);
}

#[test]
fn mk_reduces_and_keeps_high_edges_plain() {
    let mut man = BddManager::new_default_order(3);
    let x2 = man.var(VarLabel::new(2), true);
    assert_eq!(x2, BddPtr::Reg(0));
    assert_eq!(man.var(VarLabel::new(2), false), BddPtr::Compl(0));
    // equal children
    assert_eq!(man.mk(VarLabel::new(1), x2, x2), x2);
    // a complemented high edge goes to the edge of the node
    let n1 = man.mk(VarLabel::new(1), x2, x2.neg());
    assert_eq!(n1, BddPtr::Compl(1));
    let n2 = man.mk(VarLabel::new(1), x2.neg(), x2);
    assert_eq!(n2, BddPtr::Reg(1));
    // false for the high child counts as complemented
    let n3 = man.mk(VarLabel::new(1), BddPtr::PtrTrue, BddPtr::PtrFalse);
    assert!(matches!(n3, BddPtr::Compl(_)));
    assert_eq!(man.num_nodes(), 3);
    assert_eq!(man.level(n3), 1);
    assert_eq!(man.level(BddPtr::PtrTrue), 3);
    assert_eq!(man.neg(n3), n3.neg());
}

#[test]
fn terminal_rules_of_ite() {
    let mut man = BddManager::new_default_order(3);
    let f = man.var(VarLabel::new(0), true);
    let g = man.var(VarLabel::new(1), true);
    let h = man.var(VarLabel::new(2), false);
    assert_eq!(man.ite(BddPtr::PtrTrue, g, h), g);
    assert_eq!(man.ite(BddPtr::PtrFalse, g, h), h);
    assert_eq!(man.ite(f, g, g), g);
    assert_eq!(man.ite(f, BddPtr::PtrTrue, BddPtr::PtrFalse), f);
    assert_eq!(man.ite(f, BddPtr::PtrFalse, BddPtr::PtrTrue), f.neg());
    let nodes = man.num_nodes();
    let r1 = man.ite(f, g, h);
    let r2 = man.ite(f.neg(), h, g);
    assert_eq!(r1, r2);
    let r3 = man.ite(f, g.neg(), h.neg());
    assert_eq!(r3, r1.neg());
    assert!(man.num_nodes() > nodes);
}

/// a prime large enough to ensure no collisions for semantic hashing
const BIG_PRIME: u128 = 100000049;

fn params(weights: &[(u128, u128)]) -> WmcParams<FiniteField<BIG_PRIME>> {
    WmcParams {
        zero: FiniteField::zero(),
        one: FiniteField::one(),
        var_to_val: weights
            .iter()
            .map(|&(lo, hi)| (FiniteField::new(lo), FiniteField::new(hi)))
            .collect(),
    }
}

#[test]
fn wmc_of_a_clause_with_uniform_weights() {
    // x1 | !x2 has three models
    let cnf = Cnf::new(vec![vec![l(0, true), l(1, false)]]);
    let mut man = BddManager::new_default_order(2);
    let r = man.from_cnf(&cnf);
    assert_eq!(man.wmc(r, &params(&[(1, 1), (1, 1)])).value(), 3);
    assert_eq!(man.wmc(BddPtr::PtrTrue, &params(&[(1, 1), (1, 1)])).value(), 4);
    assert_eq!(man.wmc(BddPtr::PtrFalse, &params(&[(1, 1), (1, 1)])).value(), 0);
    assert_eq!(man.wmc(r.neg(), &params(&[(1, 1), (1, 1)])).value(), 1);
}

#[test]
fn wmc_eq() {
    // the count of the diagram is the count of the formula
    let weights: Vec<(u128, u128)> = vec![(2, 3), (5, 7), (1, 1), (0, 4), (11, 13)];
    let mut by_number: HashMap<u64, (usize, usize)> = HashMap::new();
    for (v, &(lo, hi)) in weights.iter().enumerate() {
        by_number.insert(v as u64, (lo as usize, hi as usize));
    }
    let orders: Vec<Vec<u64>> = vec![vec![0, 1, 2, 3, 4], vec![3, 0, 4, 2, 1], vec![4, 3, 2, 1, 0]];
    for cnf in sample_formulas() {
        // the formulas are over up to five variables; count over their own
        let n = cnf.num_vars();
        let expected = cnf.wmc(&by_number) as u128 % BIG_PRIME;
        for order in orders.iter() {
            let vars: Vec<VarLabel> = order
                .iter()
                .filter(|&&v| (v as usize) < n)
                .map(|&v| VarLabel::new(v))
                .collect();
            let mut man = BddManager::new(VarOrder::new(vars));
            let r = man.from_cnf(&cnf);
            let got = man.wmc(r, &params(&weights[..n]));
            assert_eq!(got.value(), expected);
        }
    }
}

#[test]
fn top_down_and_bottom_up_give_one_edge() {
    for cnf in sample_formulas() {
        let mut man = BddManager::new_default_order(5);
        let r1 = man.from_cnf(&cnf);
        let r2 = man.from_cnf_topdown(&cnf);
        assert_eq!(r1, r2);
        for a in all_assignments(5) {
            assert_eq!(man.eval(r2, &a), cnf.eval(&a));
        }
    }
    for (cnf1, cnf2) in get_canonical_forms().into_iter() {
        let mut man = BddManager::new_default_order(cnf1.num_vars());
        let r1 = man.from_cnf_topdown(&cnf1);
        let r2 = man.from_cnf_topdown(&cnf2);
        let r3 = man.from_cnf(&cnf1);
        assert_eq!(r1, r2);
        assert_eq!(r1, r3);
    }
}

#[test]
fn top_down_under_another_order() {
    let order = vec![2u64, 4, 0, 3, 1];
    for cnf in sample_formulas() {
        let mut man = BddManager::new(VarOrder::new(order.iter().map(|&v| VarLabel::new(v)).collect()));
        let r = man.from_cnf_topdown(&cnf);
        for a in all_assignments(5) {
            assert_eq!(man.eval(r, &a), cnf.eval(&a));
        }
        assert_eq!(r, man.from_cnf(&cnf));
    }
}

#[test]
fn top_down_of_a_contradiction_is_false() {
    let cnf = Cnf::new(vec![vec![l(0, true)], vec![l(0, false), l(1, true)], vec![l(1, false)]]);
    let mut man = BddManager::new_default_order(2);
    assert_eq!(man.from_cnf_topdown(&cnf), BddPtr::PtrFalse);
    assert_eq!(man.from_cnf(&cnf), BddPtr::PtrFalse);
    let taut = Cnf::new(vec![vec![l(0, true), l(0, false)]]);
    assert_eq!(man.from_cnf_topdown(&taut), BddPtr::PtrTrue);
}

#[test]
fn a_formula_with_an_empty_clause_compiles_to_false() {
    let cnf = Cnf::new(vec![vec![l(0, true), l(1, true)], vec![], vec![l(1, false)]]);
    let mut man = BddManager::new_default_order(cnf.num_vars());
    assert_eq!(man.from_cnf(&cnf), BddPtr::PtrFalse);
    assert_eq!(man.from_cnf_topdown(&cnf), BddPtr::PtrFalse);
    let mut weights = HashMap::new();
    weights.insert(0u64, (1usize, 1usize));
    weights.insert(1u64, (1usize, 1usize));
    assert_eq!(cnf.wmc(&weights), 0);
}
