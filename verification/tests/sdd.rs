use rsdd::builder::sdd_builder::SddManager;
use rsdd::repr::cnf::Cnf;
use rsdd::repr::sdd::{SddAnd, SddPtr};
use rsdd::repr::var_label::{Literal, VarLabel};
use rsdd::repr::vtree::{VTree, VTreeManager};

/// A list of canonical forms in DIMACS form. The goal of these tests is to ensure that caching
/// and application are working as intended
static C1_A: &str = "
p cnf 5 3
1 2 0
-1 2 0
";

static C1_B: &str = "
p cnf 2 1
2 0
";

static C2_A: &str = "
p cnf 5 3
1 2 3 0
1 2 0
-1 2 0
";

static C2_B: &str = "
p cnf 2 1
2 0
";

static C3_A: &str = "
p cnf 5 3
1 2 3 4 5 0
1 2 0
-1 2 0
";

static C3_B: &str = "
p cnf 2 1
2 0
";

static C4_A: &str = "
p cnf 5 3
-1 2 0
1
";

static C4_B: &str = "
p cnf 2 1
1 0
2 0
";

static C5_A: &str = "
p cnf 5 3
-1 2 0
-2 3 0
-3 4 0
-4 5 0
-5 6 0
-6 7 0
-7 8 0
1
";

static C5_B: &str = "
p cnf 2 1
1 0
2 0
3 0
4 0
5 0
6 0
7 0
8 0
";

static C6_A: &str = "
p cnf 8 3
1 2 3 4 5 6 7 8 0
1 8 0
";

static C6_B: &str = "
p cnf 2 1
1 8 0
";

static C7_A: &str = "
p cnf 8 3
1 2 3 4 5 6 7 8 0
3 5 0
";

static C7_B: &str = "
p cnf 2 1
3 5 0
";

static C8_A: &str = "
p cnf 8 3
1 2 3 4 5 6 7 8 0
1 5 0
";

static C8_B: &str = "
p cnf 2 1
1 5 0
";

static C9_A: &str = "
p cnf 8 3
1 2 3 4 5 6 7 8 0
2 6 0
";

static C9_B: &str = "
p cnf 2 1
2 6 0
";

static C10_A: &str = "
p cnf 8 3
1 2 3 4 5 6 7 8 0
2 7 0
";

static C10_B: &str = "
p cnf 2 1
2 7 0
";

static C11_A: &str = "
p cnf 8 3
1 2 3 4 5 6 7 8 0
1 3 5 0
";

static C11_B: &str = "
p cnf 2 1
1 3 5 0
";

static C12_A: &str = "
p cnf 8 3
1 2 3 4 5 6 7 8 0
2 4 8 0
";

static C12_B: &str = "
p cnf 2 1
2 4 8 0
";

static C13_A: &str = "
p cnf 8 3
1 2 3 4 5 6 7 8 0
1 2 3 4 5 6 7 0
";

static C13_B: &str = "
p cnf 2 1
1 2 3 4 5 6 7 0
";

static C14_A: &str = "
p cnf 8 3
1 2 3 4 5 6 7 8 0
2 3 4 5 6 7 8 0
";

static C14_B: &str = "
p cnf 2 1
2 3 4 5 6 7 8 0
";

fn get_canonical_forms() -> Vec<(Cnf, Cnf)> {
    vec![
        (
            Cnf::from_file(String::from(C1_A)),
            Cnf::from_file(String::from(C1_B)),
        ),
        (
            Cnf::from_file(String::from(C2_A)),
            Cnf::from_file(String::from(C2_B)),
        ),
        (
            Cnf::from_file(String::from(C3_A)),
            Cnf::from_file(String::from(C3_B)),
        ),
        (
            Cnf::from_file(String::from(C4_A)),
            Cnf::from_file(String::from(C4_B)),
        ),
        (
            Cnf::from_file(String::from(C5_A)),
            Cnf::from_file(String::from(C5_B)),
        ),
        (
            Cnf::from_file(String::from(C6_A)),
            Cnf::from_file(String::from(C6_B)),
        ),
        (
            Cnf::from_file(String::from(C7_A)),
            Cnf::from_file(String::from(C7_B)),
        ),
        (
            Cnf::from_file(String::from(C8_A)),
            Cnf::from_file(String::from(C8_B)),
        ),
        (
            Cnf::from_file(String::from(C9_A)),
            Cnf::from_file(String::from(C9_B)),
        ),
        (
            Cnf::from_file(String::from(C10_A)),
            Cnf::from_file(String::from(C10_B)),
        ),
        (
            Cnf::from_file(String::from(C11_A)),
            Cnf::from_file(String::from(C11_B)),
        ),
        (
            Cnf::from_file(String::from(C12_A)),
            Cnf::from_file(String::from(C12_B)),
        ),
        (
            Cnf::from_file(String::from(C13_A)),
            Cnf::from_file(String::from(C13_B)),
        ),
        (
            Cnf::from_file(String::from(C14_A)),
            Cnf::from_file(String::from(C14_B)),
        ),
    ]
}

fn variables(n: usize) -> Vec<VarLabel> {
    (0..n).map(|x| VarLabel::new(x as u64)).collect()
}

#[test]
fn test_sdd_canonicity() {
    for (cnf1, cnf2) in get_canonical_forms().into_iter() {
        let v = variables(cnf1.num_vars());
        let vtree = VTree::even_split(&v, 1);
        let mut man = SddManager::new(vtree).unwrap();
        let r1 = man.from_cnf(&cnf1);
        let r2 = man.from_cnf(&cnf2);
        assert!(
            man.sdd_eq(r1, r2),
            "Not eq\nCNF 1: {:?}\nCNF 2: {:?}\nSDD 1:{}\n SDD 2: {}",
            cnf1,
            cnf2,
            format!("{:?}", r1),
            format!("{:?}", r2)
        );
    }
}

#[test]
fn test_sdd_is_canonical() {
    for (cnf1, cnf2) in get_canonical_forms().into_iter() {
        let v = variables(cnf1.num_vars());
        let vtree = VTree::even_split(&v, 1);
        let mut man = SddManager::new(vtree).unwrap();
        let r1 = man.from_cnf(&cnf1);
        let r2 = man.from_cnf(&cnf2);
        assert!(
            man.is_canonical(r1),
            "Not canonical\nCNF 1: {:?}\nSDD 1:{}",
            cnf1,
            format!("{:?}", r1),
        );
        assert!(
            man.is_canonical(r2),
            "Not canonical\nCNF 2: {:?}\nSDD 2:{}",
            cnf2,
            format!("{:?}", r2),
        );
    }
}

fn l(v: u64, polarity: bool) -> Literal {
    Literal::new(VarLabel::new(v), polarity)
}

fn all_assignments(n: usize) -> Vec<Vec<bool>> {
    (0..(1usize << n))
        .map(|code| (0..n).map(|i| (code >> i) & 1 == 1).collect())
        .collect()
}

fn trees(n: usize) -> Vec<VTree> {
    let v = variables(n);
    let mut back = variables(n);
    back.reverse();
    vec![
        VTree::right_linear(&v),
        VTree::left_linear(&v),
        VTree::even_split(&v, 1),
        VTree::even_split(&v, 3),
        VTree::even_split(&back, 2),
    ]
}

fn sample_formulas() -> Vec<Cnf> {
    vec![
        Cnf::new(vec![vec![l(0, true), l(1, false)]]),
        Cnf::new(vec![vec![l(0, true), l(1, true)], vec![l(0, false), l(1, true)]]),
        Cnf::new(vec![vec![l(0, false), l(1, true)], vec![l(0, true)]]),
        Cnf::new(vec![
            vec![l(0, true), l(1, true), l(2, false)],
            vec![l(1, false), l(3, true)],
            vec![l(2, true), l(3, false), l(4, true)],
            vec![l(0, false), l(4, false)],
        ]),
        Cnf::new(vec![vec![l(0, true)], vec![l(0, false)]]),
        Cnf::new(vec![
            vec![l(0, true), l(3, true)],
            vec![l(1, true), l(4, true)],
            vec![l(2, true), l(5, true)],
            vec![l(0, false), l(1, false), l(2, false)],
        ]),
    ]
}

#[test]
fn sdd_from_cnf_has_the_models_of_the_formula() {
    for cnf in sample_formulas() {
        let n = cnf.num_vars().max(1);
        for tree in trees(n) {
            let mut man = SddManager::new(tree).unwrap();
            let r = man.from_cnf(&cnf);
            for a in all_assignments(n) {
                assert_eq!(man.eval(r, &a), cnf.eval(&a), "{:?} under {:?}", cnf, a);
            }
            assert!(man.is_canonical(r));
        }
    }
}

#[test]
fn sdd_equivalent_formulas_get_one_edge_along_every_tree() {
    let first = Cnf::new(vec![
        vec![l(0, true), l(1, true), l(2, true)],
        vec![l(0, true), l(1, true)],
        vec![l(0, false), l(1, true)],
    ]);
    let second = Cnf::new(vec![vec![l(1, true)]]);
    let other = Cnf::new(vec![vec![l(2, true)]]);
    for tree in trees(3) {
        let mut man = SddManager::new(tree).unwrap();
        let a = man.from_cnf(&first);
        let b = man.from_cnf(&second);
        let c = man.from_cnf(&other);
        assert_eq!(a, SddPtr::Literal(VarLabel::new(1), true));
        assert!(man.sdd_eq(a, b));
        assert!(!man.sdd_eq(a, c));
    }
}

#[test]
fn sdd_and_or_neg_are_the_connectives() {
    let v = variables(4);
    let mut man = SddManager::new(VTree::even_split(&v, 2)).unwrap();
    let x0 = man.var(VarLabel::new(0), true);
    let x1 = man.var(VarLabel::new(1), true);
    let x2 = man.var(VarLabel::new(2), true);
    let x3 = man.var(VarLabel::new(3), false);
    let a = man.and(x0, x2);
    let b = man.or(x1, x3);
    let c = man.and(a, b);
    let d = man.or(c, x1);
    let e = man.neg(d);
    for m in all_assignments(4) {
        let va = m[0] && m[2];
        let vb = m[1] || !m[3];
        assert_eq!(man.eval(a, &m), va);
        assert_eq!(man.eval(b, &m), vb);
        assert_eq!(man.eval(c, &m), va && vb);
        assert_eq!(man.eval(d, &m), (va && vb) || m[1]);
        assert_eq!(man.eval(e, &m), !((va && vb) || m[1]));
    }
    // the conjunction with the negation is false, the disjunction true
    assert_eq!(man.and(d, e), SddPtr::PtrFalse);
    assert_eq!(man.or(d, e), SddPtr::PtrTrue);
    // the same function is the same edge, however it was built
    let back = man.and(x2, x0);
    assert_eq!(a, back);
    let not_a = man.neg(a);
    let nx0 = man.neg(x0);
    let nx2 = man.neg(x2);
    let de_morgan = man.or(nx0, nx2);
    assert_eq!(not_a, de_morgan);
}

#[test]
fn sdd_terminal_rules() {
    let v = variables(2);
    let mut man = SddManager::new(VTree::right_linear(&v)).unwrap();
    let x = man.var(VarLabel::new(0), true);
    let nx = man.var(VarLabel::new(0), false);
    assert_eq!(man.neg(x), nx);
    assert_eq!(man.and(x, SddPtr::PtrTrue), x);
    assert_eq!(man.and(SddPtr::PtrTrue, x), x);
    assert_eq!(man.and(x, SddPtr::PtrFalse), SddPtr::PtrFalse);
    assert_eq!(man.and(x, x), x);
    assert_eq!(man.and(x, nx), SddPtr::PtrFalse);
    assert_eq!(man.or(x, nx), SddPtr::PtrTrue);
    assert_eq!(man.or(x, SddPtr::PtrFalse), x);
    assert_eq!(man.num_nodes(), 0);
}

#[test]
fn sdd_decision_nodes_are_compressed_trimmed_and_in_order() {
    let v = variables(4);
    let mut man = SddManager::new(VTree::even_split(&v, 1)).unwrap();
    let cnf = Cnf::new(vec![
        vec![l(0, true), l(2, true)],
        vec![l(1, false), l(3, true)],
        vec![l(0, false), l(1, true), l(3, false)],
    ]);
    let r = man.from_cnf(&cnf);
    assert!(man.is_canonical(r));
    assert!(man.num_nodes() > 0);
    for h in 0..man.num_nodes() {
        let node = man.node(h);
        let elements: &Vec<SddAnd> = &node.nodes;
        assert!(!elements.is_empty());
        for i in 0..elements.len() {
            for j in (i + 1)..elements.len() {
                assert_ne!(elements[i].sub, elements[j].sub);
            }
        }
        assert!(!(elements.len() == 1 && elements[0].prime == SddPtr::PtrTrue));
        let first = elements[0].sub;
        assert!(!matches!(first, SddPtr::PtrFalse | SddPtr::Compl(_) | SddPtr::Literal(_, false)));
    }
}

#[test]
fn sdd_manager_needs_each_variable_at_one_leaf() {
    let twice = VTree::new_node(
        VTree::new_leaf(VarLabel::new(0)),
        VTree::new_leaf(VarLabel::new(0)),
    );
    assert!(SddManager::new(twice).is_none());
    let gap = VTree::new_node(
        VTree::new_leaf(VarLabel::new(0)),
        VTree::new_leaf(VarLabel::new(2)),
    );
    assert!(SddManager::new(gap).is_none());
    let fine = VTree::new_node(
        VTree::new_leaf(VarLabel::new(1)),
        VTree::new_leaf(VarLabel::new(0)),
    );
    let man = SddManager::new(fine).unwrap();
    assert_eq!(man.num_vars(), 2);
}

#[test]
fn vtree_shapes() {
    let v = variables(4);
    let leaf = |i: u64| VTree::new_leaf(VarLabel::new(i));
    let right = VTree::right_linear(&v);
    let expected = VTree::new_node(
        leaf(0),
        VTree::new_node(leaf(1), VTree::new_node(leaf(2), leaf(3))),
    );
    assert_eq!(format!("{:?}", right), format!("{:?}", expected));
    let left = VTree::left_linear(&v);
    let expected = VTree::new_node(
        VTree::new_node(VTree::new_node(leaf(0), leaf(1)), leaf(2)),
        leaf(3),
    );
    assert_eq!(format!("{:?}", left), format!("{:?}", expected));
    let even = VTree::even_split(&v, 1);
    let expected = VTree::new_node(
        VTree::new_node(leaf(0), leaf(1)),
        VTree::new_node(leaf(2), leaf(3)),
    );
    assert_eq!(format!("{:?}", even), format!("{:?}", expected));
    let manager = VTreeManager::new(even);
    assert!(manager.is_valid_vtree());
    assert_eq!(manager.num_vars(), 4);
    let sizes: Vec<usize> = manager.nodes.iter().map(|n| n.size).collect();
    assert_eq!(sizes, vec![7, 3, 1, 1, 3, 1, 1]);
    assert_eq!(manager.leaf_of, vec![2, 3, 5, 6]);
}

#[test]
fn sdd_wmc_of_a_clause_with_uniform_weights() {
    // x0 or not x1, with both weights of each variable 1: three models
    let cnf = Cnf::new(vec![vec![l(0, true), l(1, false)]]);
    for tree in trees(2) {
        let mut man = SddManager::new(tree).unwrap();
        let r = man.from_cnf(&cnf);
        let field = rsdd::util::finitefield::FiniteField::<1000003>::new;
        let params = rsdd::repr::bdd::WmcParams {
            zero: field(0),
            one: field(1),
            var_to_val: vec![(field(1), field(1)), (field(1), field(1))],
        };
        assert_eq!(man.wmc(r, &params).value(), 3);
        assert_eq!(man.wmc(SddPtr::PtrTrue, &params).value(), 4);
        assert_eq!(man.wmc(SddPtr::PtrFalse, &params).value(), 0);
        let nr = man.neg(r);
        assert_eq!(man.wmc(nr, &params).value(), 1);
    }
}

#[test]
fn sdd_wmc_is_the_weighted_model_count_of_the_formula() {
    let field = rsdd::util::finitefield::FiniteField::<1000003>::new;
    for cnf in sample_formulas() {
        let n = cnf.num_vars().max(1);
        let weights: Vec<(usize, usize)> = (0..n).map(|i| (i + 2, 2 * i + 1)).collect();
        let mut by_label = std::collections::HashMap::new();
        for (i, pair) in weights.iter().enumerate() {
            by_label.insert(i as u64, *pair);
        }
        // the count by the sum over all assignments
        let mut expected: u128 = 0;
        for a in all_assignments(n) {
            if cnf.eval(&a) {
                let mut weight: u128 = 1;
                for (i, b) in a.iter().enumerate() {
                    weight *= if *b { weights[i].1 } else { weights[i].0 } as u128;
                }
                expected += weight;
            }
        }
        let params = rsdd::repr::bdd::WmcParams {
            zero: field(0),
            one: field(1),
            var_to_val: weights
                .iter()
                .map(|(lo, hi)| (field(*lo as u128), field(*hi as u128)))
                .collect(),
        };
        for tree in trees(n) {
            let mut man = SddManager::new(tree).unwrap();
            let r = man.from_cnf(&cnf);
            assert_eq!(man.wmc(r, &params).value(), expected % 1000003, "{:?}", cnf);
        }
        if cnf.num_vars() > 0 {
            assert_eq!(cnf.wmc(&by_label) as u128, expected);
        }
    }
}

#[test]
fn sdd_of_a_formula_with_an_empty_clause_is_false() {
    let cnf = Cnf::new(vec![vec![l(0, true), l(1, true)], vec![], vec![l(1, false)]]);
    for tree in trees(2) {
        let mut man = SddManager::new(tree).unwrap();
        assert_eq!(man.from_cnf(&cnf), SddPtr::PtrFalse);
    }
}
