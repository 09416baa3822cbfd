use rsdd::builder::decision_nnf::semantic::SemanticDecisionNNFBuilder;
use rsdd::repr::bdd::{BddNode, BddPtr};
use rsdd::repr::cnf::Cnf;
use rsdd::repr::var_label::VarLabel;
use rsdd::repr::var_order::VarOrder;

/// a prime large enough to ensure no collisions for semantic hashing
const BIG_PRIME: u128 = 100000049;

static C1_A: &str = "
p cnf 5 3
1 2 0
-1 2 0
";

static C1_B: &str = "
p cnf 2 1
2 0
";

static C2_A: &str = "
p cnf 5 3
1 2 3 0
1 2 0
-1 2 0
";

static C2_B: &str = "
p cnf 2 1
2 0
";

static C4_A: &str = "
p cnf 5 3
-1 2 0
1
";

static C4_B: &str = "
p cnf 2 1
1 0
2 0
";

/// The diagram of the formula over the variables from `var` on, under the
/// values that `assignment` gives the variables before `var`.
fn compile(
    b: &mut SemanticDecisionNNFBuilder<BIG_PRIME>,
    cnf: &Cnf,
    num_vars: usize,
    assignment: &mut Vec<bool>,
) -> BddPtr {
    let var = assignment.len();
    if var == num_vars {
        return if cnf.eval(assignment) {
            BddPtr::PtrTrue
        } else {
            BddPtr::PtrFalse
        };
    }
    assignment.push(false);
    let low = compile(b, cnf, num_vars, assignment);
    assignment.pop();
    assignment.push(true);
    let high = compile(b, cnf, num_vars, assignment);
    assignment.pop();
    if low == high {
        low
    } else {
        b.get_or_insert(BddNode::new(VarLabel::new(var as u64), low, high))
    }
}

fn same_diagram(a: &str, b: &str) {
    let cnf1 = Cnf::from_file(String::from(a));
    let cnf2 = Cnf::from_file(String::from(b));
    let num_vars = cnf1.num_vars().max(cnf2.num_vars());
    let order = VarOrder::new((0..num_vars as u64).map(VarLabel::new).collect());
    let mut builder = SemanticDecisionNNFBuilder::<BIG_PRIME>::new(order);
    let r1 = compile(&mut builder, &cnf1, num_vars, &mut Vec::new());
    let r2 = compile(&mut builder, &cnf2, num_vars, &mut Vec::new());
    assert_eq!(r1, r2);
    assert_eq!(builder.num_logically_redundant(), 0);
}

#[test]
fn resolving_on_the_first_variable_leaves_the_second() {
    // (x1 | x2) & (!x1 | x2) is x2
    same_diagram(C1_A, C1_B);
}

#[test]
fn a_subsumed_clause_changes_nothing() {
    // (x1 | x2 | x3) & (x1 | x2) & (!x1 | x2) is x2
    same_diagram(C2_A, C2_B);
}

#[test]
fn a_unit_clause_shortens_the_other() {
    // (!x1 | x2) & x1 is x1 & x2
    same_diagram(C4_A, C4_B);
}

#[test]
fn formulas_that_differ_get_different_diagrams() {
    let cnf1 = Cnf::from_file(String::from(C1_B));
    let cnf2 = Cnf::from_file(String::from(C4_B));
    let order = VarOrder::new((0..2).map(VarLabel::new).collect());
    let mut builder = SemanticDecisionNNFBuilder::<BIG_PRIME>::new(order);
    let r1 = compile(&mut builder, &cnf1, 2, &mut Vec::new());
    let r2 = compile(&mut builder, &cnf2, 2, &mut Vec::new());
    assert_ne!(r1, r2);
    assert_ne!(r1, r2.neg());
}
