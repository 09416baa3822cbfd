use rsdd::repr::cnf::Cnf;
use rsdd::repr::unit_prop::UnitPropagate;
use rsdd::repr::var_label::{Literal, VarLabel};

#[test]
fn test_unit_propagate_1() {
    let v = vec![
        vec![Literal::new(VarLabel::new(0), false)],
        vec![
            Literal::new(VarLabel::new(0), true),
            Literal::new(VarLabel::new(1), false),
        ],
        vec![
            Literal::new(VarLabel::new(1), true),
            Literal::new(VarLabel::new(2), true),
        ],
    ];

    let cnf = Cnf::new(v);
    let up = UnitPropagate::new(&cnf).unwrap();
    let assgn = up.get_assgn().get_vec();
    assert_eq!(assgn[0], Some(false));
    assert_eq!(assgn[1], Some(false));
    assert_eq!(assgn[2], Some(true));
}

#[test]
fn test_unit_propagate_2() {
    let v = vec![
        vec![
            Literal::new(VarLabel::new(0), true),
            Literal::new(VarLabel::new(1), false),
        ],
        vec![
            Literal::new(VarLabel::new(1), true),
            Literal::new(VarLabel::new(2), true),
        ],
    ];

    let cnf = Cnf::new(v);
    let up = UnitPropagate::new(&cnf).unwrap();
    let assgn = up.get_assgn().get_vec();
    assert_eq!(assgn[0], None);
    assert_eq!(assgn[1], None);
    assert_eq!(assgn[2], None);
}

#[test]
fn test_unit_propagate_3() {
    let v = vec![
        vec![Literal::new(VarLabel::new(0), false)],
        vec![
            Literal::new(VarLabel::new(0), false),
            Literal::new(VarLabel::new(1), false),
        ],
        vec![
            Literal::new(VarLabel::new(0), false),
            Literal::new(VarLabel::new(1), true),
        ],
        vec![
            Literal::new(VarLabel::new(1), true),
            Literal::new(VarLabel::new(2), true),
        ],
    ];

    let cnf = Cnf::new(v);
    let up = UnitPropagate::new(&cnf).unwrap();
    let assgn = up.get_assgn().get_vec();
    assert_eq!(assgn[0], Some(false));
    assert_eq!(assgn[1], None);
    assert_eq!(assgn[2], None);
}

#[test]
fn test_unit_propagate_4() {
    let v = vec![vec![
        Literal::new(VarLabel::new(0), false),
        Literal::new(VarLabel::new(1), false),
    ]];

    let cnf = Cnf::new(v);
    let mut up = UnitPropagate::new(&cnf).unwrap();
    let v1 = up.decide(Literal::new(VarLabel::new(0), false));
    assert!(v1);
    let v = up.decide(Literal::new(VarLabel::new(1), true));
    assert_eq!(v, true);
    up.backtrack();
    let v = up.decide(Literal::new(VarLabel::new(1), false));
    assert_eq!(v, true);
}

#[test]
fn test_unit_propagate_5() {
    let v = vec![
        vec![
            Literal::new(VarLabel::new(1), true),
            Literal::new(VarLabel::new(3), true),
        ],
        vec![
            Literal::new(VarLabel::new(3), false),
            Literal::new(VarLabel::new(2), true),
            Literal::new(VarLabel::new(4), true),
        ],
    ];
    let cnf = Cnf::new(v);
    let mut up = UnitPropagate::new(&cnf).unwrap();
    let v1 = up.decide(Literal::new(VarLabel::new(3), true));
    assert!(v1);
    println!("{:?}", up);
}

fn lit(v: u64, polarity: bool) -> Literal {
    Literal::new(VarLabel::new(v), polarity)
}

#[test]
fn conflicting_unit_clauses_give_no_propagator() {
    let cnf = Cnf::new(vec![vec![lit(0, true)], vec![lit(0, false)]]);
    assert!(UnitPropagate::new(&cnf).is_none());
}

#[test]
fn units_that_refute_a_clause_give_no_propagator() {
    let cnf = Cnf::new(vec![
        vec![lit(0, false)],
        vec![lit(1, false)],
        vec![lit(0, true), lit(1, true)],
    ]);
    assert!(UnitPropagate::new(&cnf).is_none());
}

#[test]
fn decide_against_the_assignment_fails_and_backtrack_recovers() {
    let cnf = Cnf::new(vec![vec![lit(0, true)], vec![lit(1, true), lit(2, true)]]);
    let mut up = UnitPropagate::new(&cnf).unwrap();
    assert_eq!(up.get_assgn().get_vec()[0], Some(true));
    assert!(!up.decide(lit(0, false)));
    up.backtrack();
    assert_eq!(up.get_assgn().get_vec().to_vec(), vec![Some(true), None, None]);
    assert!(up.decide(lit(1, false)));
    assert_eq!(
        up.get_assgn().get_vec().to_vec(),
        vec![Some(true), Some(false), Some(true)]
    );
}

#[test]
fn propagation_finds_the_unit_after_the_watch_has_moved() {
    // (a | b | c): after a and c are false, b is the last open literal
    let cnf = Cnf::new(vec![vec![lit(0, true), lit(1, true), lit(2, true)]]);
    let mut up = UnitPropagate::new(&cnf).unwrap();
    assert!(up.decide(lit(0, false)));
    assert_eq!(up.get_assgn().get_vec().to_vec(), vec![Some(false), None, None]);
    assert!(up.decide(lit(2, false)));
    assert_eq!(
        up.get_assgn().get_vec().to_vec(),
        vec![Some(false), Some(true), Some(false)]
    );
}

#[test]
fn propagation_with_mixed_polarities_reaches_the_fixpoint() {
    // (!a | b | !c) & (c | d): a, then !b, forces !c, which forces d
    let cnf = Cnf::new(vec![
        vec![lit(0, false), lit(1, true), lit(2, false)],
        vec![lit(2, true), lit(3, true)],
    ]);
    let mut up = UnitPropagate::new(&cnf).unwrap();
    assert!(up.decide(lit(0, true)));
    assert_eq!(
        up.get_assgn().get_vec().to_vec(),
        vec![Some(true), None, None, None]
    );
    assert!(up.decide(lit(1, false)));
    assert_eq!(
        up.get_assgn().get_vec().to_vec(),
        vec![Some(true), Some(false), Some(false), Some(true)]
    );
    assert!(up.is_sat());
    up.backtrack();
    assert_eq!(
        up.get_assgn().get_vec().to_vec(),
        vec![Some(true), None, None, None]
    );
    assert!(!up.is_sat());
}

#[test]
fn a_chain_of_implications_ends_in_a_conflict() {
    // a -> b, b -> c, !c | !a
    let cnf = Cnf::new(vec![
        vec![lit(0, false), lit(1, true)],
        vec![lit(1, false), lit(2, true)],
        vec![lit(2, false), lit(0, false)],
    ]);
    let mut up = UnitPropagate::new(&cnf).unwrap();
    assert!(!up.decide(lit(0, true)));
    up.backtrack();
    assert!(up.decide(lit(0, false)));
    assert_eq!(up.get_assgn().get_vec().to_vec(), vec![Some(false), None, None]);
}

#[test]
fn deciding_a_literal_that_holds_changes_nothing() {
    let cnf = Cnf::new(vec![vec![lit(0, true)], vec![lit(1, true), lit(2, false)]]);
    let mut up = UnitPropagate::new(&cnf).unwrap();
    assert!(up.decide(lit(0, true)));
    assert_eq!(up.get_assgn().get_vec().to_vec(), vec![Some(true), None, None]);
}

#[test]
fn is_sat_holds_once_every_clause_has_a_true_literal() {
    let cnf = Cnf::new(vec![vec![lit(0, true), lit(1, true)]]);
    let mut up = UnitPropagate::new(&cnf).unwrap();
    assert!(!up.is_sat());
    assert!(up.decide(lit(1, true)));
    assert!(up.is_sat());
}
