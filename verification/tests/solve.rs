use dpll::repr::Literal;
use dpll::solve::solve;

#[test]
fn find_trivial_contradiction() {
    let cnf = vec![
        vec![Literal("a".to_string(), true)],
        vec![Literal("a".to_string(), false)],
    ];
    assert!(solve(&cnf).is_none());
}

#[test]
fn find_trivial_tautology() {
    let cnf = vec![vec![
        Literal("a".to_string(), true),
        Literal("a".to_string(), false),
    ]];
    assert!(solve(&cnf).is_some());
}

#[test]
fn empty_formula_is_satisfied() {
    let cnf: Vec<Vec<Literal<u32>>> = vec![];
    assert_eq!(solve(&cnf), Some(vec![]));
}

#[test]
fn empty_clause_is_unsatisfiable() {
    let cnf: Vec<Vec<Literal<u32>>> = vec![vec![]];
    assert!(solve(&cnf).is_none());
}

#[test]
fn consistent_units_come_back_verbatim() {
    let cnf = vec![
        vec![Literal(1u32, true)],
        vec![Literal(2u32, false)],
        vec![Literal(1u32, true)],
    ];
    let asg = solve(&cnf).expect("unit clauses are consistent");
    assert_eq!(asg, vec![Literal(1u32, true), Literal(2u32, false)]);
}

#[test]
fn returned_assignment_satisfies_every_clause() {
    let cnf = vec![
        vec![Literal(1u32, true), Literal(2u32, true)],
        vec![Literal(1u32, false), Literal(3u32, true)],
        vec![Literal(2u32, false), Literal(3u32, false)],
    ];
    let asg = solve(&cnf).expect("the formula is satisfiable");
    for (i, l) in asg.iter().enumerate() {
        for m in asg.iter().skip(i + 1) {
            assert!(l.0 != m.0, "an atom was decided twice");
        }
    }
    for clause in &cnf {
        assert!(clause.iter().any(|l| asg.contains(l)));
    }
}

#[test]
fn single_polarity_formula_is_satisfied_without_branching() {
    let cnf = vec![
        vec![Literal(1u32, true), Literal(2u32, false)],
        vec![Literal(2u32, false), Literal(3u32, true)],
    ];
    let asg = solve(&cnf).expect("pure literals satisfy the formula");
    for clause in &cnf {
        assert!(clause.iter().any(|l| asg.contains(l)));
    }
}

#[test]
fn opposite_units_conflict_through_other_clauses() {
    let cnf = vec![
        vec![Literal(1u32, true), Literal(2u32, true)],
        vec![Literal(1u32, false)],
        vec![Literal(2u32, false)],
    ];
    assert!(solve(&cnf).is_none());
}

#[test]
fn negation_flips_polarity() {
    let l = Literal::new(7u32);
    let n = !&l;
    assert_eq!(n, Literal(7u32, false));
    assert_eq!(!n, Literal(7u32, true));
    assert!(l.value());
    assert!(!Literal::negated(5u32).value());
    assert_eq!(Literal::new(5u32).atom(), 5u32);
}
