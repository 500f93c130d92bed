use easypls::cnf::CNF;
use easypls::expr::Expr;

fn names(list: &[&str]) -> Vec<String> {
    list.iter().map(|s| String::from(*s)).collect()
}

fn holds(clauses: &[Vec<isize>], assignment: &[bool]) -> bool {
    clauses.iter().all(|clause| {
        clause
            .iter()
            .any(|lit| assignment[lit.unsigned_abs() - 1] == (*lit > 0))
    })
}

#[test]
fn dpll() {
    let symbol_table = names(&["x", "y", "z"]);

    let mut cnf = CNF::new(symbol_table.clone(), vec![vec![1], vec![-1]]);
    assert!(!cnf.find_evidence().is_some());

    // Argument x -> y, x, therefore y
    let mut cnf = CNF::new(symbol_table.clone(), vec![vec![-1, 2], vec![1], vec![-2]]);
    assert!(!cnf.find_evidence().is_some());

    // Invalid argument x -> y, y, therefore x
    let mut cnf = CNF::new(symbol_table.clone(), vec![vec![-1, 2], vec![2], vec![-1]]);
    assert!(cnf.find_evidence().is_some());
}

#[test]
fn falsification() {
    assert!(CNF::is_falsified(&vec![-1, 2, 3], &vec![Some(true), Some(false), Some(false)]));
    assert!(!CNF::is_falsified(&vec![1, -2, 3], &vec![Some(false), Some(true), None]));
    assert!(!CNF::is_falsified(&vec![1, -2, 3], &vec![Some(true), Some(false), Some(false)]));
    assert!(!CNF::is_falsified(&vec![1, 2, 3], &vec![Some(true), Some(true), Some(true)]));
    assert!(CNF::is_falsified(&vec![-1, -2, -3], &vec![Some(true), Some(true), Some(true)]));
}

#[test]
fn is_unit_clause() {
    assert!(CNF::is_unit_clause(&vec![-1, 2, 3], &vec![Some(true), Some(false), None]));
    assert!(!CNF::is_unit_clause(&vec![1, -2, 3], &vec![Some(true), Some(true), None]));
    assert!(!CNF::is_unit_clause(&vec![1, -2, 3], &vec![Some(false), Some(true), Some(false)]));
    assert!(CNF::is_unit_clause(&vec![1, 2, 3], &vec![None, Some(false), Some(false)]));
    assert!(!CNF::is_unit_clause(&vec![-1, -2, -3], &vec![Some(true), Some(true), Some(true)]));
}

#[test]
fn implied_assignment_gives_slot_and_value() {
    assert_eq!(
        CNF::implied_assignment(&vec![-1, 2, 3], &vec![Some(true), Some(false), None]),
        Some((2, true))
    );
    assert_eq!(
        CNF::implied_assignment(&vec![1, -2, 3], &vec![Some(true), Some(true), None]),
        None
    );
    assert_eq!(
        CNF::implied_assignment(&vec![1, 2, 3], &vec![None, Some(false), Some(false)]),
        Some((0, true))
    );
    assert_eq!(
        CNF::implied_assignment(&vec![1, -2], &vec![Some(false), None]),
        Some((1, false))
    );
}

#[test]
fn implied_assignment_needs_exactly_one_open_literal() {
    assert_eq!(CNF::implied_assignment(&vec![1, 2], &vec![None, None]), None);
    assert_eq!(CNF::implied_assignment(&vec![1, 1], &vec![None]), None);
    assert_eq!(CNF::implied_assignment(&vec![], &vec![None]), None);
    assert_eq!(CNF::implied_assignment(&vec![1], &vec![Some(false)]), None);
}

#[test]
fn empty_clause_is_falsified_at_once() {
    assert!(CNF::is_falsified(&vec![], &vec![None, None]));
    let mut cnf = CNF::new(names(&["x"]), vec![vec![]]);
    assert_eq!(cnf.find_evidence(), None);
    assert!(!cnf.is_sat());
}

#[test]
fn any_falsified_looks_at_every_clause() {
    let cnf = CNF::new(names(&["x", "y"]), vec![vec![1, 2], vec![-1]]);
    assert!(!cnf.any_falsified(&vec![None, None]));
    assert!(cnf.any_falsified(&vec![Some(true), None]));
    assert!(cnf.any_falsified(&vec![Some(false), Some(false)]));
    assert!(!cnf.any_falsified(&vec![Some(false), Some(true)]));
}

#[test]
fn evidence_is_total_and_makes_every_clause_hold() {
    let clauses = vec![vec![-1, 2], vec![2], vec![-1]];
    let mut cnf = CNF::new(names(&["x", "y", "z"]), clauses.clone());
    let evidence = cnf.find_evidence().unwrap();
    assert_eq!(evidence.len(), 3);
    assert!(holds(&clauses, &evidence));
    // propagation fixes x and y; the open slot is tried with true first
    assert_eq!(evidence, vec![false, true, true]);
    assert!(cnf.is_sat());
}

#[test]
fn search_backtracks_to_false() {
    // x must be false, found only after the true branch fails
    let clauses = vec![vec![-1, 2], vec![-1, -2]];
    let mut cnf = CNF::new(names(&["x", "y"]), clauses.clone());
    let evidence = cnf.find_evidence().unwrap();
    assert_eq!(evidence, vec![false, true]);
    assert!(holds(&clauses, &evidence));
}

#[test]
fn all_polarities_of_two_variables_are_unsatisfiable() {
    let mut cnf = CNF::new(
        names(&["x", "y"]),
        vec![vec![1, 2], vec![1, -2], vec![-1, 2], vec![-1, -2]],
    );
    assert_eq!(cnf.find_evidence(), None);
    assert!(!cnf.is_sat());
}

#[test]
fn no_clauses_are_satisfied_by_all_true() {
    let mut cnf = CNF::new(names(&["x", "y"]), vec![]);
    assert_eq!(cnf.find_evidence(), Some(vec![true, true]));
    let empty = CNF::new(vec![], vec![]);
    assert_eq!(empty.gen_empty_truth_assignment(), Vec::<Option<bool>>::new());
    assert!(empty.is_sat());
}

#[test]
fn empty_truth_assignment_has_one_open_slot_per_variable() {
    let cnf = CNF::new(names(&["x", "y", "z"]), vec![]);
    assert_eq!(cnf.gen_empty_truth_assignment(), vec![None, None, None]);
}

#[test]
fn unit_propigation() {
    let symbol_table = names(&["x", "y", "z", "w"]);

    let cnf = CNF::new(symbol_table.clone(), vec![vec![1], vec![1, -2]]);
    let mut truth_assignment = vec![false; 4];

    assert_eq!(
        cnf.unit_propigation_old(&mut truth_assignment).get_clauses_clone(),
        Vec::<Vec<isize>>::new()
    );

    let cnf = CNF::new(symbol_table.clone(), vec![vec![-3, 1, 2, 4], vec![-2], vec![3]]);
    let mut truth_assignment = vec![false; 4];

    assert_eq!(
        cnf.unit_propigation_old(&mut truth_assignment).get_clauses_clone(),
        vec![vec![1, 4]]
    );
}

#[test]
fn unit_propagation_records_each_forced_value() {
    let cnf = CNF::new(
        names(&["x", "y", "z", "w"]),
        vec![vec![-3, 1, 2, 4], vec![-2], vec![3]],
    );
    let mut truth_assignment = vec![true, true, false, false];
    let rest = cnf.unit_propigation_old(&mut truth_assignment);
    assert_eq!(truth_assignment, vec![true, false, true, false]);
    assert_eq!(rest.get_symbol_table(), vec!["x", "y", "z", "w"]);

    let cnf = CNF::new(
        names(&["x", "y", "z", "w"]),
        vec![vec![-3, 1, 2, 4], vec![-2], vec![3]],
    );
    assert_eq!(cnf.unit_propigation().get_clauses_clone(), vec![vec![1, 4]]);
}

#[test]
fn unit_propagation_can_end_in_an_empty_clause() {
    let cnf = CNF::new(names(&["x"]), vec![vec![1], vec![-1]]);
    assert_eq!(cnf.unit_propigation().get_clauses_clone(), vec![Vec::<isize>::new()]);
}

#[test]
fn conditioning_drops_satisfied_clauses_and_strikes_the_negation() {
    let cnf = CNF::new(
        names(&["x", "y", "z"]),
        vec![vec![1, 2], vec![-1, 3], vec![-1, -1], vec![2, 3], vec![3, 1]],
    );
    assert_eq!(
        cnf.conditioned(1).get_clauses_clone(),
        vec![vec![3], vec![], vec![2, 3]]
    );
    assert_eq!(
        cnf.conditioned(-1).get_clauses_clone(),
        vec![vec![2], vec![2, 3], vec![3]]
    );
    assert_eq!(cnf.conditioned(1).get_symbol_table(), vec!["x", "y", "z"]);
}

#[test]
fn find_unit_clause_gives_the_first_one() {
    let cnf = CNF::new(names(&["x", "y", "z"]), vec![vec![1, 2], vec![-3], vec![2]]);
    assert_eq!(cnf.find_unit_clause(), Some(-3));
    let cnf = CNF::new(names(&["x", "y"]), vec![vec![1, 2], vec![]]);
    assert_eq!(cnf.find_unit_clause(), None);
}

#[test]
fn variables_are_numbered_from_one() {
    let mut cnf = CNF::new(vec![], vec![]);
    assert_eq!(cnf.add_variable(String::from("p")), 1);
    assert_eq!(cnf.add_variable(String::from("q")), 2);
    assert_eq!(cnf.from_id(1), "p");
    assert_eq!(cnf.from_id(-2), "q");
    cnf.set_symbol_name(1, String::from("r"));
    assert_eq!(cnf.get_symbol_table(), vec!["r", "q"]);
}

#[test]
fn gen_var_reuses_names_and_mints_placeholders() {
    let mut cnf = CNF::new(vec![], vec![]);
    let a = Expr::Var(String::from("a"));
    let node = Expr::not(Expr::Var(String::from("a")));
    assert_eq!(cnf.gen_var(&a), 1);
    assert_eq!(cnf.gen_var(&node), 2);
    assert_eq!(cnf.gen_var(&a), 1);
    assert_eq!(cnf.gen_var(&node), 3);
    assert_eq!(cnf.gen_var(&Expr::Literal(true)), 4);
    assert_eq!(cnf.get_symbol_table(), vec!["a", "$0", "$1", "$2"]);
}

#[test]
fn placeholder_names_count_in_decimal() {
    let mut cnf = CNF::new(vec![], vec![]);
    let node = Expr::Literal(false);
    for _ in 0..12 {
        cnf.gen_var(&node);
    }
    let table = cnf.get_symbol_table();
    assert_eq!(table[0], "$0");
    assert_eq!(table[9], "$9");
    assert_eq!(table[10], "$10");
    assert_eq!(table[11], "$11");
}

#[test]
fn enforce_and_append_add_clauses_at_the_end() {
    let mut cnf = CNF::new(names(&["x", "y"]), vec![vec![1, 2]]);
    cnf.enforce(2, false);
    cnf.enforce(1, true);
    cnf.append_clause(vec![-1, -2]);
    assert_eq!(
        cnf.get_clauses_clone(),
        vec![vec![1, 2], vec![-2], vec![1], vec![-1, -2]]
    );
    assert_eq!(cnf.find_evidence(), Some(vec![true, false]));
    cnf.enforce(1, false);
    assert_eq!(cnf.find_evidence(), None);
}

#[test]
fn from_self_keeps_the_symbol_table_only() {
    let cnf = CNF::new(names(&["x", "y"]), vec![vec![1], vec![2]]);
    let other = cnf.from_self(vec![vec![-1, -2]]);
    assert_eq!(other.get_symbol_table(), vec!["x", "y"]);
    assert_eq!(other.get_clauses_clone(), vec![vec![-1, -2]]);
}

#[test]
fn propagation_alone_decides_a_chain() {
    // each clause forces the next variable in turn
    let clauses = vec![vec![1], vec![-1, 2], vec![-2, 3], vec![-3, -4]];
    let mut cnf = CNF::new(names(&["a", "b", "c", "d"]), clauses.clone());
    let evidence = cnf.find_evidence().unwrap();
    assert_eq!(evidence, vec![true, true, true, false]);
    assert!(holds(&clauses, &evidence));
}

#[test]
fn repeated_implication_steps_only_fill_open_slots() {
    let clauses: Vec<Vec<isize>> = vec![vec![-1, 2], vec![1], vec![-2, -3, 4], vec![3], vec![4, 5]];
    let mut assignment: Vec<Option<bool>> = vec![None; 5];
    let mut decided = 0;
    loop {
        let forced = clauses
            .iter()
            .find_map(|clause| CNF::implied_assignment(clause, &assignment));
        let (slot, value) = match forced {
            Some(step) => step,
            None => break,
        };
        let before = assignment.clone();
        assert_eq!(before[slot], None);
        assignment[slot] = Some(value);
        for i in 0..before.len() {
            if before[i].is_some() {
                assert_eq!(assignment[i], before[i]);
            }
        }
        decided += 1;
        assert_eq!(assignment.iter().filter(|v| v.is_some()).count(), decided);
        assert!(decided <= 5);
    }
    assert_eq!(
        assignment,
        vec![Some(true), Some(true), Some(true), Some(true), None]
    );
}

#[test]
fn is_sat_agrees_with_find_evidence() {
    let sets: Vec<Vec<Vec<isize>>> = vec![
        vec![],
        vec![vec![]],
        vec![vec![1], vec![-1]],
        vec![vec![-1, 2], vec![1], vec![-2]],
        vec![vec![-1, 2], vec![2], vec![-1]],
        vec![vec![1, 2, 3], vec![-1, -2], vec![-2, -3], vec![-1, -3]],
        vec![vec![1, 2], vec![1, -2], vec![-1, 3], vec![-1, -3]],
        vec![vec![3, -3], vec![2, 2], vec![-2, 1]],
    ];
    for clauses in sets {
        let mut cnf = CNF::new(names(&["x", "y", "z"]), clauses.clone());
        let evidence = cnf.find_evidence();
        assert_eq!(cnf.is_sat(), evidence.is_some());
        if let Some(assignment) = evidence {
            assert!(holds(&clauses, &assignment));
        }
    }
}
