use backbone::backbone::{find_backbone_candidate, merge_value};
use backbone::dimacs::append_decimal;
use backbone::problem::{dimacs_to_sat, split_clauses};
use backbone::reader::read_answer;
use backbone::{parse_solver, AnswerError, CnfClause, CnfSat, Solver, VariableValue};

fn three_vars() -> CnfSat {
    let mut sat = CnfSat::new();
    sat.create_variable("a");
    sat.create_variable("b");
    sat.create_variable("c");
    sat
}

#[test]
fn variables_get_dense_ids() {
    let sat = three_vars();
    assert_eq!(sat.variable_count(), 3);
    assert_eq!(sat.get_variable("a"), 0);
    assert_eq!(sat.get_variable("c"), 2);
    assert_eq!(sat.lookup_variable("b"), Some(1));
    assert_eq!(sat.lookup_variable("d"), None);
    let v = sat.get_variable_by_id(1).unwrap();
    assert_eq!(v.name(), "b");
    assert_eq!(v.id(), 1);
    assert!(sat.get_variable_by_id(3).is_none());
}

#[test]
fn serializes_header_and_clauses() {
    let mut sat = three_vars();
    let mut clause = CnfClause::new();
    clause.set(0, true);
    clause.set(2, false);
    sat.add_clause(clause);
    assert_eq!(sat.clause_count(), 1);
    assert_eq!(sat.to_dimacs(), "p cnf 3 1\n1 -3 0\n");
}

#[test]
fn set_overwrites_a_literal_in_place() {
    let mut sat = three_vars();
    let mut clause = CnfClause::new();
    clause.set(1, true);
    clause.set(0, true);
    clause.set(1, false);
    sat.add_clause(clause);
    assert_eq!(sat.to_dimacs(), "p cnf 3 1\n-2 1 0\n");
}

#[test]
fn empty_clause_set_serializes_header_only() {
    let sat = CnfSat::new();
    assert_eq!(sat.to_dimacs(), "p cnf 0 0\n");
}

#[test]
fn at_least_one_and_at_most_one() {
    let mut sat = three_vars();
    sat.ensure_at_least_one_set(&[0, 1, 2]);
    sat.ensure_max_one_set(&[0, 1, 2]);
    assert_eq!(
        sat.to_dimacs(),
        "p cnf 3 4\n1 2 3 0\n-1 -2 0\n-1 -3 0\n-2 -3 0\n"
    );
}

#[test]
fn at_least_one_with_repeated_variable() {
    let mut sat = three_vars();
    sat.ensure_at_least_one_set(&[1, 1]);
    sat.ensure_max_one_set(&[2, 2]);
    assert_eq!(sat.to_dimacs(), "p cnf 3 2\n2 0\n-3 0\n");
}

#[test]
fn add_then_pop_restores_text() {
    let mut sat = three_vars();
    sat.ensure_at_least_one_set(&[0, 2]);
    let before = sat.to_dimacs();
    let mut clause = CnfClause::new();
    clause.set(1, false);
    sat.add_clause(clause);
    assert_ne!(sat.to_dimacs(), before);
    assert!(sat.pop_clause().is_some());
    assert_eq!(sat.to_dimacs(), before);
}

#[test]
fn pop_on_empty_stack_fails() {
    let mut sat = three_vars();
    assert!(sat.pop_clause().is_none());
    assert_eq!(sat.clause_count(), 0);
}

#[test]
fn decimal_of_large_number() {
    let mut s = String::from("x");
    append_decimal(&mut s, 1234567890);
    assert_eq!(s, "x1234567890");
    let mut z = String::new();
    append_decimal(&mut z, 0);
    assert_eq!(z, "0");
}

#[test]
fn reads_satisfiable_answer() {
    let sat = three_vars();
    let m = sat
        .result_from_dimacs("c comment\ns SATISFIABLE\nv 1 -2\nv 3 0\n")
        .unwrap();
    assert_eq!(m.get_result_by_id(&0), Some(true));
    assert_eq!(m.get_result_by_id(&1), Some(false));
    assert_eq!(m.get_result_by_id(&2), Some(true));
    assert_eq!(m.get_result_by_id(&3), None);
    assert_eq!(m.get_result_by_name("b"), Some(false));
    assert_eq!(m.get_result_by_name("z"), None);
}

#[test]
fn partial_witness_leaves_gaps() {
    let sat = three_vars();
    let m = sat.result_from_dimacs("s SATISFIABLE\nv -3 0\n").unwrap();
    assert_eq!(m.get_result_by_id(&0), None);
    assert_eq!(m.get_result_by_id(&2), Some(false));
}

#[test]
fn reads_unsatisfiable_answer() {
    let sat = three_vars();
    assert_eq!(
        sat.result_from_dimacs("s UNSATISFIABLE\n").err(),
        Some(AnswerError::Unsatisfiable)
    );
}

#[test]
fn missing_status_is_unsatisfiable() {
    let sat = three_vars();
    assert_eq!(
        sat.result_from_dimacs("v 1 2 3 0\n").err(),
        Some(AnswerError::Unsatisfiable)
    );
}

#[test]
fn malformed_literal_is_rejected() {
    let sat = three_vars();
    assert_eq!(
        sat.result_from_dimacs("s SATISFIABLE\nv 1 x2 0\n").err(),
        Some(AnswerError::MalformedLiteral)
    );
}

#[test]
fn unknown_variable_is_rejected() {
    let sat = three_vars();
    assert_eq!(
        sat.result_from_dimacs("s SATISFIABLE\nv 1 -4 0\n").err(),
        Some(AnswerError::UnknownVariable)
    );
}

#[test]
fn read_answer_handles_signs_and_limits() {
    let (sat, lits) = read_answer(b"s SATISFIABLE\nv +5 -9223372036854775808 0 7\n");
    assert!(sat);
    assert_eq!(lits, Some(vec![5, i64::MIN, 7]));
    let (_, bad) = read_answer(b"v 9223372036854775808\n");
    assert_eq!(bad, None);
    let (_, sign_only) = read_answer(b"v - 1\n");
    assert_eq!(sign_only, None);
}

#[test]
fn mixed_status_reads_as_unsatisfiable() {
    let (first_unsat, _) = read_answer(b"s UNSATISFIABLE\ns SATISFIABLE\n");
    assert!(!first_unsat);
    let (last_unsat, _) = read_answer(b"s SATISFIABLE\ns UNSATISFIABLE\n");
    assert!(!last_unsat);
    let (both_sat, _) = read_answer(b"s SATISFIABLE\ns SATISFIABLE\n");
    assert!(both_sat);
    let sat = three_vars();
    assert_eq!(
        sat.result_from_dimacs("s UNSATISFIABLE\ns SATISFIABLE\nv 1 2 3 0\n").err(),
        Some(AnswerError::Unsatisfiable)
    );
}

#[test]
fn problem_builds_named_variables() {
    let (sat, vars) = dimacs_to_sat(3, &vec![vec![1, -2], vec![3, 3]]).unwrap();
    assert_eq!(vars, vec![0, 1, 2]);
    assert_eq!(sat.get_variable("2"), 2);
    assert_eq!(sat.to_dimacs(), "p cnf 3 2\n1 -2 0\n3 0\n");
}

#[test]
fn problem_rejects_bad_literals() {
    assert!(dimacs_to_sat(2, &vec![vec![1, 0]]).is_none());
    assert!(dimacs_to_sat(2, &vec![vec![-3]]).is_none());
    assert!(dimacs_to_sat(2, &vec![vec![1], vec![]]).is_none());
}

#[test]
fn solver_selection() {
    let args = |v: &[&str]| v.iter().map(|s| s.to_string()).collect::<Vec<String>>();
    assert_eq!(parse_solver(args(&["prog"])), Solver::Kissat);
    assert_eq!(parse_solver(args(&["prog", "cadical"])), Solver::Cadical);
    assert_eq!(parse_solver(args(&["prog", "oxisat"])), Solver::Oxisat);
    assert_eq!(parse_solver(args(&["prog", "oxisat-dpll"])), Solver::OxisatDpll);
    assert_eq!(parse_solver(args(&["prog", "glucose"])), Solver::Glucose);
    assert_eq!(
        parse_solver(args(&["prog", "glucose-syrup", "4"])),
        Solver::GlucoseSyrup { threads: 4 }
    );
    assert_eq!(
        parse_solver(args(&["prog", "glucose-syrup", "many"])),
        Solver::GlucoseSyrup { threads: 1 }
    );
    assert_eq!(
        parse_solver(args(&["prog", "glucose-syrup"])),
        Solver::GlucoseSyrup { threads: 1 }
    );
    assert_eq!(parse_solver(args(&["prog", "other"])), Solver::Kissat);
}

#[test]
fn merge_table() {
    assert_eq!(merge_value(VariableValue::Unseen, true), Some(VariableValue::True));
    assert_eq!(merge_value(VariableValue::Unseen, false), Some(VariableValue::False));
    assert_eq!(merge_value(VariableValue::True, true), Some(VariableValue::True));
    assert_eq!(merge_value(VariableValue::True, false), Some(VariableValue::Either));
    assert_eq!(merge_value(VariableValue::False, true), Some(VariableValue::Either));
    assert_eq!(merge_value(VariableValue::Either, true), Some(VariableValue::Either));
    assert_eq!(
        merge_value(VariableValue::Backbone(true), true),
        Some(VariableValue::Backbone(true))
    );
    assert_eq!(merge_value(VariableValue::Backbone(true), false), None);
}

#[test]
fn candidate_scan() {
    let values = [
        VariableValue::Either,
        VariableValue::False,
        VariableValue::Backbone(true),
        VariableValue::True,
    ];
    assert_eq!(find_backbone_candidate(0, &values), Some((1, false)));
    assert_eq!(find_backbone_candidate(2, &values), Some((3, true)));
    assert_eq!(find_backbone_candidate(4, &values), None);
    assert_eq!(find_backbone_candidate(0, &[VariableValue::Either]), None);
}

#[test]
fn literal_stream_splits_at_zero() {
    assert_eq!(
        split_clauses(&[1, -2, 0, 3, 0, 0, 4]),
        vec![vec![1, -2], vec![3], vec![], vec![4]]
    );
    assert_eq!(split_clauses(&[]), Vec::<Vec<i64>>::new());
    assert_eq!(split_clauses(&[5, 0]), vec![vec![5]]);
}

#[test]
fn oracle_style_witness_reads_back() {
    let mut sat = CnfSat::new();
    for name in ["p", "q", "r", "s"] {
        sat.create_variable(name);
    }
    let m = sat
        .result_from_dimacs("s SATISFIABLE\nv 1 -2 -3 4 0\n")
        .unwrap();
    let got: Vec<Option<bool>> = (0..4usize).map(|i| m.get_result_by_id(&i)).collect();
    assert_eq!(got, vec![Some(true), Some(false), Some(false), Some(true)]);
}

#[test]
fn duplicate_name_is_refused() {
    let mut sat = CnfSat::new();
    assert_eq!(sat.create_variable("x"), Some(0));
    assert_eq!(sat.create_variable("y"), Some(1));
    assert_eq!(sat.create_variable("x"), None);
    assert_eq!(sat.variable_count(), 2);
    assert_eq!(sat.to_dimacs(), "p cnf 2 0\n");
}

#[test]
fn witness_in_any_order_over_several_lines() {
    let sat = three_vars();
    let m = sat
        .result_from_dimacs("s SATISFIABLE\nv -3 \nv 1 -2 0\n")
        .unwrap();
    assert_eq!(m.get_result_by_id(&0), Some(true));
    assert_eq!(m.get_result_by_id(&1), Some(false));
    assert_eq!(m.get_result_by_id(&2), Some(false));
}
