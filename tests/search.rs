use backbone::problem::dimacs_to_sat;
use backbone::{BackboneError, BackboneSearch, CnfSat, SearchState, VariableValue};

/// Reads the clauses of a request and answers it by trying every assignment,
/// starting from the one that `first` gives.
fn brute_force(request: &str, first: u32) -> String {
    let mut lines = request.lines();
    let header: Vec<&str> = lines.next().unwrap().split_whitespace().collect();
    let n: u32 = header[2].parse().unwrap();
    let clauses: Vec<Vec<i64>> = lines
        .map(|l| {
            l.split_whitespace()
                .map(|t| t.parse::<i64>().unwrap())
                .filter(|v| *v != 0)
                .collect()
        })
        .collect();
    let total = 1u32 << n;
    for step in 0..total {
        let bits = (first + step) % total;
        let value = |v: i64| (bits >> (v.unsigned_abs() - 1)) & 1 == 1;
        if clauses
            .iter()
            .all(|c| c.iter().any(|&l| value(l) == (l > 0)))
        {
            let lits: Vec<String> = (1..=n as i64)
                .map(|v| if value(v) { v.to_string() } else { (-v).to_string() })
                .collect();
            return format!("c found\ns SATISFIABLE\nv {} 0\n", lits.join(" "));
        }
    }
    "s UNSATISFIABLE\n".to_string()
}

fn run(sat: &mut CnfSat, first: u32) -> Result<Vec<i64>, BackboneError> {
    let mut search = BackboneSearch::new(sat.variable_count());
    loop {
        search.begin_probe(sat);
        let answer = brute_force(&sat.to_dimacs(), first);
        let observed = match sat.result_from_dimacs(&answer) {
            Ok(model) => search.observe(Some(&model)),
            Err(_) => search.observe(None),
        };
        search.end_probe(sat);
        observed?;
        if !search.advance() {
            break;
        }
    }
    Ok(search.backbones())
}

fn problem(n: usize, clauses: Vec<Vec<i64>>) -> CnfSat {
    dimacs_to_sat(n, &clauses).unwrap().0
}

#[test]
fn implied_variable_is_backbone() {
    let mut sat = problem(2, vec![vec![1, 2], vec![-1, 2]]);
    assert_eq!(run(&mut sat, 0), Ok(vec![2]));
    assert_eq!(sat.to_dimacs(), "p cnf 2 2\n1 2 0\n-1 2 0\n");
}

#[test]
fn contradiction_aborts() {
    let mut sat = problem(1, vec![vec![1], vec![-1]]);
    assert_eq!(run(&mut sat, 0), Err(BackboneError::UnsatisfiableInput));
}

#[test]
fn single_wide_clause_has_no_backbone() {
    let mut sat = problem(3, vec![vec![1, 2, 3]]);
    assert_eq!(run(&mut sat, 0), Ok(vec![]));
}

#[test]
fn exactly_one_has_no_backbone() {
    let mut sat = CnfSat::new();
    for name in ["x1", "x2", "x3"] {
        sat.create_variable(name);
    }
    sat.ensure_at_least_one_set(&[0, 1, 2]);
    sat.ensure_max_one_set(&[0, 1, 2]);
    assert_eq!(run(&mut sat, 0), Ok(vec![]));
}

#[test]
fn negative_backbone_is_reported_negative() {
    let mut sat = problem(3, vec![vec![-2], vec![1, 3]]);
    assert_eq!(run(&mut sat, 0), Ok(vec![-2]));
}

#[test]
fn same_oracle_same_backbone() {
    let clauses = vec![vec![1, 2], vec![-2, 3], vec![-4]];
    let mut a = problem(4, clauses.clone());
    let mut b = problem(4, clauses);
    assert_eq!(run(&mut a, 5), run(&mut b, 5));
    assert_eq!(run(&mut a, 5), Ok(vec![-4]));
}

/// Every reported literal is refuted when negated, and every other variable
/// takes both values in some solution.
#[test]
fn backbone_is_sound_and_complete() {
    let clauses = vec![vec![1, 2, -3], vec![-1, 4], vec![3, 4], vec![-5, -4], vec![2, 5, 6]];
    for first in [0u32, 7, 21, 40] {
        let mut sat = problem(6, clauses.clone());
        let found = run(&mut sat, first).unwrap();
        for v in 1..=6i64 {
            let mut with_true = clauses.clone();
            with_true.push(vec![v]);
            let mut with_false = clauses.clone();
            with_false.push(vec![-v]);
            let t = brute_force(&problem(6, with_true).to_dimacs(), 0).contains("v ");
            let f = brute_force(&problem(6, with_false).to_dimacs(), 0).contains("v ");
            if found.contains(&v) {
                assert!(t && !f);
            } else if found.contains(&-v) {
                assert!(f && !t);
            } else {
                assert!(t && f);
            }
        }
    }
}

#[test]
fn witness_missing_a_variable_is_an_error() {
    let sat = problem(2, vec![vec![1, 2]]);
    let mut search = BackboneSearch::new(2);
    let model = sat.result_from_dimacs("s SATISFIABLE\nv 1 0\n").unwrap();
    assert_eq!(search.observe(Some(&model)), Err(BackboneError::MissingVariable(1)));
    assert_eq!(search.value(0), VariableValue::Unseen);
}

#[test]
fn witness_contradicting_backbone_is_an_error() {
    let mut sat = problem(2, vec![vec![1, 2]]);
    let mut search = BackboneSearch::new(2);
    let first = sat.result_from_dimacs("s SATISFIABLE\nv 1 2 0\n").unwrap();
    assert_eq!(search.observe(Some(&first)), Ok(()));
    assert!(search.advance());
    assert_eq!(
        search.search_state(),
        SearchState::Searching { candidate_index: 0, candidate_value: true }
    );
    assert_eq!(search.hypothesis(), Some((0, false)));
    assert!(search.begin_probe(&mut sat));
    assert_eq!(sat.to_dimacs(), "p cnf 2 2\n1 2 0\n-1 0\n");
    assert_eq!(search.observe(None), Ok(()));
    search.end_probe(&mut sat);
    assert_eq!(search.value(0), VariableValue::Backbone(true));
    let later = sat.result_from_dimacs("s SATISFIABLE\nv -1 2 0\n").unwrap();
    assert_eq!(search.observe(Some(&later)), Err(BackboneError::Inconsistent(0)));
    assert_eq!(search.value(0), VariableValue::Backbone(true));
}
