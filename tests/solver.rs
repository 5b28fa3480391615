use cnf_sat::parser::parse_cnf;
use cnf_sat::solver::{
    is_searchable, literal_forms, solve, solve_no_recursion, solve_with_recursion, Clause,
    Literal, Problem, ProblemBody, Solution, Strategy,
};

const SIMPLE_CNF: &str = "p cnf 3 4\n1 2 3 0\n-1 2 3 0\n1 -2 3 0\n1 2 -3 0";

fn parts(text: &str) -> (Problem, ProblemBody) {
    parse_cnf(text).unwrap().into_parts()
}

fn values(s: Solution) -> Option<Vec<bool>> {
    match s {
        Solution::Satisfiable { values } => Some(values),
        Solution::Unsatisfiable => None,
    }
}

fn satisfied(body: &ProblemBody, values: &[bool]) -> bool {
    body.clauses.iter().all(|c| {
        c.var_idxs
            .iter()
            .any(|l| values[(l.idx - 1) as usize] != l.negated)
    })
}

#[test]
fn simple_problem_is_satisfiable() {
    let (problem, body) = parts(SIMPLE_CNF);
    assert_eq!(problem.variables_count, 3);
    assert_eq!(problem.clauses_count, 4);
    assert!(satisfied(&body, &[true, true, true]));
    assert_eq!(values(solve_with_recursion(&problem, &body)), Some(vec![true, true, true]));
    assert_eq!(values(solve_no_recursion(&problem, &body)), Some(vec![true, true, false]));
}

#[test]
fn contradiction_is_unsatisfiable() {
    let (problem, body) = parts("p cnf 1 2\n1 0\n-1 0");
    assert!(values(solve_with_recursion(&problem, &body)).is_none());
    assert!(values(solve_no_recursion(&problem, &body)).is_none());
}

#[test]
fn missing_final_terminator_parses_the_same() {
    let with = parse_cnf(SIMPLE_CNF).unwrap();
    let without = parse_cnf("p cnf 3 4\n1 2 3 0\n-1 2 3 0\n1 -2 3 0\n1 2 -3").unwrap();
    assert_eq!(with, without);
}

#[test]
fn empty_problem_is_satisfiable() {
    let (problem, body) = parts("p cnf 200 0");
    assert!(body.clauses.is_empty());
    assert_eq!(values(solve_no_recursion(&problem, &body)), Some(vec![false; 200]));
    let (small, small_body) = parts("p cnf 20 0");
    assert_eq!(values(solve_with_recursion(&small, &small_body)), Some(vec![true; 20]));
}

#[test]
fn bad_header_is_a_parse_failure() {
    assert!(parse_cnf("p cnf 3").is_err());
}

#[test]
fn no_variables_no_clauses() {
    let (problem, body) = parts("p cnf 0 0");
    assert_eq!(values(solve_with_recursion(&problem, &body)), Some(vec![]));
    assert_eq!(values(solve_no_recursion(&problem, &body)), Some(vec![]));
}

#[test]
fn empty_clause_makes_unsatisfiable() {
    let (problem, body) = parts("p cnf 2 2\n1 2 0 0");
    assert!(values(solve_with_recursion(&problem, &body)).is_none());
    assert!(values(solve_no_recursion(&problem, &body)).is_none());
}

#[test]
fn strategies_agree_and_find_models() {
    let texts = [
        SIMPLE_CNF,
        "p cnf 1 2\n1 0\n-1 0",
        "p cnf 3 3\n-1 0\n-2 0\n3 0",
        "p cnf 2 4\n1 2 0\n-1 2 0\n1 -2 0\n-1 -2 0",
        "p cnf 4 3\n1 -2 0\n2 -3 0\n3 -4 0",
    ];
    for text in texts {
        let (problem, body) = parts(text);
        let a = values(solve(&problem, &body, Strategy::Recursion));
        let b = values(solve(&problem, &body, Strategy::NoRecursion));
        assert_eq!(a.is_some(), b.is_some());
        for model in a.iter().chain(b.iter()) {
            assert_eq!(model.len() as u64, problem.variables_count);
            assert!(satisfied(&body, model));
        }
    }
}

#[test]
fn search_orders_differ() {
    let (problem, body) = parts("p cnf 3 3\n-1 0\n-2 0\n3 0");
    assert_eq!(
        values(solve_with_recursion(&problem, &body)),
        Some(vec![false, false, true])
    );
    let (problem, body) = parts("p cnf 2 1\n1 2 0");
    assert_eq!(values(solve_with_recursion(&problem, &body)), Some(vec![true, true]));
    assert_eq!(values(solve_no_recursion(&problem, &body)), Some(vec![true, false]));
}

#[test]
fn searchable_checks_bounds() {
    let problem = Problem { clauses_count: 1, variables_count: 2 };
    let good = ProblemBody {
        clauses: vec![Clause { var_idxs: vec![Literal { negated: true, idx: 2 }] }],
    };
    let beyond = ProblemBody {
        clauses: vec![Clause { var_idxs: vec![Literal { negated: false, idx: 3 }] }],
    };
    let zero = ProblemBody {
        clauses: vec![Clause { var_idxs: vec![Literal { negated: false, idx: 0 }] }],
    };
    assert!(is_searchable(&problem, &good));
    assert!(!is_searchable(&problem, &beyond));
    assert!(!is_searchable(&problem, &zero));
}

#[test]
fn literal_forms_sign_each_variable() {
    assert_eq!(literal_forms(&vec![true, false, true]), vec![1, -2, 3]);
    assert_eq!(literal_forms(&vec![]), Vec::<i64>::new());
}
