use cnf_sat::parser::{parse_cnf, parse_problem, Clause, Literal, ParseError, Problem};

const SIMPLE_CNF: &str = "p cnf 3 4\n\
                          1 2 3 0\n\
                         -1 2 3 0\n\
                          1 -2 3 0\n\
                          1 2 -3 0";

const CNF_NO_PROBLEM: &str = "\
                          1 2 3 0\n\
                         -1 2 3 0\n\
                          1 -2 3 0\n\
                          1 2 -3 0";

const SIMPLE_CNF_COMMENTS: &str = "c this is a comment\n\
                          c THIS is a different comment\n\
                          cp also comment\n\
                          p cnf 3 4\n\
                          1 2 3 0\n\
                         -1 2 3 0\n\
                          1 -2 3 0\n\
                          1 2 -3 0";

const SIMPLE_CNF_ENDS_NEWLINE: &str = "p cnf 3 4\n\
                          1 2 3 0\n\
                         -1 2 3 0\n\
                          1 -2 3 0\n\
                          1 2 -3 0\n";

const SIMPLE_CNF_NO_ZERO: &str = "p cnf 3 4\n\
                          1 2 3 0\n\
                         -1 2 3 0\n\
                          1 -2 3 0\n\
                          1 2 -3";

const EMPTY_CNF: &str = "p cnf 200 0";

fn lit(negated: bool, idx: u64) -> Literal {
    Literal { negated, idx }
}

fn parsed_simple_cnf() -> Problem {
    Problem {
        variables_count: 3,
        clauses: vec![
            Clause { var_idxs: vec![lit(false, 1), lit(false, 2), lit(false, 3)] },
            Clause { var_idxs: vec![lit(true, 1), lit(false, 2), lit(false, 3)] },
            Clause { var_idxs: vec![lit(false, 1), lit(true, 2), lit(false, 3)] },
            Clause { var_idxs: vec![lit(false, 1), lit(false, 2), lit(true, 3)] },
        ],
    }
}

#[test]
fn simple_cnf() {
    assert_eq!(parsed_simple_cnf(), parse_cnf(SIMPLE_CNF).unwrap());
    assert_eq!(
        parsed_simple_cnf(),
        parse_cnf(SIMPLE_CNF_ENDS_NEWLINE).unwrap()
    );
}

#[test]
fn empty_cnf() {
    let expected = Problem {
        variables_count: 200,
        clauses: vec![],
    };
    assert_eq!(expected, parse_cnf(EMPTY_CNF).unwrap());
}

#[test]
fn no_zero_in_end() {
    assert_eq!(parsed_simple_cnf(), parse_cnf(SIMPLE_CNF_NO_ZERO).unwrap());
}

#[test]
fn has_comments() {
    assert_eq!(parsed_simple_cnf(), parse_cnf(SIMPLE_CNF_COMMENTS).unwrap());
}

#[test]
fn no_problem_error() {
    let error = parse_cnf(CNF_NO_PROBLEM).unwrap_err();
    assert_eq!(error, "File should contain a line starting with 'p ...'");
}

#[test]
fn parsing_twice_gives_equal_problems() {
    assert_eq!(parse_cnf(SIMPLE_CNF).unwrap(), parse_cnf(SIMPLE_CNF).unwrap());
    assert_eq!(parse_cnf("p cnf 3").unwrap_err(), parse_cnf("p cnf 3").unwrap_err());
}

#[test]
fn clauses_may_share_and_span_lines() {
    let text = "p cnf 3 4\n1 2 3 0 -1 2\n3 0 1 -2 3 0\r\n1 2 -3 0\n";
    assert_eq!(parsed_simple_cnf(), parse_cnf(text).unwrap());
}

#[test]
fn multi_digit_indices_hold_zero_digits() {
    let problem = parse_cnf("p cnf 20 2\n10 -20 0\n+3 0").unwrap();
    assert_eq!(problem.variables_count, 20);
    assert_eq!(problem.clauses.len(), 2);
    assert_eq!(problem.clauses[0].var_idxs, vec![lit(false, 10), lit(true, 20)]);
    assert_eq!(problem.clauses[1].var_idxs, vec![lit(false, 3)]);
}

#[test]
fn only_the_first_problem_line_counts() {
    let problem = parse_cnf("c p cnf 9 9\np cnf 1 1\n1 0").unwrap();
    assert_eq!(problem.variables_count, 1);
    assert_eq!(problem.clauses.len(), 1);
}

#[test]
fn header_missing_a_count_is_an_error() {
    assert_eq!(
        parse_problem("p cnf 3").unwrap_err(),
        ParseError::HeaderWordCount { found: 3 }
    );
    assert_eq!(
        parse_cnf("p cnf 3").unwrap_err(),
        "Problem description contains unexpected amount of words: 3"
    );
}

#[test]
fn header_without_cnf_is_an_error() {
    assert_eq!(parse_problem("p dnf 3 1\n1 0").unwrap_err(), ParseError::HeaderNotCnf);
}

#[test]
fn header_with_bad_counts_is_an_error() {
    assert_eq!(parse_problem("p cnf x 1\n1 0").unwrap_err(), ParseError::BadVariablesCount);
    assert_eq!(parse_problem("p cnf 1 -1\n1 0").unwrap_err(), ParseError::BadClausesCount);
    assert_eq!(
        parse_problem("p cnf 18446744073709551616 1\n1 0").unwrap_err(),
        ParseError::BadVariablesCount
    );
}

#[test]
fn largest_counts_are_accepted() {
    let problem = parse_problem("p cnf 18446744073709551615 0").unwrap();
    assert_eq!(problem.variables_count, u64::MAX);
}

#[test]
fn malformed_literal_is_an_error() {
    assert_eq!(
        parse_problem("p cnf 3 1\n1 x 3 0").unwrap_err(),
        ParseError::BadLiteral { position: 2 }
    );
    assert_eq!(
        parse_cnf("p cnf 3 1\n1 x 3 0").unwrap_err(),
        "Could not parse literal at token 2"
    );
}

#[test]
fn zero_valued_literal_is_an_error() {
    assert_eq!(
        parse_problem("p cnf 3 1\n1 -0 3 0").unwrap_err(),
        ParseError::ZeroLiteral { position: 2 }
    );
}

#[test]
fn out_of_bound_literal_is_an_error() {
    assert_eq!(
        parse_problem("p cnf 3 2\n1 2 0\n-4 1 0").unwrap_err(),
        ParseError::OutOfBound { idx: 4 }
    );
    assert_eq!(
        parse_cnf("p cnf 3 2\n1 2 0\n-4 1 0").unwrap_err(),
        "Idx 4 is out of bounds for problem"
    );
}

#[test]
fn out_of_bound_comes_before_count_mismatch() {
    assert_eq!(
        parse_problem("p cnf 2 5\n1 2 3 0").unwrap_err(),
        ParseError::OutOfBound { idx: 3 }
    );
}

#[test]
fn clause_count_mismatch_is_an_error() {
    assert_eq!(
        parse_problem("p cnf 3 3\n1 0 2 0").unwrap_err(),
        ParseError::ClauseCountMismatch { expected: 3, actual: 2 }
    );
    assert_eq!(
        parse_cnf("p cnf 3 3\n1 0 2 0").unwrap_err(),
        "Problem clauses count does not match actual clauses count: 3 vs 2"
    );
}

#[test]
fn only_one_trailing_empty_segment_is_dropped() {
    let problem = parse_problem("p cnf 1 2\n1 0 0").unwrap();
    assert_eq!(problem.clauses.len(), 2);
    assert!(problem.clauses[1].var_idxs.is_empty());
    assert_eq!(
        parse_problem("p cnf 1 1\n1 0 0").unwrap_err(),
        ParseError::ClauseCountMismatch { expected: 1, actual: 2 }
    );
}

#[test]
fn literal_extremes() {
    assert_eq!(
        parse_problem("p cnf 3 1\n-9223372036854775808 0").unwrap_err(),
        ParseError::OutOfBound { idx: 9223372036854775808 }
    );
    assert_eq!(
        parse_problem("p cnf 3 1\n9223372036854775808 0").unwrap_err(),
        ParseError::BadLiteral { position: 1 }
    );
}

#[test]
fn messages_name_the_values() {
    assert_eq!(ParseError::HeaderNotP.message(), "Problem does not start with p");
    assert_eq!(
        ParseError::ZeroLiteral { position: 107 }.message(),
        "Idx 0 is invalid at token 107"
    );
    assert_eq!(
        ParseError::ClauseCountMismatch { expected: 0, actual: 18446744073709551615 }.message(),
        "Problem clauses count does not match actual clauses count: 0 vs 18446744073709551615"
    );
}

#[test]
fn non_ascii_comments_and_unicode_whitespace() {
    let problem = parse_cnf("c héllo wörld\np cnf 2 1\n1\u{a0}-2\u{3000}0").unwrap();
    assert_eq!(problem.variables_count, 2);
    assert_eq!(problem.clauses.len(), 1);
    assert_eq!(problem.clauses[0].var_idxs, vec![lit(false, 1), lit(true, 2)]);
}

#[test]
fn problem_line_must_start_a_line() {
    assert_eq!(
        parse_problem("c x p cnf 1 1\n1 0").unwrap_err(),
        ParseError::MissingProblemLine
    );
    assert_eq!(parse_problem("p\ncnf 1 1").unwrap_err(), ParseError::MissingProblemLine);
}
