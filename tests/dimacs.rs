use dpll_sat::dimacs::{parse_dimacs, parse_int, tokenize, DimacsError};
use dpll_sat::dpll;

fn lines(text: &str) -> Vec<Vec<u8>> {
    text.split('\n').map(|l| l.as_bytes().to_vec()).collect()
}

#[test]
fn parse_int_reads_signed_decimals() {
    assert_eq!(parse_int(&b"42".to_vec()), Some(42));
    assert_eq!(parse_int(&b"-17".to_vec()), Some(-17));
    assert_eq!(parse_int(&b"0".to_vec()), Some(0));
    assert_eq!(parse_int(&b"2147483647".to_vec()), Some(2147483647));
    assert_eq!(parse_int(&b"-2147483647".to_vec()), Some(-2147483647));
    assert_eq!(parse_int(&b"-2147483648".to_vec()), None);
    assert_eq!(parse_int(&b"2147483648".to_vec()), None);
    assert_eq!(parse_int(&b"".to_vec()), None);
    assert_eq!(parse_int(&b"-".to_vec()), None);
    assert_eq!(parse_int(&b"1x".to_vec()), None);
}

#[test]
fn tokenize_splits_on_whitespace() {
    let t = tokenize(&b"  p cnf\t3  2\r".to_vec());
    assert_eq!(t, vec![b"p".to_vec(), b"cnf".to_vec(), b"3".to_vec(), b"2".to_vec()]);
    assert!(tokenize(&b"   ".to_vec()).is_empty());
}

#[test]
fn end_to_end_unsatisfiable_pair() {
    let f = parse_dimacs(&lines("c example\np cnf 1 2\n1 0\n-1 0\n")).unwrap();
    assert!(!dpll(f));
}

#[test]
fn end_to_end_chain_is_unsatisfiable() {
    let f = parse_dimacs(&lines("p cnf 2 3\n\n1 2 0\n-1 2 0\nc between\n-2 0\n")).unwrap();
    assert!(!dpll(f));
}

#[test]
fn end_to_end_single_clause_is_satisfiable() {
    let f = parse_dimacs(&lines("p cnf 2 1\n1 2 0\n")).unwrap();
    assert!(dpll(f));
}

#[test]
fn zero_clauses_declared_is_satisfiable() {
    let f = parse_dimacs(&lines("p cnf 0 0\n")).unwrap();
    assert!(f.empty_set());
    assert!(dpll(f));
}

#[test]
fn lines_after_the_declared_clauses_are_ignored() {
    let f = parse_dimacs(&lines("p cnf 1 1\n1 0\n-1 0\nnot a clause\n")).unwrap();
    assert!(dpll(f));
}

#[test]
fn malformed_inputs_are_rejected() {
    assert_eq!(parse_dimacs(&lines("p dnf 1 1\n1 0\n")).err(), Some(DimacsError::NotCnf));
    assert_eq!(parse_dimacs(&lines("p cnf 1\n")).err(), Some(DimacsError::NotCnf));
    assert_eq!(parse_dimacs(&lines("p cnf 1 x\n")).err(), Some(DimacsError::BadNumber));
    assert_eq!(parse_dimacs(&lines("p cnf 1 -1\n")).err(), Some(DimacsError::BadNumber));
    assert_eq!(parse_dimacs(&lines("p cnf 1 1\n1 a 0\n")).err(), Some(DimacsError::BadNumber));
    assert_eq!(parse_dimacs(&lines("1 0\np cnf 1 1\n")).err(), Some(DimacsError::NoProblemLine));
    assert_eq!(parse_dimacs(&lines("c only a comment\n")).err(), Some(DimacsError::NoProblemLine));
    assert_eq!(parse_dimacs(&lines("p cnf 1 2\np cnf 1 2\n")).err(), Some(DimacsError::SecondProblemLine));
    assert_eq!(parse_dimacs(&lines("p cnf 1 1\n0\n")).err(), Some(DimacsError::EmptyClause));
    assert_eq!(parse_dimacs(&lines("p cnf 2 2\n1 0\n")).err(), Some(DimacsError::Truncated));
}
