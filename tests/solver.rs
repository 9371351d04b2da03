use dpll_sat::{dpll, Clause, ClauseSet};

fn formula(clauses: &[&[i32]]) -> ClauseSet {
    let mut set = ClauseSet::new();
    for c in clauses {
        set.add_clause(Clause::new(c.to_vec()));
    }
    set
}

#[test]
fn propagation_reaches_empty_formula() {
    let mut f = formula(&[&[1], &[-1, 2]]);
    f.propagate();
    assert!(f.empty_set());
    assert!(!f.empty_clause());
    assert!(dpll(formula(&[&[1], &[-1, 2]])));
}

#[test]
fn propagation_detects_contradiction() {
    let mut f = formula(&[&[1], &[-1]]);
    f.propagate();
    assert!(f.empty_clause());
    assert!(!f.empty_set());
}

#[test]
fn propagation_twice_is_propagation_once() {
    let mut once = formula(&[&[1, 2, 3], &[-1], &[-2, 3, 4], &[2, -4]]);
    once.propagate();
    let once_set = once.empty_set();
    let once_clause = once.empty_clause();
    let mut twice = formula(&[&[1, 2, 3], &[-1], &[-2, 3, 4], &[2, -4]]);
    twice.propagate();
    twice.propagate();
    assert_eq!(twice.empty_set(), once_set);
    assert_eq!(twice.empty_clause(), once_clause);
    let mut third = once.clone();
    third.propagate();
    assert_eq!(third.empty_set(), once_set);
}

#[test]
fn propagation_without_units_changes_nothing() {
    let mut f = formula(&[&[1, 2], &[-1, -2]]);
    f.propagate();
    assert!(!f.empty_set());
    assert!(!f.empty_clause());
    let l = f.select_literal();
    assert!(l == 1 || l == 2 || l == -1 || l == -2);
}

#[test]
fn scenario_unit_and_negation_is_unsatisfiable() {
    assert!(!dpll(formula(&[&[1], &[-1]])));
}

#[test]
fn scenario_chain_of_units_is_unsatisfiable() {
    assert!(!dpll(formula(&[&[1, 2], &[-1, 2], &[-2]])));
}

#[test]
fn scenario_single_binary_clause_is_satisfiable() {
    assert!(dpll(formula(&[&[1, 2]])));
}

#[test]
fn scenario_empty_formula_is_satisfiable() {
    let f = ClauseSet::new();
    assert!(f.empty_set());
    assert!(dpll(f));
}

#[test]
fn branches_agree_when_first_fails() {
    // Asserting 1 fails; the answer is that of asserting -1.
    let base: &[&[i32]] = &[&[1, 2], &[-2], &[-1, 3], &[-3, -1]];
    let mut with_pos = formula(base);
    with_pos.add_clause(Clause::new_unit(1));
    let mut with_neg = formula(base);
    with_neg.add_clause(Clause::new_unit(-1));
    assert!(!dpll(with_pos));
    assert_eq!(dpll(formula(base)), dpll(with_neg));
}

#[test]
fn pigeonhole_three_into_two_is_unsatisfiable() {
    // Pigeon p in hole h is variable 2 * p + h + 1.
    let f = formula(&[
        &[1, 2], &[3, 4], &[5, 6],
        &[-1, -3], &[-1, -5], &[-3, -5],
        &[-2, -4], &[-2, -6], &[-4, -6],
    ]);
    assert!(!dpll(f));
}

#[test]
fn satisfiable_formula_needing_branches() {
    let f = formula(&[&[1, 2, 3], &[-1, -2], &[-2, -3], &[-1, -3], &[1, -2, 3], &[-1, 2, -3]]);
    assert!(dpll(f));
}

#[test]
fn tautological_clause_keeps_answer() {
    assert!(dpll(formula(&[&[1, -1], &[-1]])));
    assert!(!dpll(formula(&[&[1, -1, 2], &[-2], &[1], &[-1]])));
}

#[test]
fn large_literals_are_kept_apart() {
    // 70000 and 4464 must not be confused for one variable.
    assert!(dpll(formula(&[&[70000], &[-4464]])));
}

#[test]
fn remove_last_clause_undoes_add() {
    let mut f = formula(&[&[1, 2]]);
    f.add_clause(Clause::new_unit(-1));
    f.add_clause(Clause::new_unit(-2));
    assert!(!dpll(f.clone()));
    f.remove_last_clause();
    assert!(dpll(f));
}

#[test]
fn clause_from_values_drops_terminator_and_duplicates() {
    let c = Clause::from_values(&vec![3, -1, 3, 0]);
    assert!(c.is_some());
    let mut f = ClauseSet::new();
    f.add_clause(c.unwrap());
    f.add_clause(Clause::new_unit(1));
    f.add_clause(Clause::new_unit(-3));
    assert!(!dpll(f));
}

#[test]
fn clause_from_values_rejects_empty_and_out_of_range() {
    assert!(Clause::from_values(&vec![0]).is_none());
    assert!(Clause::from_values(&vec![]).is_none());
    assert!(Clause::from_values(&vec![2, i32::MIN, 0]).is_none());
}

#[test]
fn select_literal_comes_from_a_clause() {
    let f = formula(&[&[4, -7]]);
    for _ in 0..20 {
        let l = f.select_literal();
        assert_eq!(l, 4);
    }
}
