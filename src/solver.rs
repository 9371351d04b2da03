//! The DPLL search.
use vstd::prelude::*;
use crate::cnf::{
    valid_literal, satisfiable, all_true, formula_satisfiable, propagated, size, with_unit,
    touches, lemma_propagated, lemma_branch_shrinks, lemma_branch_split,
};
use crate::clause_set::{Clause, ClauseSet};

verus! {

/// Decides the formula by DPLL: propagate, stop on an empty formula or a
/// contradiction, otherwise branch on a literal, first asserting it and then,
/// if that fails, its negation.
pub fn dpll(clauses: ClauseSet) -> (r: bool)
    requires
        clauses.wf(),
    ensures
        r == formula_satisfiable(clauses.model()),
    decreases size(propagated(clauses.model()).clauses),
{
    let ghost start = clauses.model();
    let mut clauses = clauses;
    clauses.propagate();
    let ghost f = clauses.model();
    proof {
        lemma_propagated(start);
    }
    if clauses.empty_set() {
        proof {
            let a = |x: int| true;
            assert(all_true(a, f.clauses));
            assert(satisfiable(f.clauses));
        }
        return true;
    }
    if clauses.empty_clause() {
        return false;
    }
    let literal = clauses.select_literal();
    let ghost k = choose|k: int| 0 <= k < f.clauses.len() && (#[trigger] f.clauses[k]).contains(literal);
    proof {
        assert(touches(f.clauses[k], literal));
        assert(touches(f.clauses[k], (-literal) as i32));
        lemma_branch_shrinks(f, literal, k);
        lemma_branch_shrinks(f, (-literal) as i32, k);
        lemma_branch_split(f, literal);
    }
    clauses.add_clause(Clause::new_unit(literal));
    if dpll(clauses.clone()) {
        return true;
    }
    clauses.remove_last_clause();
    proof {
        assert(clauses.model().clauses =~= f.clauses);
    }
    clauses.add_clause(Clause::new_unit(-literal));
    dpll(clauses)
}

} // verus!
