//! A DPLL satisfiability solver for formulas in conjunctive normal form,
//! with unit propagation and case splitting proved against a model of
//! assignments.
pub mod cnf;
mod clause_set;
mod solver;
pub mod dimacs;

pub use clause_set::{Clause, ClauseSet, Literal, Variable};
pub use solver::dpll;
