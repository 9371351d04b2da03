//! The model of formulas in conjunctive normal form: assignments,
//! satisfiability, one round of unit simplification, propagation to a fixed
//! point, and the laws that the solver rests on.
use vstd::prelude::*;
use vstd::set_lib::{set_int_range, lemma_int_range, lemma_len_subset};

verus! {

/// A literal is valid when it is non-zero and its negation is representable.
pub open spec fn valid_literal(l: i32) -> bool {
    l != 0 && l != i32::MIN
}

/// The distinct non-zero values, in order of first occurrence.
pub open spec fn distinct_nonzero(s: Seq<i32>) -> Seq<i32>
    decreases s.len(),
{
    if s.len() == 0 {
        s
    } else if s.last() == 0 || distinct_nonzero(s.drop_last()).contains(s.last()) {
        distinct_nonzero(s.drop_last())
    } else {
        distinct_nonzero(s.drop_last()).push(s.last())
    }
}

/// The magnitude of a literal: the variable it speaks of.
pub open spec fn var_of(l: int) -> int {
    if l >= 0 { l } else { -l }
}

/// A clause as a sequence of literals: distinct, each valid.
pub open spec fn valid_clause(c: Seq<i32>) -> bool {
    &&& c.no_duplicates()
    &&& forall|j: int| 0 <= j < c.len() ==> valid_literal(#[trigger] c[j])
}

/// Under assignment `a` (variable to truth value), literal `l` is true.
pub open spec fn literal_true(a: spec_fn(int) -> bool, l: int) -> bool {
    if l > 0 { a(l) } else { !a(-l) }
}

/// Some literal of the clause is true under `a`.
pub open spec fn clause_true(a: spec_fn(int) -> bool, c: Seq<i32>) -> bool {
    exists|l: i32| c.contains(l) && literal_true(a, l as int)
}

/// Every clause is true under `a`.
pub open spec fn all_true(a: spec_fn(int) -> bool, cs: Seq<Seq<i32>>) -> bool {
    forall|i: int| 0 <= i < cs.len() ==> clause_true(a, #[trigger] cs[i])
}

/// Some assignment makes every clause true.
pub open spec fn satisfiable(cs: Seq<Seq<i32>>) -> bool {
    exists|a: spec_fn(int) -> bool| all_true(a, cs)
}

/// The clause with every occurrence of `v` taken out, order kept.
pub open spec fn without(c: Seq<i32>, v: i32) -> Seq<i32>
    decreases c.len(),
{
    if c.len() == 0 {
        c
    } else if c.last() == v {
        without(c.drop_last(), v)
    } else {
        without(c.drop_last(), v).push(c.last())
    }
}

/// The positive literal of `v` is in the clause (whether or not the
/// negative one is too).
pub open spec fn mentions_positively(c: Seq<i32>, v: int) -> bool {
    c.contains(v as i32)
}

/// Only the negative literal of `v` is in the clause.
pub open spec fn mentions_negatively(c: Seq<i32>, v: int) -> bool {
    !c.contains(v as i32) && c.contains((-v) as i32)
}

/// The clause is satisfied by asserting `u`: it mentions `u`'s variable with
/// the polarity of `u`, positive mention taking precedence. A clause that
/// holds both `v` and `-v` is thus satisfied by asserting `v`, while
/// asserting `-v` only takes `v` out of it; either way it stays true under
/// every assignment that makes the asserted literal true.
pub open spec fn satisfied_by_unit(c: Seq<i32>, u: i32) -> bool {
    if u > 0 {
        mentions_positively(c, var_of(u as int))
    } else {
        mentions_negatively(c, var_of(u as int))
    }
}

/// The clauses after asserting the unit literal `u`: those satisfied by `u`
/// leave, the others lose every occurrence of `-u`; order is kept.
pub open spec fn simplify(cs: Seq<Seq<i32>>, u: i32) -> Seq<Seq<i32>>
    decreases cs.len(),
{
    if cs.len() == 0 {
        cs
    } else if satisfied_by_unit(cs.last(), u) {
        simplify(cs.drop_last(), u)
    } else {
        simplify(cs.drop_last(), u).push(without(cs.last(), (-u) as i32))
    }
}

/// The number of literal occurrences in all clauses.
pub open spec fn size(cs: Seq<Seq<i32>>) -> nat
    decreases cs.len(),
{
    if cs.len() == 0 {
        0
    } else {
        size(cs.drop_last()) + cs.last().len()
    }
}

/// The index of the first unit clause at or after `k`.
pub open spec fn first_unit_from(cs: Seq<Seq<i32>>, k: int) -> Option<int>
    decreases cs.len() - k,
{
    if k < 0 || k >= cs.len() {
        None
    } else if cs[k].len() == 1 {
        Some(k)
    } else {
        first_unit_from(cs, k + 1)
    }
}

/// The index of the first unit clause.
pub open spec fn first_unit(cs: Seq<Seq<i32>>) -> Option<int> {
    first_unit_from(cs, 0)
}

/// Some unit clause holds exactly the negation of `u`.
pub open spec fn has_conflict(cs: Seq<Seq<i32>>, u: i32) -> bool {
    exists|j: int| 0 <= j < cs.len() && cs[j].len() == 1 && cs[j][0] as int == -(u as int)
}

/// The abstract state of a formula: its clauses, and whether propagation
/// has derived the empty clause.
pub struct Cnf {
    pub clauses: Seq<Seq<i32>>,
    pub contradiction: bool,
}

/// The formula has a model: no contradiction was derived and some
/// assignment satisfies every clause.
pub open spec fn formula_satisfiable(f: Cnf) -> bool {
    !f.contradiction && satisfiable(f.clauses)
}

/// The formula with the unit clause `[l]` appended.
pub open spec fn with_unit(f: Cnf, l: i32) -> Cnf {
    Cnf { clauses: f.clauses.push(seq![l]), contradiction: f.contradiction }
}

/// Unit propagation to a fixed point: while clauses remain and one of them
/// is a unit `[u]`, either a unit `[-u]` is present too, and the
/// contradiction is recorded with the clauses left as they were, or the
/// clauses are simplified by `u`.
pub open spec fn propagated(f: Cnf) -> Cnf
    decreases size(f.clauses),
    via propagated_decreases
{
    if f.clauses.len() == 0 {
        f
    } else {
        match first_unit(f.clauses) {
            None => f,
            Some(i) => {
                let u = f.clauses[i][0];
                if !valid_literal(u) {
                    f
                } else if has_conflict(f.clauses, u) {
                    Cnf { clauses: f.clauses, contradiction: true }
                } else {
                    propagated(Cnf { clauses: simplify(f.clauses, u), contradiction: f.contradiction })
                }
            }
        }
    }
}

#[via_fn]
proof fn propagated_decreases(f: Cnf) {
    if f.clauses.len() != 0 {
        if let Some(i) = first_unit(f.clauses) {
            let u = f.clauses[i][0];
            if valid_literal(u) && !has_conflict(f.clauses, u) {
                lemma_first_unit_from(f.clauses, 0);
                assert(f.clauses[i].contains(u));
                lemma_simplify_size(f.clauses, u);
            }
        }
    }
}

pub proof fn lemma_first_unit_from(cs: Seq<Seq<i32>>, k: int)
    requires
        0 <= k,
    ensures
        first_unit_from(cs, k) matches Some(i) ==> k <= i < cs.len() && cs[i].len() == 1,
        first_unit_from(cs, k) is None ==> forall|j: int| k <= j < cs.len() ==> cs[j].len() != 1,
    decreases cs.len() - k,
{
    if k < cs.len() && cs[k].len() != 1 {
        lemma_first_unit_from(cs, k + 1);
    }
}

pub proof fn lemma_without_contains(c: Seq<i32>, v: i32)
    ensures
        forall|x: i32| #[trigger] without(c, v).contains(x) <==> (c.contains(x) && x != v),
    decreases c.len(),
{
    if c.len() > 0 {
        let d = c.drop_last();
        let w = without(d, v);
        lemma_without_contains(d, v);
        assert(c =~= d.push(c.last()));
        assert forall|x: i32| #[trigger] without(c, v).contains(x) <==> (c.contains(x) && x != v) by {
            if c.contains(x) && x != v {
                let j = choose|j: int| 0 <= j < c.len() && c[j] == x;
                if j < c.len() - 1 {
                    assert(d[j] == x);
                    assert(w.contains(x));
                    if c.last() != v {
                        let k = choose|k: int| 0 <= k < w.len() && w[k] == x;
                        assert(w.push(c.last())[k] == x);
                    }
                } else {
                    assert(w.push(c.last())[w.len() as int] == x);
                }
            }
            if without(c, v).contains(x) {
                if c.last() != v {
                    let j = choose|j: int| 0 <= j < w.len() + 1 && w.push(c.last())[j] == x;
                    if j < w.len() {
                        assert(w[j] == x);
                    }
                }
                if w.contains(x) {
                    let j = choose|j: int| 0 <= j < d.len() && d[j] == x;
                    assert(c[j] == x);
                }
            }
        }
    }
}

pub proof fn lemma_without_len(c: Seq<i32>, v: i32)
    ensures
        without(c, v).len() <= c.len(),
        c.contains(v) ==> without(c, v).len() < c.len(),
        c.no_duplicates() && c.contains(v) ==> without(c, v).len() == c.len() - 1,
        c.no_duplicates() ==> without(c, v).no_duplicates(),
        !c.contains(v) ==> without(c, v) == c,
    decreases c.len(),
{
    if c.len() > 0 {
        let d = c.drop_last();
        lemma_without_len(d, v);
        lemma_without_contains(d, v);
        assert(c =~= d.push(c.last()));
        if c.contains(v) && c.last() != v {
            let j = choose|j: int| 0 <= j < c.len() && c[j] == v;
            assert(d[j] == v);
        }
        if c.no_duplicates() {
            assert(d.no_duplicates()) by {
                assert forall|i: int, j: int| 0 <= i < j < d.len() implies d[i] != d[j] by {
                    assert(c[i] != c[j]);
                }
            }
            if c.last() == v {
                assert(!d.contains(v)) by {
                    if d.contains(v) {
                        let j = choose|j: int| 0 <= j < d.len() && d[j] == v;
                        assert(c[j] == c[c.len() - 1]);
                    }
                }
            } else {
                assert(!without(d, v).contains(c.last())) by {
                    if d.contains(c.last()) {
                        let j = choose|j: int| 0 <= j < d.len() && d[j] == c.last();
                        assert(c[j] == c[c.len() - 1]);
                    }
                }
                let w = without(d, v);
                assert(w.push(c.last()).no_duplicates()) by {
                    assert forall|i: int, j: int| 0 <= i < j < w.len() + 1 implies w.push(c.last())[i] != w.push(c.last())[j] by {
                        if j == w.len() {
                            assert(w.contains(w[i]));
                        }
                    }
                }
            }
        }
        if !c.contains(v) {
            assert(!d.contains(v)) by {
                if d.contains(v) {
                    let j = choose|j: int| 0 <= j < d.len() && d[j] == v;
                    assert(c[j] == v);
                }
            }
        }
    }
}

/// A clause that mentions `u` or `-u` loses at least one literal occurrence
/// when simplified by `u`.
pub open spec fn touches(c: Seq<i32>, u: i32) -> bool {
    c.contains(u) || c.contains((-u) as i32)
}

pub proof fn lemma_simplify_size(cs: Seq<Seq<i32>>, u: i32)
    requires
        valid_literal(u),
    ensures
        size(simplify(cs, u)) <= size(cs),
        (exists|i: int| 0 <= i < cs.len() && touches(#[trigger] cs[i], u)) ==> size(simplify(cs, u)) < size(cs),
    decreases cs.len(),
{
    if cs.len() > 0 {
        let d = cs.drop_last();
        let c = cs.last();
        lemma_simplify_size(d, u);
        lemma_without_len(c, (-u) as i32);
        assert(cs.drop_last() == d);
        if !satisfied_by_unit(c, u) {
            let w = without(c, (-u) as i32);
            assert(simplify(d, u).push(w).drop_last() =~= simplify(d, u));
        }
        if exists|i: int| 0 <= i < cs.len() && touches(#[trigger] cs[i], u) {
            let i = choose|i: int| 0 <= i < cs.len() && touches(#[trigger] cs[i], u);
            if i < cs.len() - 1 {
                assert(touches(d[i], u));
            } else {
                assert(c.len() > 0);
                if c.contains(u) && !satisfied_by_unit(c, u) {
                    assert(c.contains((-u) as i32));
                }
            }
        }
    }
}

/// Every clause is valid and non-empty.
pub open spec fn wf_clauses(cs: Seq<Seq<i32>>) -> bool {
    forall|i: int| 0 <= i < cs.len() ==> valid_clause(#[trigger] cs[i]) && cs[i].len() > 0
}

proof fn lemma_all_true_push(a: spec_fn(int) -> bool, s: Seq<Seq<i32>>, x: Seq<i32>)
    ensures
        all_true(a, s.push(x)) <==> (all_true(a, s) && clause_true(a, x)),
{
    if all_true(a, s.push(x)) {
        assert(clause_true(a, s.push(x)[s.len() as int]));
        assert forall|i: int| 0 <= i < s.len() implies clause_true(a, #[trigger] s[i]) by {
            assert(clause_true(a, s.push(x)[i]));
        }
    }
}

proof fn lemma_negation_false(a: spec_fn(int) -> bool, u: i32)
    requires
        valid_literal(u),
    ensures
        literal_true(a, -(u as int)) == !literal_true(a, u as int),
        ((-u) as i32) as int == -(u as int),
{
}

proof fn lemma_satisfied_contains(c: Seq<i32>, u: i32)
    requires
        valid_literal(u),
    ensures
        satisfied_by_unit(c, u) ==> c.contains(u),
        !satisfied_by_unit(c, u) && c.contains(u) ==> c.contains((-u) as i32),
{
}

/// Under an assignment that makes `u` true, simplifying by `u` keeps
/// exactly the models of the clauses.
proof fn lemma_simplify_sound(a: spec_fn(int) -> bool, cs: Seq<Seq<i32>>, u: i32)
    requires
        valid_literal(u),
        literal_true(a, u as int),
    ensures
        all_true(a, cs) <==> all_true(a, simplify(cs, u)),
    decreases cs.len(),
{
    if cs.len() > 0 {
        let d = cs.drop_last();
        let c = cs.last();
        lemma_simplify_sound(a, d, u);
        assert(cs =~= d.push(c));
        lemma_all_true_push(a, d, c);
        lemma_satisfied_contains(c, u);
        lemma_negation_false(a, u);
        if satisfied_by_unit(c, u) {
            assert(clause_true(a, c));
        } else {
            let w = without(c, (-u) as i32);
            lemma_all_true_push(a, simplify(d, u), w);
            lemma_without_contains(c, (-u) as i32);
            if clause_true(a, c) {
                let l = choose|l: i32| c.contains(l) && literal_true(a, l as int);
                assert(w.contains(l));
            }
            if clause_true(a, w) {
                let l = choose|l: i32| w.contains(l) && literal_true(a, l as int);
                assert(c.contains(l));
            }
        }
    }
}

proof fn lemma_simplify_excludes(cs: Seq<Seq<i32>>, u: i32)
    ensures
        forall|i: int| 0 <= i < simplify(cs, u).len() ==> !(#[trigger] simplify(cs, u)[i]).contains((-u) as i32),
    decreases cs.len(),
{
    if cs.len() > 0 {
        let d = cs.drop_last();
        lemma_simplify_excludes(d, u);
        lemma_without_contains(cs.last(), (-u) as i32);
        if !satisfied_by_unit(cs.last(), u) {
            let s = simplify(d, u).push(without(cs.last(), (-u) as i32));
            assert forall|i: int| 0 <= i < s.len() implies !(#[trigger] s[i]).contains((-u) as i32) by {
                if i < s.len() - 1 {
                    assert(s[i] == simplify(d, u)[i]);
                }
            }
        }
    }
}

/// Propagating a unit literal loses no model: where `[u]` is one of the
/// clauses, an assignment satisfies them exactly when it makes `u` true and
/// satisfies the clauses simplified by `u`; and the clauses have a model
/// exactly when the simplified ones have one.
pub proof fn lemma_unit_step_sound(cs: Seq<Seq<i32>>, u: i32, i: int)
    requires
        valid_literal(u),
        0 <= i < cs.len(),
        cs[i].len() == 1,
        cs[i][0] == u,
    ensures
        forall|a: spec_fn(int) -> bool|
            #[trigger] all_true(a, cs) <==> (literal_true(a, u as int) && all_true(a, simplify(cs, u))),
        satisfiable(cs) == satisfiable(simplify(cs, u)),
{
    assert forall|a: spec_fn(int) -> bool|
        #[trigger] all_true(a, cs) <==> (literal_true(a, u as int) && all_true(a, simplify(cs, u))) by {
        if all_true(a, cs) {
            assert(clause_true(a, cs[i]));
            let l = choose|l: i32| cs[i].contains(l) && literal_true(a, l as int);
            assert(l == u);
        }
        if literal_true(a, u as int) {
            lemma_simplify_sound(a, cs, u);
        }
    }
    if satisfiable(simplify(cs, u)) {
        let a = choose|a: spec_fn(int) -> bool| all_true(a, simplify(cs, u));
        let b = |x: int| if x == var_of(u as int) { u > 0 } else { a(x) };
        let s = simplify(cs, u);
        lemma_simplify_excludes(cs, u);
        assert forall|k: int| 0 <= k < s.len() implies clause_true(b, #[trigger] s[k]) by {
            assert(clause_true(a, s[k]));
            let l = choose|l: i32| s[k].contains(l) && literal_true(a, l as int);
            if var_of(l as int) == var_of(u as int) {
                assert(l == u);
            }
            assert(literal_true(b, l as int));
        }
        assert(literal_true(b, u as int));
        lemma_simplify_sound(b, cs, u);
        assert(all_true(b, cs));
    }
}

proof fn lemma_conflict_unsat(cs: Seq<Seq<i32>>, u: i32, i: int)
    requires
        valid_literal(u),
        0 <= i < cs.len(),
        cs[i].len() == 1,
        cs[i][0] == u,
        has_conflict(cs, u),
    ensures
        !satisfiable(cs),
{
    let j = choose|j: int| 0 <= j < cs.len() && cs[j].len() == 1 && cs[j][0] as int == -(u as int);
    assert forall|a: spec_fn(int) -> bool| !all_true(a, cs) by {
        lemma_negation_false(a, u);
        if all_true(a, cs) {
            assert(clause_true(a, cs[i]));
            assert(clause_true(a, cs[j]));
            let l = choose|l: i32| cs[i].contains(l) && literal_true(a, l as int);
            let m = choose|m: i32| cs[j].contains(m) && literal_true(a, m as int);
            assert(l == u);
            assert(m as int == -(u as int));
        }
    }
}

pub(crate) proof fn lemma_simplify_wf(cs: Seq<Seq<i32>>, u: i32)
    requires
        wf_clauses(cs),
        valid_literal(u),
        !has_conflict(cs, u),
    ensures
        wf_clauses(simplify(cs, u)),
    decreases cs.len(),
{
    if cs.len() > 0 {
        let d = cs.drop_last();
        let c = cs.last();
        assert(!has_conflict(d, u)) by {
            if has_conflict(d, u) {
                let j = choose|j: int| 0 <= j < d.len() && d[j].len() == 1 && d[j][0] as int == -(u as int);
                assert(cs[j] == d[j]);
            }
        }
        lemma_simplify_wf(d, u);
        assert(valid_clause(cs[cs.len() - 1]));
        if !satisfied_by_unit(c, u) {
            let w = without(c, (-u) as i32);
            lemma_without_len(c, (-u) as i32);
            lemma_without_contains(c, (-u) as i32);
            assert forall|j: int| 0 <= j < w.len() implies valid_literal(#[trigger] w[j]) by {
                assert(w.contains(w[j]));
                let k = choose|k: int| 0 <= k < c.len() && c[k] == w[j];
            }
            if c.len() == 1 {
                assert(!c.contains((-u) as i32)) by {
                    if c.contains((-u) as i32) {
                        assert(c[0] as int == -(u as int));
                        assert(cs[cs.len() - 1][0] as int == -(u as int));
                    }
                }
            }
            let s = simplify(d, u).push(w);
            assert forall|i: int| 0 <= i < s.len() implies valid_clause(#[trigger] s[i]) && s[i].len() > 0 by {
                if i < s.len() - 1 {
                    assert(s[i] == simplify(d, u)[i]);
                }
            }
        }
    }
}

proof fn lemma_propagated_size(f: Cnf)
    ensures
        size(propagated(f).clauses) <= size(f.clauses),
        f.contradiction ==> propagated(f).contradiction,
    decreases size(f.clauses),
{
    if f.clauses.len() != 0 {
        if let Some(i) = first_unit(f.clauses) {
            let u = f.clauses[i][0];
            if valid_literal(u) && !has_conflict(f.clauses, u) {
                lemma_first_unit_from(f.clauses, 0);
                assert(f.clauses[i].contains(u));
                lemma_simplify_size(f.clauses, u);
                lemma_propagated_size(Cnf { clauses: simplify(f.clauses, u), contradiction: f.contradiction });
            }
        }
    }
}

/// Propagation keeps well-formedness and satisfiability, and stops at a
/// formula that is empty, holds no unit clause, or records a contradiction.
pub proof fn lemma_propagated(f: Cnf)
    requires
        wf_clauses(f.clauses),
    ensures
        wf_clauses(propagated(f).clauses),
        formula_satisfiable(propagated(f)) == formula_satisfiable(f),
        size(propagated(f).clauses) <= size(f.clauses),
        propagated(f).clauses.len() == 0 || first_unit(propagated(f).clauses) is None
            || propagated(f).contradiction,
    decreases size(f.clauses),
{
    lemma_propagated_size(f);
    lemma_first_unit_from(f.clauses, 0);
    if f.clauses.len() != 0 {
        if let Some(i) = first_unit(f.clauses) {
            let u = f.clauses[i][0];
            assert(valid_clause(f.clauses[i]));
            assert(valid_literal(u));
            if has_conflict(f.clauses, u) {
                lemma_conflict_unsat(f.clauses, u, i);
            } else {
                let g = Cnf { clauses: simplify(f.clauses, u), contradiction: f.contradiction };
                assert(f.clauses[i].contains(u));
                lemma_simplify_size(f.clauses, u);
                lemma_simplify_wf(f.clauses, u);
                lemma_unit_step_sound(f.clauses, u, i);
                lemma_propagated(g);
            }
        }
    }
}

/// Propagating a second time changes nothing.
pub proof fn lemma_propagation_idempotent(f: Cnf)
    ensures
        propagated(propagated(f)) == propagated(f),
    decreases size(f.clauses),
{
    if f.clauses.len() != 0 {
        if let Some(i) = first_unit(f.clauses) {
            let u = f.clauses[i][0];
            if valid_literal(u) && !has_conflict(f.clauses, u) {
                lemma_first_unit_from(f.clauses, 0);
                assert(f.clauses[i].contains(u));
                lemma_simplify_size(f.clauses, u);
                lemma_propagation_idempotent(Cnf { clauses: simplify(f.clauses, u), contradiction: f.contradiction });
            }
        }
    }
}

/// Every model of a formula makes `l` true or makes `-l` true: the formula
/// is satisfiable exactly when one of the two branches is.
pub proof fn lemma_branch_split(f: Cnf, l: i32)
    requires
        valid_literal(l),
    ensures
        formula_satisfiable(f) == (formula_satisfiable(with_unit(f, l))
            || formula_satisfiable(with_unit(f, (-l) as i32))),
{
    let pos = seq![l];
    let neg = seq![(-l) as i32];
    assert forall|a: spec_fn(int) -> bool| #[trigger] all_true(a, f.clauses)
        implies all_true(a, f.clauses.push(pos)) || all_true(a, f.clauses.push(neg)) by {
        lemma_all_true_push(a, f.clauses, pos);
        lemma_all_true_push(a, f.clauses, neg);
        lemma_negation_false(a, l);
        if literal_true(a, l as int) {
            assert(pos[0] == l);
            assert(pos.contains(l));
            assert(clause_true(a, pos));
        } else {
            assert(neg[0] == (-l) as i32);
            assert(neg.contains((-l) as i32));
            assert(literal_true(a, ((-l) as i32) as int));
            assert(clause_true(a, neg));
        }
    }
    if satisfiable(f.clauses.push(pos)) {
        let a = choose|a: spec_fn(int) -> bool| all_true(a, f.clauses.push(pos));
        lemma_all_true_push(a, f.clauses, pos);
    }
    if satisfiable(f.clauses.push(neg)) {
        let a = choose|a: spec_fn(int) -> bool| all_true(a, f.clauses.push(neg));
        lemma_all_true_push(a, f.clauses, neg);
    }
}

/// When the branch that asserts `l` has no model, the formula has one
/// exactly when the branch that asserts `-l` has one.
pub proof fn lemma_branch_symmetry(f: Cnf, l: i32)
    requires
        valid_literal(l),
        !formula_satisfiable(with_unit(f, l)),
    ensures
        formula_satisfiable(f) == formula_satisfiable(with_unit(f, (-l) as i32)),
{
    lemma_branch_split(f, l);
}

proof fn lemma_first_unit_last(cs: Seq<Seq<i32>>, k: int)
    requires
        0 <= k < cs.len(),
        cs.last().len() == 1,
        forall|j: int| k <= j < cs.len() - 1 ==> (#[trigger] cs[j]).len() != 1,
    ensures
        first_unit_from(cs, k) == Some(cs.len() - 1),
    decreases cs.len() - k,
{
    if k < cs.len() - 1 {
        lemma_first_unit_last(cs, k + 1);
    }
}

/// Where no clause is a unit, asserting `l` leads propagation to one round
/// of simplification by `l`, with no contradiction.
proof fn lemma_branch_unfold(f: Cnf, l: i32)
    requires
        first_unit(f.clauses) is None,
        valid_literal(l),
    ensures
        !has_conflict(f.clauses, l),
        propagated(with_unit(f, l)) == propagated(
            Cnf { clauses: simplify(f.clauses, l), contradiction: f.contradiction },
        ),
{
    let cs = f.clauses;
    let g = with_unit(f, l);
    let gcs = g.clauses;
    lemma_first_unit_from(cs, 0);
    assert forall|j: int| 0 <= j < gcs.len() - 1 implies (#[trigger] gcs[j]).len() != 1 by {
        assert(gcs[j] == cs[j]);
    }
    lemma_first_unit_last(gcs, 0);
    assert(gcs[cs.len() as int] == seq![l]);
    assert(!has_conflict(gcs, l)) by {
        if has_conflict(gcs, l) {
            let j = choose|j: int| 0 <= j < gcs.len() && gcs[j].len() == 1 && gcs[j][0] as int == -(l as int);
            if j < cs.len() {
                assert(gcs[j] == cs[j]);
            }
        }
    }
    assert(!has_conflict(cs, l)) by {
        if has_conflict(cs, l) {
            let j = choose|j: int| 0 <= j < cs.len() && cs[j].len() == 1 && cs[j][0] as int == -(l as int);
        }
    }
    assert(gcs.drop_last() == cs);
    assert(seq![l].contains(l)) by {
        assert(seq![l][0] == l);
    }
    assert(satisfied_by_unit(seq![l], l)) by {
        if l < 0 {
            assert(!seq![l].contains((-l) as i32));
        }
    }
    assert(simplify(gcs, l) == simplify(cs, l));
}

/// Asserting a literal that a clause of a propagated formula mentions makes
/// the formula strictly smaller once propagated again.
pub proof fn lemma_branch_shrinks(f: Cnf, l: i32, k: int)
    requires
        first_unit(f.clauses) is None,
        valid_literal(l),
        0 <= k < f.clauses.len(),
        touches(f.clauses[k], l),
    ensures
        size(propagated(with_unit(f, l)).clauses) < size(f.clauses),
{
    lemma_branch_unfold(f, l);
    lemma_simplify_size(f.clauses, l);
    lemma_propagated_size(Cnf { clauses: simplify(f.clauses, l), contradiction: f.contradiction });
}

/// No clause holds a literal together with its negation.
pub open spec fn no_tautology(cs: Seq<Seq<i32>>) -> bool {
    forall|i: int, l: i32|
        0 <= i < cs.len() && #[trigger] cs[i].contains(l) ==> !cs[i].contains((-l) as i32)
}

/// Some literal of the clause has variable `v`.
pub open spec fn clause_mentions(c: Seq<i32>, v: int) -> bool {
    exists|l: i32| c.contains(l) && var_of(l as int) == v
}

/// Some clause has a literal of variable `v`.
pub open spec fn mentions_var(cs: Seq<Seq<i32>>, v: int) -> bool {
    exists|i: int| 0 <= i < cs.len() && clause_mentions(#[trigger] cs[i], v)
}

proof fn lemma_simplify_vars(cs: Seq<Seq<i32>>, u: i32)
    requires
        wf_clauses(cs),
        no_tautology(cs),
        valid_literal(u),
    ensures
        no_tautology(simplify(cs, u)),
        forall|v: int| #[trigger] mentions_var(simplify(cs, u), v) ==> mentions_var(cs, v) && v != var_of(u as int),
    decreases cs.len(),
{
    if cs.len() > 0 {
        let d = cs.drop_last();
        let c = cs.last();
        let n = cs.len() - 1;
        assert(c == cs[n]);
        assert(wf_clauses(d)) by {
            assert forall|i: int| 0 <= i < d.len() implies valid_clause(#[trigger] d[i]) && d[i].len() > 0 by {
                assert(d[i] == cs[i]);
            }
        }
        assert(no_tautology(d)) by {
            assert forall|i: int, l: i32| 0 <= i < d.len() && #[trigger] d[i].contains(l) implies !d[i].contains((-l) as i32) by {
                assert(d[i] == cs[i]);
            }
        }
        lemma_simplify_vars(d, u);
        let sd = simplify(d, u);
        assert forall|v: int| mentions_var(sd, v) implies mentions_var(cs, v) by {
            let i = choose|i: int| 0 <= i < sd.len() && clause_mentions(#[trigger] sd[i], v);
            assert(mentions_var(d, v));
            let j = choose|j: int| 0 <= j < d.len() && clause_mentions(#[trigger] d[j], v);
            assert(cs[j] == d[j]);
        }
        if !satisfied_by_unit(c, u) {
            let w = without(c, (-u) as i32);
            let s = sd.push(w);
            lemma_without_contains(c, (-u) as i32);
            lemma_satisfied_contains(c, u);
            assert(!c.contains(u)) by {
                if c.contains(u) {
                    assert(cs[n].contains(u));
                    assert(c.contains((-u) as i32));
                }
            }
            assert(!clause_mentions(w, var_of(u as int))) by {
                if clause_mentions(w, var_of(u as int)) {
                    let l = choose|l: i32| w.contains(l) && var_of(l as int) == var_of(u as int);
                    assert(valid_clause(cs[n]));
                    let k = choose|k: int| 0 <= k < c.len() && c[k] == l;
                    assert(valid_literal(c[k]));
                }
            }
            assert forall|i: int, l: i32| 0 <= i < s.len() && #[trigger] s[i].contains(l) implies !s[i].contains((-l) as i32) by {
                if i < s.len() - 1 {
                    assert(s[i] == sd[i]);
                } else {
                    assert(s[i] == w);
                    assert(cs[n].contains(l));
                }
            }
            assert forall|v: int| #[trigger] mentions_var(s, v) implies mentions_var(cs, v) && v != var_of(u as int) by {
                let i = choose|i: int| 0 <= i < s.len() && clause_mentions(#[trigger] s[i], v);
                if i < s.len() - 1 {
                    assert(s[i] == sd[i]);
                    assert(mentions_var(sd, v));
                } else {
                    assert(s[i] == w);
                    let l = choose|l: i32| w.contains(l) && var_of(l as int) == v;
                    assert(clause_mentions(cs[n], v));
                }
            }
        }
    }
}

proof fn lemma_propagated_vars(f: Cnf)
    requires
        wf_clauses(f.clauses),
        no_tautology(f.clauses),
    ensures
        no_tautology(propagated(f).clauses),
        forall|v: int| #[trigger] mentions_var(propagated(f).clauses, v) ==> mentions_var(f.clauses, v),
    decreases size(f.clauses),
{
    lemma_first_unit_from(f.clauses, 0);
    if f.clauses.len() != 0 {
        if let Some(i) = first_unit(f.clauses) {
            let u = f.clauses[i][0];
            assert(valid_clause(f.clauses[i]));
            if !has_conflict(f.clauses, u) {
                let g = Cnf { clauses: simplify(f.clauses, u), contradiction: f.contradiction };
                assert(f.clauses[i].contains(u));
                lemma_simplify_size(f.clauses, u);
                lemma_simplify_wf(f.clauses, u);
                lemma_simplify_vars(f.clauses, u);
                lemma_propagated_vars(g);
            }
        }
    }
}

/// Each level of the search fixes a variable for good: asserting a literal
/// `l` that a clause of a propagated formula mentions, and propagating,
/// leaves a formula whose variables are among the formula's own, without
/// that of `l`. So, on formulas where no clause holds a literal together with
/// its negation, the recursion is never deeper than the number of variables.
pub proof fn lemma_branch_eliminates_variable(f: Cnf, l: i32, k: int)
    requires
        wf_clauses(f.clauses),
        no_tautology(f.clauses),
        first_unit(f.clauses) is None,
        valid_literal(l),
        0 <= k < f.clauses.len(),
        touches(f.clauses[k], l),
    ensures
        mentions_var(f.clauses, var_of(l as int)),
        no_tautology(propagated(with_unit(f, l)).clauses),
        forall|v: int|
            #[trigger] mentions_var(propagated(with_unit(f, l)).clauses, v) ==> mentions_var(f.clauses, v) && v
                != var_of(l as int),
{
    lemma_branch_unfold(f, l);
    if f.clauses[k].contains(l) {
        assert(clause_mentions(f.clauses[k], var_of(l as int)));
    } else {
        assert(clause_mentions(f.clauses[k], var_of(l as int))) by {
            assert(var_of(((-l) as i32) as int) == var_of(l as int));
        }
    }
    lemma_simplify_wf(f.clauses, l);
    lemma_simplify_vars(f.clauses, l);
    lemma_propagated_vars(Cnf { clauses: simplify(f.clauses, l), contradiction: f.contradiction });
}

/// The variables of the clauses.
pub open spec fn vars(cs: Seq<Seq<i32>>) -> Set<int> {
    Set::new(|v: int| mentions_var(cs, v))
}

proof fn lemma_vars_finite(cs: Seq<Seq<i32>>)
    requires
        wf_clauses(cs),
    ensures
        vars(cs).finite(),
{
    assert forall|v: int| vars(cs).contains(v) implies set_int_range(1, 2147483648).contains(v) by {
        let i = choose|i: int| 0 <= i < cs.len() && clause_mentions(#[trigger] cs[i], v);
        let l = choose|l: i32| cs[i].contains(l) && var_of(l as int) == v;
        let k = choose|k: int| 0 <= k < cs[i].len() && cs[i][k] == l;
        assert(valid_clause(cs[i]));
        assert(valid_literal(cs[i][k]));
    }
    lemma_int_range(1, 2147483648);
    lemma_len_subset(vars(cs), set_int_range(1, 2147483648));
}

/// `f` is handed to a call of the DPLL search on `g` one level down: `g`
/// propagated is neither contradictory nor empty, and `f` is it with the unit
/// clause of the first literal of its clause `k`, or of that literal's
/// negation.
pub open spec fn branch_of(g: Cnf, k: int, f: Cnf) -> bool {
    let p = propagated(g);
    &&& !p.contradiction
    &&& 0 <= k < p.clauses.len()
    &&& p.clauses[k].len() > 0
    &&& (f == with_unit(p, p.clauses[k][0]) || f == with_unit(p, (-p.clauses[k][0]) as i32))
}

/// `f` is handed to a call nested `d` levels deep in the DPLL search
/// started on `f0`.
pub open spec fn nested_call(f0: Cnf, f: Cnf, d: nat) -> bool
    decreases d,
{
    if d == 0 {
        f == f0
    } else {
        exists|g: Cnf, k: int| nested_call(f0, g, (d - 1) as nat) && #[trigger] branch_of(g, k, f)
    }
}

proof fn lemma_nested_call(f0: Cnf, f: Cnf, d: nat)
    requires
        wf_clauses(f0.clauses),
        no_tautology(f0.clauses),
        nested_call(f0, f, d),
    ensures
        wf_clauses(f.clauses),
        no_tautology(f.clauses),
        vars(propagated(f).clauses).finite(),
        vars(f0.clauses).finite(),
        d + vars(propagated(f).clauses).len() <= vars(f0.clauses).len(),
    decreases d,
{
    lemma_vars_finite(f0.clauses);
    if d == 0 {
        lemma_propagated(f0);
        lemma_propagated_vars(f0);
        lemma_vars_finite(propagated(f0).clauses);
        lemma_len_subset(vars(propagated(f0).clauses), vars(f0.clauses));
    } else {
        let (g, k) = choose|g: Cnf, k: int| nested_call(f0, g, (d - 1) as nat) && #[trigger] branch_of(g, k, f);
        lemma_nested_call(f0, g, (d - 1) as nat);
        let p = propagated(g);
        lemma_propagated(g);
        lemma_propagated_vars(g);
        assert(valid_clause(p.clauses[k]));
        let l = p.clauses[k][0];
        assert(valid_literal(l));
        assert(p.clauses[k].contains(l));
        let m = if f == with_unit(p, l) { l } else { (-l) as i32 };
        assert(f == with_unit(p, m));
        assert(valid_literal(m));
        assert(touches(p.clauses[k], m));
        lemma_branch_eliminates_variable(p, m, k);
        lemma_propagated(f);
        lemma_vars_finite(p.clauses);
        lemma_vars_finite(propagated(f).clauses);
        let vp = vars(p.clauses);
        assert(vars(propagated(f).clauses).subset_of(vp.remove(var_of(m as int))));
        lemma_len_subset(vars(propagated(f).clauses), vp.remove(var_of(m as int)));
        assert(vp.contains(var_of(m as int)));
        let u = seq![m];
        assert(u[0] == m);
        assert(valid_clause(u));
        assert forall|i: int| 0 <= i < f.clauses.len() implies valid_clause(#[trigger] f.clauses[i]) && f.clauses[i].len() > 0 by {
            if i < p.clauses.len() {
                assert(f.clauses[i] == p.clauses[i]);
            }
        }
        assert forall|i: int, x: i32| 0 <= i < f.clauses.len() && #[trigger] f.clauses[i].contains(x) implies !f.clauses[i].contains((-x) as i32) by {
            if i < p.clauses.len() {
                assert(f.clauses[i] == p.clauses[i]);
            } else {
                assert(f.clauses[i] == u);
            }
        }
    }
}

/// On formulas where no clause holds a literal together with its negation,
/// the DPLL search is never more than as many levels deep as the formula
/// has variables.
pub proof fn lemma_depth_bound(f0: Cnf, f: Cnf, d: nat)
    requires
        wf_clauses(f0.clauses),
        no_tautology(f0.clauses),
        nested_call(f0, f, d),
    ensures
        vars(f0.clauses).finite(),
        d <= vars(f0.clauses).len(),
{
    lemma_nested_call(f0, f, d);
}

} // verus!
