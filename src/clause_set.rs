//! Clauses and formulas: construction, unit propagation and the choice of
//! a branching literal.
use vstd::prelude::*;
use crate::cnf::{
    valid_literal, valid_clause, distinct_nonzero, mentions_positively, mentions_negatively, without,
    satisfied_by_unit, simplify, size, first_unit, first_unit_from, has_conflict, propagated, Cnf,
    wf_clauses, lemma_first_unit_from, lemma_simplify_size, lemma_simplify_wf,
};
use rand::seq::SliceRandom;
use retain_mut::RetainMut;

verus! {

/// A literal: a non-zero signed variable number.
pub type Literal = i32;

/// A variable: the magnitude of a literal.
pub type Variable = u32;

/// A disjunction of distinct literals.
pub struct Clause {
    literals: Vec<Literal>,
}

/// How a clause mentions a variable.
enum Contains {
    Positively,
    Negatively,
    DoesNot,
}

impl View for Clause {
    type V = Seq<i32>;

    closed spec fn view(&self) -> Seq<i32> {
        self.literals@
    }
}

impl Clause {
    pub open spec fn wf(&self) -> bool {
        valid_clause(self@)
    }

    /// A clause of the given literals, which must be distinct and valid.
    pub fn new(literals: Vec<Literal>) -> (r: Clause)
        requires
            valid_clause(literals@),
        ensures
            r@ == literals@,
            r.wf(),
    {
        Clause { literals: literals }
    }

    /// The clause of the distinct non-zero values of an input line, in order
    /// of first occurrence; none where a value is out of range or no value
    /// is non-zero.
    pub fn from_values(values: &Vec<i32>) -> (r: Option<Clause>)
        ensures
            r is Some <==> (forall|j: int| 0 <= j < values@.len() ==> values@[j] != i32::MIN)
                && (exists|j: int| 0 <= j < values@.len() && values@[j] != 0),
            r matches Some(c) ==> c@ == distinct_nonzero(values@) && c.wf() && c@.len() > 0,
            (forall|j: int| 0 <= j < values@.len() ==> values@[j] != i32::MIN) ==> (r is Some
                <==> distinct_nonzero(values@).len() > 0),
    {
        let mut clause = Clause { literals: Vec::new() };
        let mut i: usize = 0;
        while i < values.len()
            invariant
                0 <= i <= values@.len(),
                clause@ == distinct_nonzero(values@.subrange(0, i as int)),
                clause@.no_duplicates(),
                forall|j: int| 0 <= j < clause@.len() ==> valid_literal(#[trigger] clause@[j]),
                forall|j: int| 0 <= j < i ==> values@[j] != i32::MIN,
                clause@.len() > 0 <==> exists|j: int| 0 <= j < i && values@[j] != 0,
            decreases values@.len() - i,
        {
            let v = values[i];
            if v == i32::MIN {
                return None;
            }
            proof {
                assert(values@.subrange(0, i + 1).drop_last() =~= values@.subrange(0, i as int));
                assert(values@.subrange(0, i + 1).last() == v);
            }
            if v != 0 && !clause.has_literal(v) {
                proof {
                    assert forall|a: int, b: int| 0 <= a < b < clause@.len() + 1 implies clause@.push(v)[a] != clause@.push(v)[b] by {
                        if b == clause@.len() {
                            assert(clause@.contains(clause@[a]));
                        }
                    }
                }
                clause.literals.push(v);
            }
            proof {
                if v != 0 {
                    assert(values@[i as int] != 0);
                }
            }
            i = i + 1;
        }
        proof {
            assert(values@.subrange(0, values@.len() as int) =~= values@);
        }
        if clause.literals.len() == 0 {
            return None;
        }
        Some(clause)
    }

    /// The clause of one literal.
    pub fn new_unit(literal: Literal) -> (r: Clause)
        requires
            valid_literal(literal),
        ensures
            r@ == seq![literal],
            r.wf(),
    {
        let mut literals: Vec<Literal> = Vec::new();
        literals.push(literal);
        proof {
            assert(literals@ =~= seq![literal]);
        }
        Clause { literals: literals }
    }

    fn is_unit(&self) -> (r: bool)
        ensures
            r == (self@.len() == 1),
    {
        self.literals.len() == 1
    }

    fn has_literal(&self, literal: Literal) -> (r: bool)
        ensures
            r == self@.contains(literal),
    {
        let mut i: usize = 0;
        while i < self.literals.len()
            invariant
                0 <= i <= self@.len(),
                forall|j: int| 0 <= j < i ==> self@[j] != literal,
            decreases self@.len() - i,
        {
            if self.literals[i] == literal {
                return true;
            }
            i = i + 1;
        }
        false
    }

    fn contains_variable(&self, variable: Variable) -> (r: Contains)
        requires
            0 < variable <= i32::MAX,
        ensures
            r is Positively <==> mentions_positively(self@, variable as int),
            r is Negatively <==> mentions_negatively(self@, variable as int),
    {
        let literal = variable as Literal;
        if self.has_literal(literal) {
            return Contains::Positively;
        } else if self.has_literal(-literal) {
            return Contains::Negatively;
        }
        Contains::DoesNot
    }
}

impl Clause {
    fn remove_literal(&mut self, literal: Literal)
        ensures
            final(self)@ == without(old(self)@, literal),
    {
        let mut kept: Vec<Literal> = Vec::new();
        let mut i: usize = 0;
        while i < self.literals.len()
            invariant
                0 <= i <= self@.len(),
                self@ == old(self)@,
                kept@ == without(self@.subrange(0, i as int), literal),
            decreases self@.len() - i,
        {
            let x = self.literals[i];
            proof {
                assert(self@.subrange(0, i + 1).drop_last() =~= self@.subrange(0, i as int));
            }
            if x != literal {
                kept.push(x);
            }
            i = i + 1;
        }
        proof {
            assert(self@.subrange(0, self@.len() as int) =~= self@);
        }
        self.literals = kept;
    }

    /// Asserts `unit`: returns false when the clause is satisfied by it
    /// (and must go), otherwise takes `-unit` out and returns true.
    fn simplify_with(&mut self, unit: Literal) -> (r: bool)
        requires
            valid_literal(unit),
        ensures
            r == !satisfied_by_unit(old(self)@, unit),
            r ==> final(self)@ == without(old(self)@, (-unit) as i32),
    {
        let variable: Variable = if unit > 0 { unit as Variable } else { (-unit) as Variable };
        let contains = self.contains_variable(variable);
        let satisfied = match contains {
            Contains::Positively => unit > 0,
            Contains::Negatively => unit < 0,
            Contains::DoesNot => false,
        };
        if satisfied {
            return false;
        }
        self.remove_literal(-unit);
        true
    }
}

impl Clone for Clause {
    fn clone(&self) -> (r: Self)
        ensures
            r@ == self@,
    {
        let literals = self.literals.clone();
        proof {
            assert(literals@ =~= self.literals@);
        }
        Clause { literals }
    }
}

/// The literal sequences of a run of clauses.
pub open spec fn clause_views(v: Seq<Clause>) -> Seq<Seq<i32>> {
    v.map_values(|c: Clause| c@)
}

/// Relies on retain_mut::RetainMut::retain_mut on a Vec: every clause is
/// handed once, in order, to `Clause::simplify_with`, and stays, as that call
/// left it, exactly when the call returns true.
#[verifier::external_body]
#[allow(deprecated)]
fn retain_simplified(clauses: &mut Vec<Clause>, unit: Literal)
    requires
        valid_literal(unit),
    ensures
        clause_views(final(clauses)@) == simplify(clause_views(old(clauses)@), unit),
{
    RetainMut::retain_mut(clauses, |c: &mut Clause| c.simplify_with(unit));
}

/// Relies on rand::seq::SliceRandom::choose with rand::thread_rng: on a
/// non-empty slice it returns one of its elements.
#[verifier::external_body]
fn pick_clause(clauses: &Vec<Clause>) -> (r: Option<&Clause>)
    ensures
        r is Some <==> clauses@.len() > 0,
        r matches Some(c) ==> exists|i: int| 0 <= i < clauses@.len() && *c == clauses@[i],
{
    clauses.choose(&mut rand::thread_rng())
}

/// A formula: clauses in order, and a marker for a contradiction that
/// propagation has derived.
pub struct ClauseSet {
    clauses: Vec<Clause>,
    empty_clause: bool,
}

impl ClauseSet {
    /// The abstract formula.
    pub closed spec fn model(&self) -> Cnf {
        Cnf { clauses: clause_views(self.clauses@), contradiction: self.empty_clause }
    }

    /// Every clause is valid and non-empty.
    pub open spec fn wf(&self) -> bool {
        wf_clauses(self.model().clauses)
    }

    /// The formula with no clauses.
    pub fn new() -> (r: ClauseSet)
        ensures
            r.model() == (Cnf { clauses: Seq::<Seq<i32>>::empty(), contradiction: false }),
            r.wf(),
    {
        let r = ClauseSet { clauses: Vec::new(), empty_clause: false };
        proof {
            assert(clause_views(r.clauses@) =~= Seq::<Seq<i32>>::empty());
        }
        r
    }

    fn get_unit_clause(&self) -> (r: Option<usize>)
        ensures
            r matches Some(i) ==> first_unit(self.model().clauses) == Some(i as int),
            r is None ==> first_unit(self.model().clauses) is None,
    {
        let mut i: usize = 0;
        while i < self.clauses.len()
            invariant
                0 <= i <= self.clauses@.len(),
                first_unit_from(self.model().clauses, 0) == first_unit_from(self.model().clauses, i as int),
            decreases self.clauses@.len() - i,
        {
            if self.clauses[i].is_unit() {
                return Some(i);
            }
            i = i + 1;
        }
        None
    }

    fn conflicts_with(&self, unit: Literal) -> (r: bool)
        requires
            valid_literal(unit),
        ensures
            r == has_conflict(self.model().clauses, unit),
    {
        let cs = Ghost(self.model().clauses);
        let mut i: usize = 0;
        while i < self.clauses.len()
            invariant
                0 <= i <= self.clauses@.len(),
                valid_literal(unit),
                cs@ == self.model().clauses,
                forall|j: int| 0 <= j < i ==> !(cs@[j].len() == 1 && cs@[j][0] as int == -(unit as int)),
            decreases self.clauses@.len() - i,
        {
            let c = &self.clauses[i];
            proof {
                assert(cs@[i as int] == c@);
            }
            if c.literals.len() == 1 && c.literals[0] == -unit {
                return true;
            }
            i = i + 1;
        }
        false
    }

    /// Appends a clause.
    pub fn add_clause(&mut self, clause: Clause)
        requires
            old(self).wf(),
            clause.wf(),
            clause@.len() > 0,
        ensures
            final(self).model() == (Cnf {
                clauses: old(self).model().clauses.push(clause@),
                contradiction: old(self).model().contradiction,
            }),
            final(self).wf(),
    {
        self.clauses.push(clause);
        proof {
            assert(clause_views(self.clauses@) =~= clause_views(old(self).clauses@).push(clause@));
        }
    }

    /// Takes the last clause away, if there is one.
    pub fn remove_last_clause(&mut self)
        requires
            old(self).wf(),
        ensures
            final(self).model() == (Cnf {
                clauses: if old(self).model().clauses.len() == 0 {
                    old(self).model().clauses
                } else {
                    old(self).model().clauses.drop_last()
                },
                contradiction: old(self).model().contradiction,
            }),
            final(self).wf(),
    {
        self.clauses.pop();
        proof {
            if old(self).clauses@.len() > 0 {
                assert(clause_views(self.clauses@) =~= clause_views(old(self).clauses@).drop_last());
            } else {
                assert(clause_views(self.clauses@) =~= clause_views(old(self).clauses@));
            }
        }
    }

    /// Unit propagation to a fixed point.
    pub fn propagate(&mut self)
        requires
            old(self).wf(),
        ensures
            final(self).wf(),
            final(self).model() == propagated(old(self).model()),
    {
        loop
            invariant
                self.wf(),
                propagated(self.model()) == propagated(old(self).model()),
            decreases size(self.model().clauses),
        {
            if self.clauses.len() == 0 {
                return;
            }
            match self.get_unit_clause() {
                None => {
                    return;
                },
                Some(i) => {
                    let ghost cs = self.model().clauses;
                    proof {
                        lemma_first_unit_from(cs, 0);
                        assert(cs[i as int] == self.clauses@[i as int]@);
                    }
                    let unit = self.clauses[i].literals[0];
                    proof {
                        assert(valid_clause(cs[i as int]));
                        assert(valid_literal(cs[i as int][0]));
                    }
                    if self.conflicts_with(unit) {
                        self.empty_clause = true;
                        return;
                    }
                    proof {
                        assert(cs[i as int].contains(unit));
                        lemma_simplify_size(cs, unit);
                        lemma_simplify_wf(cs, unit);
                    }
                    retain_simplified(&mut self.clauses, unit);
                },
            }
        }
    }

    /// No contradiction was derived and no clause remains.
    pub fn empty_set(&self) -> (r: bool)
        ensures
            r == (!self.model().contradiction && self.model().clauses.len() == 0),
    {
        !self.empty_clause && self.clauses.len() == 0
    }

    /// Propagation derived the empty clause.
    pub fn empty_clause(&self) -> (r: bool)
        ensures
            r == self.model().contradiction,
    {
        self.empty_clause
    }

    /// A literal to branch on: the first literal of a clause drawn at random.
    pub fn select_literal(&self) -> (r: Literal)
        requires
            self.wf(),
            self.model().clauses.len() > 0,
        ensures
            valid_literal(r),
            exists|k: int|
                0 <= k < self.model().clauses.len() && (#[trigger] self.model().clauses[k])[0] == r
                    && self.model().clauses[k].contains(r),
    {
        let picked = pick_clause(&self.clauses);
        match picked {
            Some(clause) => {
                let ghost k = choose|i: int| 0 <= i < self.clauses@.len() && *clause == self.clauses@[i];
                proof {
                    assert(self.model().clauses[k] == clause@);
                    assert(valid_clause(self.model().clauses[k]));
                }
                let l = clause.literals[0];
                proof {
                    assert(self.model().clauses[k][0] == l);
                }
                l
            },
            None => {
                proof {
                    assert(false);
                }
                self.clauses[0].literals[0]
            },
        }
    }
}

impl Clone for ClauseSet {
    fn clone(&self) -> (r: Self)
        ensures
            r.model() == self.model(),
    {
        let clauses = self.clauses.clone();
        proof {
            assert forall|i: int| 0 <= i < clauses@.len() implies clauses@[i]@ == self.clauses@[i]@ by {
                assert(cloned::<Clause>(self.clauses@[i], clauses@[i]));
            }
            assert(clause_views(clauses@) =~= clause_views(self.clauses@));
        }
        ClauseSet { clauses, empty_clause: self.empty_clause }
    }
}

} // verus!
