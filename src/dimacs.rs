//! The DIMACS CNF input format: comment and blank lines, one problem line
//! `p cnf <variables> <clauses>`, then that many clause lines of literals
//! ended by `0`.
use vstd::prelude::*;
use crate::cnf::{distinct_nonzero, Cnf};
use crate::clause_set::{Clause, ClauseSet};

verus! {

/// Why an input is not a DIMACS CNF description.
#[derive(Debug, Clone, Copy, PartialEq, Eq)]
pub enum DimacsError {
    /// The problem line does not declare the `cnf` format.
    NotCnf,
    /// A token that should be an integer is not one, or is out of range.
    BadNumber,
    /// A clause line, or the end of input, comes before any problem line.
    NoProblemLine,
    /// A second problem line.
    SecondProblemLine,
    /// A clause line with no non-zero literal.
    EmptyClause,
    /// The input ends before the declared number of clauses.
    Truncated,
}

pub open spec fn is_space(b: u8) -> bool {
    b == 32 || b == 9 || b == 10 || b == 13 || b == 11 || b == 12
}

/// The first index at or after `i` that holds no whitespace.
pub open spec fn skip_space(s: Seq<u8>, i: int) -> int
    decreases s.len() - i,
{
    if i < 0 || i >= s.len() || !is_space(s[i]) {
        i
    } else {
        skip_space(s, i + 1)
    }
}

/// The first index at or after `i` that holds whitespace, or the end.
pub open spec fn token_end(s: Seq<u8>, i: int) -> int
    decreases s.len() - i,
{
    if i < 0 || i >= s.len() || is_space(s[i]) {
        i
    } else {
        token_end(s, i + 1)
    }
}

/// The whitespace-separated tokens of `s` from index `i` on.
pub open spec fn tokens_from(s: Seq<u8>, i: int) -> Seq<Seq<u8>>
    decreases s.len() - i,
{
    let j = skip_space(s, i);
    if i < 0 || j >= s.len() || j < i {
        Seq::empty()
    } else {
        let e = token_end(s, j);
        if e <= j || e > s.len() {
            Seq::empty()
        } else {
            seq![s.subrange(j, e)] + tokens_from(s, e)
        }
    }
}

/// The whitespace-separated tokens of a line.
pub open spec fn tokens(s: Seq<u8>) -> Seq<Seq<u8>> {
    tokens_from(s, 0)
}

pub open spec fn is_digit(b: u8) -> bool {
    48 <= b <= 57
}

pub open spec fn all_digits(t: Seq<u8>) -> bool {
    forall|k: int| 0 <= k < t.len() ==> is_digit(#[trigger] t[k])
}

/// The value of a run of decimal digits.
pub open spec fn digits_value(t: Seq<u8>) -> nat
    decreases t.len(),
{
    if t.len() == 0 {
        0
    } else {
        digits_value(t.drop_last()) * 10 + (t.last() - 48) as nat
    }
}

/// The integer a token writes: an optional `-` and one or more digits.
pub open spec fn int_of(t: Seq<u8>) -> Option<int> {
    if t.len() > 0 && t[0] == 45 {
        let d = t.subrange(1, t.len() as int);
        if d.len() > 0 && all_digits(d) {
            Some(-digits_value(d))
        } else {
            None
        }
    } else if t.len() > 0 && all_digits(t) {
        Some(digits_value(t) as int)
    } else {
        None
    }
}

/// The integer a token writes, where it lies strictly above `i32::MIN` and
/// at most `i32::MAX`.
pub open spec fn literal_of(t: Seq<u8>) -> Option<i32> {
    match int_of(t) {
        Some(v) => if i32::MIN < v <= i32::MAX {
            Some(v as i32)
        } else {
            None
        },
        None => None,
    }
}

proof fn lemma_digits_grow(t: Seq<u8>, a: int, i: int, j: int)
    requires
        0 <= a <= i <= j <= t.len(),
        all_digits(t.subrange(a, j)),
    ensures
        digits_value(t.subrange(a, i)) <= digits_value(t.subrange(a, j)),
    decreases j - i,
{
    if i < j {
        let s = t.subrange(a, j);
        assert(s.drop_last() =~= t.subrange(a, j - 1));
        assert(all_digits(t.subrange(a, j - 1))) by {
            assert forall|k: int| 0 <= k < j - 1 - a implies is_digit(#[trigger] t.subrange(a, j - 1)[k]) by {
                assert(t.subrange(a, j - 1)[k] == s[k]);
            }
        }
        lemma_digits_grow(t, a, i, j - 1);
        assert(is_digit(s[s.len() - 1]));
        assert(digits_value(s) == digits_value(s.drop_last()) * 10 + (s.last() - 48) as nat);
    }
}

/// Reads one integer token.
pub fn parse_int(tok: &Vec<u8>) -> (r: Option<i32>)
    ensures
        r == literal_of(tok@),
{
    let n = tok.len();
    let negative = n > 0 && tok[0] == 45u8;
    let start: usize = if negative { 1 } else { 0 };
    if start >= n {
        return None;
    }
    let ghost t = tok@;
    let mut acc: i64 = 0;
    let mut k: usize = start;
    while k < n
        invariant
            start <= k <= n,
            n == t.len(),
            negative == (t.len() > 0 && t[0] == 45),
            start == (if negative { 1usize } else { 0usize }),
            t == tok@,
            start < n,
            acc as int == digits_value(t.subrange(start as int, k as int)),
            0 <= acc <= i32::MAX,
            all_digits(t.subrange(start as int, k as int)),
        decreases n - k,
    {
        let b = tok[k];
        proof {
            assert(t.subrange(start as int, k + 1).drop_last() =~= t.subrange(start as int, k as int));
        }
        if b < 48u8 || b > 57u8 {
            proof {
                assert(t[k as int] == b);
                assert(t.subrange(start as int, n as int)[k - start] == b);
                assert(!is_digit(t.subrange(start as int, n as int)[k - start]));
                if negative {
                    assert(start == 1);
                    assert(t.subrange(1, t.len() as int) == t.subrange(start as int, n as int));
                } else {
                    assert(!is_digit(t[k as int]));
                }
            }
            return None;
        }
        acc = acc * 10 + (b - 48u8) as i64;
        proof {
            assert(all_digits(t.subrange(start as int, k + 1))) by {
                assert forall|m: int| 0 <= m < k + 1 - start implies is_digit(#[trigger] t.subrange(start as int, k + 1)[m]) by {
                    if m < k - start {
                        assert(t.subrange(start as int, k + 1)[m] == t.subrange(start as int, k as int)[m]);
                    }
                }
            }
        }
        if acc > 2147483647i64 {
            proof {
                if all_digits(t.subrange(start as int, n as int)) {
                    lemma_digits_grow(t, start as int, k + 1, n as int);
                }
                if negative {
                    assert(t.subrange(1, t.len() as int) =~= t.subrange(start as int, n as int));
                } else {
                    assert(t =~= t.subrange(start as int, n as int));
                }
            }
            return None;
        }
        k = k + 1;
    }
    proof {
        if negative {
            assert(t.subrange(1, t.len() as int) =~= t.subrange(start as int, n as int));
        } else {
            assert(t =~= t.subrange(start as int, n as int));
        }
    }
    if negative {
        Some(-(acc as i32))
    } else {
        Some(acc as i32)
    }
}

/// The byte sequences of a run of byte vectors.
pub open spec fn byte_views(v: Seq<Vec<u8>>) -> Seq<Seq<u8>> {
    v.map_values(|l: Vec<u8>| l@)
}

/// Splits a line into its whitespace-separated tokens.
pub fn tokenize(line: &Vec<u8>) -> (r: Vec<Vec<u8>>)
    ensures
        byte_views(r@) == tokens(line@),
{
    let ghost s = line@;
    let n = line.len();
    let mut out: Vec<Vec<u8>> = Vec::new();
    let mut i: usize = 0;
    while i < n
        invariant
            0 <= i <= n,
            n == s.len(),
            s == line@,
            byte_views(out@) + tokens_from(s, i as int) == tokens(s),
        decreases n - i,
    {
        let mut j: usize = i;
        while j < n && (line[j] == 32u8 || line[j] == 9u8 || line[j] == 10u8 || line[j] == 13u8
            || line[j] == 11u8 || line[j] == 12u8)
            invariant
                i <= j <= n,
                n == s.len(),
                s == line@,
                skip_space(s, i as int) == skip_space(s, j as int),
            decreases n - j,
        {
            j = j + 1;
        }
        if j >= n {
            proof {
                assert(tokens_from(s, i as int) =~= Seq::<Seq<u8>>::empty());
                assert(byte_views(out@) + tokens_from(s, n as int) =~= byte_views(out@));
            }
            i = n;
        } else {
            let mut e: usize = j;
            let mut tok: Vec<u8> = Vec::new();
            while e < n && !(line[e] == 32u8 || line[e] == 9u8 || line[e] == 10u8 || line[e] == 13u8
                || line[e] == 11u8 || line[e] == 12u8)
                invariant
                    j <= e <= n,
                    n == s.len(),
                    s == line@,
                    token_end(s, j as int) == token_end(s, e as int),
                    tok@ == s.subrange(j as int, e as int),
                decreases n - e,
            {
                tok.push(line[e]);
                proof {
                    assert(tok@ =~= s.subrange(j as int, e + 1));
                }
                e = e + 1;
            }
            proof {
                assert(skip_space(s, j as int) == j);
                assert(e > j);
                assert(tokens_from(s, i as int) == seq![s.subrange(j as int, e as int)] + tokens_from(s, e as int));
                assert(byte_views(out@.push(tok)) =~= byte_views(out@).push(tok@));
                assert(byte_views(out@).push(tok@) + tokens_from(s, e as int) =~= byte_views(out@) + (seq![s.subrange(j as int, e as int)] + tokens_from(s, e as int)));
            }
            out.push(tok);
            i = e;
        }
    }
    proof {
        assert(tokens_from(s, n as int) =~= Seq::<Seq<u8>>::empty());
        assert(byte_views(out@) + tokens_from(s, n as int) =~= byte_views(out@));
    }
    out
}

/// The format tag `cnf`.
pub open spec fn cnf_tag() -> Seq<u8> {
    seq![99u8, 110u8, 102u8]
}

/// The clause count of a problem line `p cnf <variables> <clauses>`.
pub open spec fn problem_count(line: Seq<u8>) -> Result<nat, DimacsError> {
    let t = tokens(line);
    if t.len() < 4 || t[1] != cnf_tag() {
        Err(DimacsError::NotCnf)
    } else {
        match literal_of(t[3]) {
            Some(v) => if v >= 0 {
                Ok(v as nat)
            } else {
                Err(DimacsError::BadNumber)
            },
            None => Err(DimacsError::BadNumber),
        }
    }
}

/// The integers that the tokens write, each valid as `literal_of` reads it.
pub open spec fn token_values(t: Seq<Seq<u8>>) -> Seq<i32> {
    Seq::new(
        t.len(),
        |k: int|
            match literal_of(t[k]) {
                Some(v) => v,
                None => 0i32,
            },
    )
}

/// The clause of a clause line: its distinct non-zero literals.
pub open spec fn clause_of_line(line: Seq<u8>) -> Result<Seq<i32>, DimacsError> {
    clause_of_line_tokens(tokens(line))
}

/// The clause that a clause line's tokens write.
pub open spec fn clause_of_line_tokens(t: Seq<Seq<u8>>) -> Result<Seq<i32>, DimacsError> {
    if exists|k: int| 0 <= k < t.len() && literal_of(#[trigger] t[k]) is None {
        Err(DimacsError::BadNumber)
    } else if distinct_nonzero(token_values(t)).len() == 0 {
        Err(DimacsError::EmptyClause)
    } else {
        Ok(distinct_nonzero(token_values(t)))
    }
}

/// Reading from line `i` on, with the clause count declared so far and
/// the clauses read so far. Blank lines and lines that begin with `c` are
/// skipped; a line that begins with `p` is the problem line; any other line
/// is a clause. Reading stops once the declared number of clauses is read.
pub open spec fn dimacs_from(
    lines: Seq<Seq<u8>>,
    i: int,
    declared: Option<nat>,
    acc: Seq<Seq<i32>>,
) -> Result<Seq<Seq<i32>>, DimacsError>
    decreases lines.len() - i,
{
    if declared matches Some(n) && acc.len() >= n {
        Ok(acc)
    } else if i < 0 || i >= lines.len() {
        if declared is None {
            Err(DimacsError::NoProblemLine)
        } else {
            Err(DimacsError::Truncated)
        }
    } else {
        let line = lines[i];
        if tokens(line).len() == 0 || line[0] == 99 {
            dimacs_from(lines, i + 1, declared, acc)
        } else if line[0] == 112 {
            if declared is Some {
                Err(DimacsError::SecondProblemLine)
            } else {
                match problem_count(line) {
                    Ok(n) => dimacs_from(lines, i + 1, Some(n), acc),
                    Err(e) => Err(e),
                }
            }
        } else if declared is None {
            Err(DimacsError::NoProblemLine)
        } else {
            match clause_of_line(line) {
                Ok(c) => dimacs_from(lines, i + 1, declared, acc.push(c)),
                Err(e) => Err(e),
            }
        }
    }
}

/// The clauses that a DIMACS CNF description declares, or why it is not one.
pub open spec fn dimacs(lines: Seq<Seq<u8>>) -> Result<Seq<Seq<i32>>, DimacsError> {
    dimacs_from(lines, 0, None, Seq::empty())
}

fn is_cnf_tag(tok: &Vec<u8>) -> (r: bool)
    ensures
        r == (tok@ == cnf_tag()),
{
    if tok.len() == 3 && tok[0] == 99u8 && tok[1] == 110u8 && tok[2] == 102u8 {
        proof {
            assert(tok@ =~= cnf_tag());
        }
        true
    } else {
        proof {
            if tok@ == cnf_tag() {
                assert(tok@[0] == 99u8 && tok@[1] == 110u8 && tok@[2] == 102u8);
            }
        }
        false
    }
}

fn line_clause(toks: &Vec<Vec<u8>>) -> (r: Result<Clause, DimacsError>)
    ensures
        ({
            let t = byte_views(toks@);
            match r {
                Ok(c) => clause_of_line_tokens(t) == Ok::<Seq<i32>, DimacsError>(c@) && c.wf() && c@.len() > 0,
                Err(e) => clause_of_line_tokens(t) == Err::<Seq<i32>, DimacsError>(e),
            }
        }),
{
    let ghost t = byte_views(toks@);
    let mut values: Vec<i32> = Vec::new();
    let mut k: usize = 0;
    while k < toks.len()
        invariant
            0 <= k <= toks@.len(),
            t == byte_views(toks@),
            values@ =~= token_values(t).subrange(0, k as int),
            forall|m: int| 0 <= m < k ==> literal_of(#[trigger] t[m]) is Some,
        decreases toks@.len() - k,
    {
        match parse_int(&toks[k]) {
            Some(v) => {
                values.push(v);
            },
            None => {
                proof {
                    assert(literal_of(t[k as int]) is None);
                }
                return Err(DimacsError::BadNumber);
            },
        }
        k = k + 1;
    }
    proof {
        assert(values@ =~= token_values(t));
        assert forall|m: int| 0 <= m < values@.len() implies values@[m] != i32::MIN by {
            assert(literal_of(t[m]) is Some);
        }
    }
    match Clause::from_values(&values) {
        Some(c) => Ok(c),
        None => {
            Err(DimacsError::EmptyClause)
        },
    }
}

/// Reads a DIMACS CNF description, given line by line.
pub fn parse_dimacs(lines: &Vec<Vec<u8>>) -> (r: Result<ClauseSet, DimacsError>)
    ensures
        r matches Ok(f) ==> dimacs(byte_views(lines@)) == Ok::<Seq<Seq<i32>>, DimacsError>(
            f.model().clauses,
        ) && !f.model().contradiction && f.wf(),
        r matches Err(e) ==> dimacs(byte_views(lines@)) == Err::<Seq<Seq<i32>>, DimacsError>(e),
{
    let ghost ls = byte_views(lines@);
    let mut f = ClauseSet::new();
    let mut declared = false;
    let mut count: usize = 0;
    let mut read: usize = 0;
    let mut i: usize = 0;
    proof {
        assert(f.model().clauses =~= Seq::<Seq<i32>>::empty());
    }
    loop
        invariant
            0 <= i <= lines@.len(),
            ls == byte_views(lines@),
            f.wf(),
            !f.model().contradiction,
            read as int == f.model().clauses.len(),
            !declared ==> count == 0,
            dimacs(ls) == dimacs_from(
                ls,
                i as int,
                if declared { Some(count as nat) } else { None },
                f.model().clauses,
            ),
        decreases lines@.len() - i,
    {
        if declared && read >= count {
            return Ok(f);
        }
        if i >= lines.len() {
            if declared {
                return Err(DimacsError::Truncated);
            } else {
                return Err(DimacsError::NoProblemLine);
            }
        }
        let line = &lines[i];
        let toks = tokenize(line);
        proof {
            assert(ls[i as int] == line@);
            if line@.len() == 0 {
                assert(tokens(line@) =~= Seq::<Seq<u8>>::empty());
            }
        }
        if toks.len() == 0 || line[0] == 99u8 {
            i = i + 1;
        } else if line[0] == 112u8 {
            if declared {
                return Err(DimacsError::SecondProblemLine);
            }
            if toks.len() < 4 || !is_cnf_tag(&toks[1]) {
                return Err(DimacsError::NotCnf);
            }
            match parse_int(&toks[3]) {
                Some(v) => {
                    if v < 0 {
                        return Err(DimacsError::BadNumber);
                    }
                    count = v as usize;
                    declared = true;
                },
                None => {
                    return Err(DimacsError::BadNumber);
                },
            }
            i = i + 1;
        } else if !declared {
            return Err(DimacsError::NoProblemLine);
        } else {
            match line_clause(&toks) {
                Ok(c) => {
                    f.add_clause(c);
                    read = read + 1;
                },
                Err(e) => {
                    return Err(e);
                },
            }
            i = i + 1;
        }
    }
}

} // verus!
