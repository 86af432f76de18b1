//! Parser of the problem text format.
//!
//! A problem is given line by line; `#` starts a comment, blank lines are
//! skipped:
//!
//! ```text
//! solver: DCD | IFFBDD
//! objective: L1 | L2
//! constraint: <a_i ...> | <b> or <b0 b1> | Less | Greater | Equal | Interval
//! ```
use vstd::prelude::*;
use vstd::string::StringExecFns;
use vstd::string::to_string_from_display_ensures;
use crate::float_literal::{float_literal_at, is_float_literal};
use crate::problem::{
    constraints_view, ConstraintSense, Objective, ProblemConfig, SenseType, SolverType,
    SpecConstraint, SpecProblem,
};
use crate::text::{
    before_first, decimal, effective_line, find_char, has_prefix, lemma_lines_with_comment, lines,
    next_line, push_decimal, split_once, starts_with_at, str_chars, string_of, trim, trim_range,
    with_comment, word_ranges, words,
};

verus! {

/// `std::io::Error`, carried through as an opaque value.
#[verifier::external_type_specification]
#[verifier::external_body]
pub struct ExIoError(std::io::Error);

/// Why a problem text was refused.
#[derive(Debug)]
pub enum ParseError {
    Io(std::io::Error),
    MissingSolver,
    InvalidSolver(String),
    MissingObjective,
    InvalidObjective(String),
    InvalidSense(String),
    InvalidFloat(String),
    MalformedConstraint(String),
    InconsistentDimension { expected: usize, got: usize, line: usize },
    EmptyFile,
}

/// Mathematical value of a [`ParseError`].
pub enum SpecParseError {
    Io,
    MissingSolver,
    InvalidSolver(Seq<char>),
    MissingObjective,
    InvalidObjective(Seq<char>),
    InvalidSense(Seq<char>),
    InvalidFloat(Seq<char>),
    MalformedConstraint(Seq<char>),
    InconsistentDimension { expected: nat, got: nat, line: nat },
    EmptyFile,
}

impl View for ParseError {
    type V = SpecParseError;

    open spec fn view(&self) -> SpecParseError {
        match self {
            ParseError::Io(_) => SpecParseError::Io,
            ParseError::MissingSolver => SpecParseError::MissingSolver,
            ParseError::InvalidSolver(s) => SpecParseError::InvalidSolver(s@),
            ParseError::MissingObjective => SpecParseError::MissingObjective,
            ParseError::InvalidObjective(s) => SpecParseError::InvalidObjective(s@),
            ParseError::InvalidSense(s) => SpecParseError::InvalidSense(s@),
            ParseError::InvalidFloat(s) => SpecParseError::InvalidFloat(s@),
            ParseError::MalformedConstraint(s) => SpecParseError::MalformedConstraint(s@),
            ParseError::InconsistentDimension { expected, got, line } =>
                SpecParseError::InconsistentDimension {
                expected: *expected as nat,
                got: *got as nat,
                line: *line as nat,
            },
            ParseError::EmptyFile => SpecParseError::EmptyFile,
        }
    }
}

/// The text that describes a parse error (for [`SpecParseError::Io`], the
/// part before the description of the I/O error).
pub open spec fn message_text(e: SpecParseError) -> Seq<char> {
    match e {
        SpecParseError::Io => "IO error: "@,
        SpecParseError::MissingSolver => "Missing 'solver:' declaration"@,
        SpecParseError::InvalidSolver(s) => "Unknown solver '"@ + s
            + "', expected DCD or IFFBDD"@,
        SpecParseError::MissingObjective => "Missing 'objective:' declaration"@,
        SpecParseError::InvalidObjective(s) => "Unknown objective '"@ + s
            + "', expected L1 or L2"@,
        SpecParseError::InvalidSense(s) => "Unknown sense '"@ + s
            + "', expected Less/Greater/Equal/Interval"@,
        SpecParseError::InvalidFloat(s) => "Could not parse float: '"@ + s + "'"@,
        SpecParseError::MalformedConstraint(s) => "Malformed constraint line: '"@ + s + "'"@,
        SpecParseError::InconsistentDimension { expected, got, line } => "Line "@ + decimal(line)
            + ": expected "@ + decimal(expected) + " coefficients, got "@ + decimal(got),
        SpecParseError::EmptyFile => "File is empty or has no content"@,
    }
}

impl ParseError {
    /// The text that describes this error.
    pub fn message(&self) -> (r: String)
        ensures
            match self {
                ParseError::Io(e) => exists|t: String|
                    to_string_from_display_ensures::<std::io::Error>(e, t) && r@ == message_text(
                        self@,
                    ) + t@,
                _ => r@ == message_text(self@),
            },
    {
        let mut r = String::new();
        match self {
            ParseError::Io(e) => {
                let t = e.to_string();
                r.append("IO error: ");
                r.append(t.as_str());
            },
            ParseError::MissingSolver => {
                r.append("Missing 'solver:' declaration");
            },
            ParseError::InvalidSolver(s) => {
                r.append("Unknown solver '");
                r.append(s.as_str());
                r.append("', expected DCD or IFFBDD");
            },
            ParseError::MissingObjective => {
                r.append("Missing 'objective:' declaration");
            },
            ParseError::InvalidObjective(s) => {
                r.append("Unknown objective '");
                r.append(s.as_str());
                r.append("', expected L1 or L2");
            },
            ParseError::InvalidSense(s) => {
                r.append("Unknown sense '");
                r.append(s.as_str());
                r.append("', expected Less/Greater/Equal/Interval");
            },
            ParseError::InvalidFloat(s) => {
                r.append("Could not parse float: '");
                r.append(s.as_str());
                r.append("'");
            },
            ParseError::MalformedConstraint(s) => {
                r.append("Malformed constraint line: '");
                r.append(s.as_str());
                r.append("'");
            },
            ParseError::InconsistentDimension { expected, got, line } => {
                r.append("Line ");
                push_decimal(&mut r, *line);
                r.append(": expected ");
                push_decimal(&mut r, *expected);
                r.append(" coefficients, got ");
                push_decimal(&mut r, *got);
            },
            ParseError::EmptyFile => {
                r.append("File is empty or has no content");
            },
        }
        proof {
            assert(r@ =~= message_text(self@) || self is Io);
        }
        r
    }
}

/// Value of a result whose error is a [`ParseError`].
pub open spec fn result_view<T>(r: Result<T, ParseError>) -> Result<T, SpecParseError> {
    match r {
        Ok(t) => Ok(t),
        Err(e) => Err(e@),
    }
}

pub open spec fn solver_key() -> Seq<char> {
    seq!['s', 'o', 'l', 'v', 'e', 'r', ':']
}

pub open spec fn objective_key() -> Seq<char> {
    seq!['o', 'b', 'j', 'e', 'c', 't', 'i', 'v', 'e', ':']
}

pub open spec fn constraint_key() -> Seq<char> {
    seq!['c', 'o', 'n', 's', 't', 'r', 'a', 'i', 'n', 't', ':']
}

/// The sense that the name `p` stands for, surrounding white space ignored.
pub open spec fn sense_of(p: Seq<char>) -> Result<SenseType, SpecParseError> {
    let t = trim(p);
    if t == seq!['L', 'e', 's', 's'] {
        Ok(SenseType::Less)
    } else if t == seq!['G', 'r', 'e', 'a', 't', 'e', 'r'] {
        Ok(SenseType::Greater)
    } else if t == seq!['E', 'q', 'u', 'a', 'l'] {
        Ok(SenseType::Equal)
    } else if t == seq!['I', 'n', 't', 'e', 'r', 'v', 'a', 'l'] {
        Ok(SenseType::Interval)
    } else {
        Err(SpecParseError::InvalidSense(t))
    }
}

/// `s[lo..hi]` is `w`.
fn equals_at(s: &Vec<char>, lo: usize, hi: usize, w: &[char]) -> (b: bool)
    requires
        lo <= hi <= s.len(),
    ensures
        b == (s@.subrange(lo as int, hi as int) == w@),
{
    if hi - lo != w.len() {
        return false;
    }
    let r = starts_with_at(s, lo, hi, w);
    assert(s@.subrange(lo as int, hi as int).take(w@.len() as int) =~= s@.subrange(
        lo as int,
        hi as int,
    ));
    r
}

/// The sense named by `s[lo..hi]`.
fn sense_at(s: &Vec<char>, lo: usize, hi: usize) -> (r: Result<SenseType, ParseError>)
    requires
        lo <= hi <= s.len(),
    ensures
        result_view(r) == sense_of(s@.subrange(lo as int, hi as int)),
{
    let (a, b) = trim_range(s, lo, hi);
    if equals_at(s, a, b, &['L', 'e', 's', 's']) {
        Ok(SenseType::Less)
    } else if equals_at(s, a, b, &['G', 'r', 'e', 'a', 't', 'e', 'r']) {
        Ok(SenseType::Greater)
    } else if equals_at(s, a, b, &['E', 'q', 'u', 'a', 'l']) {
        Ok(SenseType::Equal)
    } else if equals_at(s, a, b, &['I', 'n', 't', 'e', 'r', 'v', 'a', 'l']) {
        Ok(SenseType::Interval)
    } else {
        Err(ParseError::InvalidSense(string_of(s, a, b)))
    }
}

/// Reads the name of a sense (`Less`, `Greater`, `Equal` or `Interval`),
/// surrounding white space ignored.
pub fn parse_sense(s: &str) -> (r: Result<SenseType, ParseError>)
    ensures
        result_view(r) == sense_of(s@),
{
    let v = str_chars(s);
    assert(v@.subrange(0, v@.len() as int) =~= v@);
    sense_at(&v, 0, v.len())
}

/// Index of the first word of `ws` that is not a float literal, or `-1`.
pub open spec fn first_non_float(ws: Seq<Seq<char>>) -> int
    decreases ws.len(),
{
    if ws.len() == 0 {
        -1
    } else if !is_float_literal(ws[0]) {
        0
    } else {
        let r = first_non_float(ws.drop_first());
        if r < 0 {
            -1
        } else {
            r + 1
        }
    }
}

pub proof fn lemma_first_non_float(ws: Seq<Seq<char>>)
    ensures
        -1 <= first_non_float(ws) < ws.len(),
        first_non_float(ws) == -1 <==> (forall|j: int|
            0 <= j < ws.len() ==> is_float_literal(#[trigger] ws[j])),
        first_non_float(ws) >= 0 ==> !is_float_literal(ws[first_non_float(ws)]),
        forall|j: int| 0 <= j < first_non_float(ws) ==> is_float_literal(#[trigger] ws[j]),
    decreases ws.len(),
{
    if ws.len() > 0 && is_float_literal(ws[0]) {
        lemma_first_non_float(ws.drop_first());
        assert forall|j: int|
            0 <= j < ws.len() && (first_non_float(ws) == -1 || j < first_non_float(
                ws,
            )) implies is_float_literal(#[trigger] ws[j]) by {
            if j > 0 {
                assert(ws[j] == ws.drop_first()[j - 1]);
            }
        }
    }
}

/// Where in the problem text a refused number stood.
pub open spec fn context_note(ctx: Seq<char>) -> Seq<char> {
    " (in '"@ + ctx + "')"@
}

/// The words of `p`, each of which must be a float literal; `ctx` is the line
/// that holds them, named in the error.
pub open spec fn float_words(p: Seq<char>, ctx: Seq<char>) -> Result<
    Seq<Seq<char>>,
    SpecParseError,
> {
    let ws = words(p);
    let i = first_non_float(ws);
    if i < 0 {
        Ok(ws)
    } else {
        Err(SpecParseError::InvalidFloat(ws[i] + context_note(ctx)))
    }
}

/// The numbers written in `s[lo..hi]`, which lies in the line `s[clo..chi]`.
fn parse_floats(s: &Vec<char>, lo: usize, hi: usize, clo: usize, chi: usize) -> (r: Result<
    Vec<String>,
    ParseError,
>)
    requires
        lo <= hi <= s.len(),
        clo <= chi <= s.len(),
    ensures
        match r {
            Ok(v) => float_words(
                s@.subrange(lo as int, hi as int),
                s@.subrange(clo as int, chi as int),
            ) == Ok::<Seq<Seq<char>>, SpecParseError>(v.deep_view()),
            Err(e) => float_words(
                s@.subrange(lo as int, hi as int),
                s@.subrange(clo as int, chi as int),
            ) == Err::<Seq<Seq<char>>, SpecParseError>(e@),
        },
{
    let ranges = word_ranges(s, lo, hi);
    let ghost ws = words(s@.subrange(lo as int, hi as int));
    let mut out: Vec<String> = Vec::new();
    let mut k: usize = 0;
    while k < ranges.len()
        invariant
            k <= ranges@.len() == ws.len(),
            lo <= hi <= s.len(),
            clo <= chi <= s.len(),
            ws == words(s@.subrange(lo as int, hi as int)),
            forall|j: int|
                0 <= j < ranges@.len() ==> lo <= #[trigger] ranges@[j].0 <= ranges@[j].1 <= hi
                    && s@.subrange(ranges@[j].0 as int, ranges@[j].1 as int) == ws[j],
            forall|j: int| 0 <= j < k ==> is_float_literal(#[trigger] ws[j]),
            out.deep_view() == ws.take(k as int),
            out@.len() == k,
        decreases ranges.len() - k,
    {
        let (a, b) = ranges[k];
        if !float_literal_at(s, a, b) {
            proof {
                lemma_first_non_float(ws);
                let f = first_non_float(ws);
                assert(!is_float_literal(ws[k as int]));
                if f < 0 || f > k {
                } else if f < k {
                    assert(is_float_literal(ws[f]));
                }
                assert(f == k);
            }
            let mut m = string_of(s, a, b);
            m.append(" (in '");
            let ctx = string_of(s, clo, chi);
            m.append(ctx.as_str());
            m.append("')");
            proof {
                assert(m@ =~= ws[k as int] + context_note(s@.subrange(clo as int, chi as int)));
            }
            return Err(ParseError::InvalidFloat(m));
        }
        let w = string_of(s, a, b);
        let ghost prev = out@;
        out.push(w);
        proof {
            assert forall|i: int| 0 <= i < k + 1 implies out.deep_view()[i] == ws.take(
                k + 1,
            )[i] by {
                if i < k {
                    assert(out@[i] == prev[i]);
                    assert(ws.take(k as int)[i] == ws[i]);
                }
            }
            assert(out.deep_view() =~= ws.take(k + 1));
        }
        k = k + 1;
    }
    proof {
        lemma_first_non_float(ws);
        assert(ws.take(k as int) =~= ws);
    }
    Ok(out)
}

/// What the parser has gathered from the lines read so far.
pub struct SpecParseState {
    pub solver: Option<SolverType>,
    pub objective: Option<Objective>,
    /// Number of coefficients of the first constraint.
    pub k: Option<nat>,
    pub constraints: Seq<SpecConstraint>,
    /// Numbers of the lines that were neither blank nor a declaration.
    pub skipped: Seq<nat>,
}

pub open spec fn initial_state() -> SpecParseState {
    SpecParseState {
        solver: None,
        objective: None,
        k: None,
        constraints: seq![],
        skipped: seq![],
    }
}

/// The constraint of kind `sense` with the borders `bounds` and the
/// coefficients `coeffs`, if the number of borders fits the kind.
pub open spec fn make_constraint(
    sense: SenseType,
    bounds: Seq<Seq<char>>,
    coeffs: Seq<Seq<char>>,
) -> Option<SpecConstraint> {
    match sense {
        SenseType::Less => if bounds.len() == 1 {
            Some(SpecConstraint::Less(bounds[0], coeffs))
        } else {
            None
        },
        SenseType::Greater => if bounds.len() == 1 {
            Some(SpecConstraint::Greater(bounds[0], coeffs))
        } else {
            None
        },
        SenseType::Equal => if bounds.len() == 1 {
            Some(SpecConstraint::Equal(bounds[0], coeffs))
        } else {
            None
        },
        SenseType::Interval => if bounds.len() == 2 {
            Some(SpecConstraint::Interval((bounds[0], bounds[1]), coeffs))
        } else {
            None
        },
    }
}

/// Reads `v`, the text after `constraint:` on the (trimmed, comment-free)
/// line `line`, the `n`-th of the problem: `coefficients | borders | sense`.
pub open spec fn constraint_step(st: SpecParseState, line: Seq<char>, v: Seq<char>, n: nat) -> Result<
    SpecParseState,
    SpecParseError,
> {
    match split_once(v, '|') {
        None => Err(SpecParseError::MalformedConstraint(line)),
        Some((p0, r)) => match split_once(r, '|') {
            None => Err(SpecParseError::MalformedConstraint(line)),
            Some((p1, p2)) => match float_words(p0, line) {
                Err(e) => Err(e),
                Ok(coeffs) => match float_words(p1, line) {
                    Err(e) => Err(e),
                    Ok(bounds) => match sense_of(p2) {
                        Err(e) => Err(e),
                        Ok(sense) => if st.k is Some && st.k->0 != coeffs.len() {
                            Err(
                                SpecParseError::InconsistentDimension {
                                    expected: st.k->0,
                                    got: coeffs.len(),
                                    line: n,
                                },
                            )
                        } else {
                            match make_constraint(sense, bounds, coeffs) {
                                None => Err(SpecParseError::MalformedConstraint(line)),
                                Some(c) => Ok(
                                    SpecParseState {
                                        k: Some(coeffs.len()),
                                        constraints: st.constraints.push(c),
                                        ..st
                                    },
                                ),
                            }
                        },
                    },
                },
            },
        },
    }
}

/// Reads `raw`, the `n`-th line of the problem.
pub open spec fn step(st: SpecParseState, raw: Seq<char>, n: nat) -> Result<
    SpecParseState,
    SpecParseError,
> {
    let line = trim(before_first(raw, '#'));
    if line.len() == 0 {
        Ok(st)
    } else if has_prefix(line, solver_key()) {
        let tok = trim(line.skip(solver_key().len() as int));
        if tok == seq!['D', 'C', 'D'] {
            Ok(SpecParseState { solver: Some(SolverType::Dcd), ..st })
        } else if tok == seq!['I', 'F', 'F', 'B', 'D', 'D'] {
            Ok(SpecParseState { solver: Some(SolverType::Iffbdd), ..st })
        } else {
            Err(SpecParseError::InvalidSolver(tok))
        }
    } else if has_prefix(line, objective_key()) {
        let tok = trim(line.skip(objective_key().len() as int));
        if tok == seq!['L', '1'] {
            Ok(SpecParseState { objective: Some(Objective::L1), ..st })
        } else if tok == seq!['L', '2'] {
            Ok(SpecParseState { objective: Some(Objective::L2), ..st })
        } else {
            Err(SpecParseError::InvalidObjective(tok))
        }
    } else if has_prefix(line, constraint_key()) {
        constraint_step(st, line, line.skip(constraint_key().len() as int), n)
    } else {
        Ok(SpecParseState { skipped: st.skipped.push(n), ..st })
    }
}

/// Reads the lines `ls[i..]` from the state `st`; stops at the first error,
/// with the state before that line.
pub open spec fn run_from(ls: Seq<Seq<char>>, i: int, st: SpecParseState) -> (
    SpecParseState,
    Option<SpecParseError>,
)
    decreases ls.len() - i,
{
    if i < 0 || i >= ls.len() {
        (st, None)
    } else {
        match step(st, ls[i], (i + 1) as nat) {
            Err(e) => (st, Some(e)),
            Ok(next) => run_from(ls, i + 1, next),
        }
    }
}

/// The problem that the gathered state describes.
pub open spec fn finish(st: SpecParseState) -> Result<SpecProblem, SpecParseError> {
    match st.solver {
        None => Err(SpecParseError::MissingSolver),
        Some(solver) => match st.objective {
            None => Err(SpecParseError::MissingObjective),
            Some(objective) => Ok(
                SpecProblem {
                    solver,
                    objective,
                    k: match st.k {
                        Some(k) => k,
                        None => 0,
                    },
                    constraints: st.constraints,
                },
            ),
        },
    }
}

/// What reading the problem text `content` gives: the numbers of the lines
/// skipped before it stopped, and the problem or the error.
pub open spec fn read_problem(content: Seq<char>) -> (Seq<nat>, Result<SpecProblem, SpecParseError>) {
    if content.len() == 0 {
        (seq![], Err(SpecParseError::EmptyFile))
    } else {
        let (st, err) = run_from(lines(content), 0, initial_state());
        match err {
            Some(e) => (st.skipped, Err(e)),
            None => (st.skipped, finish(st)),
        }
    }
}

/// Every constraint has exactly `k` coefficients, `k` is `0` when there is no
/// constraint, and every number is a literal that `f64::from_str` accepts.
pub open spec fn problem_well_formed(p: SpecProblem) -> bool {
    &&& p.constraints.len() == 0 ==> p.k == 0
    &&& forall|i: int|
        0 <= i < p.constraints.len() ==> (#[trigger] p.constraints[i]).coefficients().len()
            == p.k
    &&& forall|i: int, j: int|
        0 <= i < p.constraints.len() && 0 <= j < p.constraints[i].coefficients().len()
            ==> is_float_literal(#[trigger] p.constraints[i].coefficients()[j])
    &&& forall|i: int, j: int|
        0 <= i < p.constraints.len() && 0 <= j < p.constraints[i].borders().len()
            ==> is_float_literal(#[trigger] p.constraints[i].borders()[j])
}

/// The gathered state describes a well-formed problem so far.
pub open spec fn state_well_formed(st: SpecParseState) -> bool {
    &&& st.k is None <==> st.constraints.len() == 0
    &&& forall|i: int|
        0 <= i < st.constraints.len() ==> st.k is Some && (
        #[trigger] st.constraints[i]).coefficients().len() == st.k->0
    &&& forall|i: int, j: int|
        0 <= i < st.constraints.len() && 0 <= j < st.constraints[i].coefficients().len()
            ==> is_float_literal(#[trigger] st.constraints[i].coefficients()[j])
    &&& forall|i: int, j: int|
        0 <= i < st.constraints.len() && 0 <= j < st.constraints[i].borders().len()
            ==> is_float_literal(#[trigger] st.constraints[i].borders()[j])
}

proof fn lemma_float_words(p: Seq<char>, ctx: Seq<char>)
    ensures
        float_words(p, ctx) matches Ok(ws) ==> forall|j: int|
            0 <= j < ws.len() ==> is_float_literal(#[trigger] ws[j]),
{
    lemma_first_non_float(words(p));
}

proof fn lemma_step_well_formed(st: SpecParseState, raw: Seq<char>, n: nat)
    requires
        state_well_formed(st),
    ensures
        step(st, raw, n) matches Ok(next) ==> state_well_formed(next),
{
    let line = trim(before_first(raw, '#'));
    if line.len() > 0 && !has_prefix(line, solver_key()) && !has_prefix(line, objective_key())
        && has_prefix(line, constraint_key()) {
        let v = line.skip(constraint_key().len() as int);
        if let Some((p0, r)) = split_once(v, '|') {
            if let Some((p1, p2)) = split_once(r, '|') {
                lemma_float_words(p0, line);
                lemma_float_words(p1, line);
                if let Ok(next) = step(st, raw, n) {
                    let coeffs = float_words(p0, line)->Ok_0;
                    let bounds = float_words(p1, line)->Ok_0;
                    let c = next.constraints.last();
                    assert(next.constraints == st.constraints.push(c));
                    assert(c.coefficients() == coeffs);
                    assert forall|j: int| 0 <= j < c.borders().len() implies is_float_literal(
                        #[trigger] c.borders()[j],
                    ) by {
                        assert(c.borders()[j] == bounds[j]);
                    }
                    assert forall|i: int, j: int|
                        0 <= i < next.constraints.len() && 0 <= j
                            < next.constraints[i].coefficients().len() implies is_float_literal(
                        #[trigger] next.constraints[i].coefficients()[j],
                    ) by {
                        if i < st.constraints.len() {
                            assert(next.constraints[i] == st.constraints[i]);
                        }
                    }
                    assert forall|i: int, j: int|
                        0 <= i < next.constraints.len() && 0 <= j
                            < next.constraints[i].borders().len() implies is_float_literal(
                        #[trigger] next.constraints[i].borders()[j],
                    ) by {
                        if i < st.constraints.len() {
                            assert(next.constraints[i] == st.constraints[i]);
                        }
                    }
                    assert forall|i: int| 0 <= i < next.constraints.len() implies next.k is Some
                        && (#[trigger] next.constraints[i]).coefficients().len() == next.k->0 by {
                        if i < st.constraints.len() {
                            assert(next.constraints[i] == st.constraints[i]);
                        }
                    }
                }
            }
        }
    }
}

proof fn lemma_run_well_formed(ls: Seq<Seq<char>>, i: int, st: SpecParseState)
    requires
        state_well_formed(st),
    ensures
        state_well_formed(run_from(ls, i, st).0),
    decreases ls.len() - i,
{
    if 0 <= i < ls.len() {
        lemma_step_well_formed(st, ls[i], (i + 1) as nat);
        if let Ok(next) = step(st, ls[i], (i + 1) as nat) {
            lemma_run_well_formed(ls, i + 1, next);
        }
    }
}

/// A problem read from any text is well formed: each constraint has exactly
/// `k` coefficients (`k` is the number of coefficients of the first
/// constraint, `0` when there is none), and each number is a literal that
/// `f64::from_str` accepts.
pub proof fn lemma_read_problem_well_formed(content: Seq<char>)
    ensures
        read_problem(content).1 matches Ok(p) ==> problem_well_formed(p),
{
    if content.len() > 0 {
        lemma_run_well_formed(lines(content), 0, initial_state());
        let st = run_from(lines(content), 0, initial_state()).0;
        if let Ok(p) = read_problem(content).1 {
            assert(p.constraints == st.constraints);
            assert(p.k == match st.k {
                Some(k) => k,
                None => 0,
            });
        }
    }
}

/// Reading depends on each line only through what it says once its comment
/// is cut off and it is trimmed.
proof fn lemma_run_same_effective_lines(
    ls1: Seq<Seq<char>>,
    ls2: Seq<Seq<char>>,
    i: int,
    st: SpecParseState,
)
    requires
        ls1.len() == ls2.len(),
        forall|j: int|
            0 <= j < ls2.len() ==> effective_line(#[trigger] ls1[j]) == effective_line(ls2[j]),
    ensures
        run_from(ls1, i, st) == run_from(ls2, i, st),
    decreases ls1.len() - i,
{
    if 0 <= i < ls1.len() {
        assert(effective_line(ls1[i]) == effective_line(ls2[i]));
        assert(step(st, ls1[i], (i + 1) as nat) == step(st, ls2[i], (i + 1) as nat));
        if let Ok(next) = step(st, ls1[i], (i + 1) as nat) {
            lemma_run_same_effective_lines(ls1, ls2, i + 1, next);
        }
    }
}

/// A comment at the end of a line changes nothing that is read: putting `#`
/// and any text without a line break where a line ends (just before a line
/// break, or at the end of a text whose last line is not empty) gives the same
/// skipped lines and the same problem or error.
pub proof fn lemma_trailing_comment_ignored(a: Seq<char>, m: Seq<char>, b: Seq<char>)
    requires
        forall|j: int| 0 <= j < m.len() ==> m[j] != '\n',
        (b.len() > 0 && b[0] == '\n') || (b.len() == 0 && a.len() > 0 && a.last() != '\n'),
    ensures
        read_problem(with_comment(a, m, b)) == read_problem(a + b),
{
    lemma_lines_with_comment(a, m, b);
    lemma_run_same_effective_lines(
        lines(with_comment(a, m, b)),
        lines(a + b),
        0,
        initial_state(),
    );
    assert(with_comment(a, m, b).len() > 0);
    assert((a + b).len() > 0);
}

proof fn lemma_run_not_empty_file(ls: Seq<Seq<char>>, i: int, st: SpecParseState)
    ensures
        run_from(ls, i, st).1 != Some(SpecParseError::EmptyFile),
    decreases ls.len() - i,
{
    if 0 <= i < ls.len() {
        let raw = ls[i];
        let line = trim(before_first(raw, '#'));
        let v = line.skip(constraint_key().len() as int);
        if let Some((p0, r)) = split_once(v, '|') {
            if let Some((p1, p2)) = split_once(r, '|') {
                assert(float_words(p0, line) != Err::<Seq<Seq<char>>, SpecParseError>(
                    SpecParseError::EmptyFile,
                ));
                assert(float_words(p1, line) != Err::<Seq<Seq<char>>, SpecParseError>(
                    SpecParseError::EmptyFile,
                ));
            }
        }
        assert(step(st, raw, (i + 1) as nat) != Err::<SpecParseState, SpecParseError>(
            SpecParseError::EmptyFile,
        ));
        if let Ok(next) = step(st, raw, (i + 1) as nat) {
            lemma_run_not_empty_file(ls, i + 1, next);
        }
    }
}

/// A text is refused as empty exactly when it holds no character at all; a
/// text of blank and comment lines is refused for its missing solver.
pub proof fn lemma_empty_file(content: Seq<char>)
    ensures
        read_problem(content).1 == Err::<SpecProblem, SpecParseError>(SpecParseError::EmptyFile)
            <==> content.len() == 0,
{
    if content.len() > 0 {
        lemma_run_not_empty_file(lines(content), 0, initial_state());
    }
}

/// The line `l` declares the solver.
pub open spec fn is_solver_line(l: Seq<char>) -> bool {
    has_prefix(effective_line(l), solver_key())
}

/// The line `l` declares the objective.
pub open spec fn is_objective_line(l: Seq<char>) -> bool {
    !is_solver_line(l) && has_prefix(effective_line(l), objective_key())
}

/// The line `l` states a constraint.
pub open spec fn is_constraint_line(l: Seq<char>) -> bool {
    !is_solver_line(l) && !is_objective_line(l) && has_prefix(
        effective_line(l),
        constraint_key(),
    )
}

/// The solver that the solver line `l` names, if it names one.
pub open spec fn named_solver(l: Seq<char>) -> Option<SolverType> {
    let tok = trim(effective_line(l).skip(solver_key().len() as int));
    if tok == seq!['D', 'C', 'D'] {
        Some(SolverType::Dcd)
    } else if tok == seq!['I', 'F', 'F', 'B', 'D', 'D'] {
        Some(SolverType::Iffbdd)
    } else {
        None
    }
}

/// The objective that the objective line `l` names, if it names one.
pub open spec fn named_objective(l: Seq<char>) -> Option<Objective> {
    let tok = trim(effective_line(l).skip(objective_key().len() as int));
    if tok == seq!['L', '1'] {
        Some(Objective::L1)
    } else if tok == seq!['L', '2'] {
        Some(Objective::L2)
    } else {
        None
    }
}

/// The constraint that the constraint line `l` states, if it is well formed.
pub open spec fn line_constraint(l: Seq<char>) -> Option<SpecConstraint> {
    let e = effective_line(l);
    match split_once(e.skip(constraint_key().len() as int), '|') {
        None => None,
        Some((p0, r)) => match split_once(r, '|') {
            None => None,
            Some((p1, p2)) => match (float_words(p0, e), float_words(p1, e), sense_of(p2)) {
                (Ok(coeffs), Ok(bounds), Ok(sense)) => make_constraint(sense, bounds, coeffs),
                _ => None,
            },
        },
    }
}

/// The solver of the last solver line among `ls[i..]`, `current` if none.
pub open spec fn last_solver_from(ls: Seq<Seq<char>>, i: int, current: Option<SolverType>) -> Option<
    SolverType,
>
    decreases ls.len() - i,
{
    if i < 0 || i >= ls.len() {
        current
    } else if is_solver_line(ls[i]) {
        last_solver_from(ls, i + 1, named_solver(ls[i]))
    } else {
        last_solver_from(ls, i + 1, current)
    }
}

/// The objective of the last objective line among `ls[i..]`, `current` if none.
pub open spec fn last_objective_from(
    ls: Seq<Seq<char>>,
    i: int,
    current: Option<Objective>,
) -> Option<Objective>
    decreases ls.len() - i,
{
    if i < 0 || i >= ls.len() {
        current
    } else if is_objective_line(ls[i]) {
        last_objective_from(ls, i + 1, named_objective(ls[i]))
    } else {
        last_objective_from(ls, i + 1, current)
    }
}

/// The constraints stated by the constraint lines among `ls[i..]`, one per
/// line, in line order.
pub open spec fn constraints_from(ls: Seq<Seq<char>>, i: int) -> Seq<SpecConstraint>
    decreases ls.len() - i,
{
    if i < 0 || i >= ls.len() {
        seq![]
    } else if is_constraint_line(ls[i]) {
        match line_constraint(ls[i]) {
            Some(c) => seq![c] + constraints_from(ls, i + 1),
            None => constraints_from(ls, i + 1),
        }
    } else {
        constraints_from(ls, i + 1)
    }
}

proof fn lemma_run_declarations(ls: Seq<Seq<char>>, i: int, st: SpecParseState)
    requires
        0 <= i,
        run_from(ls, i, st).1 is None,
    ensures
        run_from(ls, i, st).0.solver == last_solver_from(ls, i, st.solver),
        run_from(ls, i, st).0.objective == last_objective_from(ls, i, st.objective),
        run_from(ls, i, st).0.constraints == st.constraints + constraints_from(ls, i),
        forall|j: int|
            i <= j < ls.len() && is_constraint_line(#[trigger] ls[j]) ==> line_constraint(
                ls[j],
            ) is Some,
    decreases ls.len() - i,
{
    if i >= ls.len() {
        assert(st.constraints + seq![] =~= st.constraints);
    } else {
        let l = ls[i];
        let next = step(st, l, (i + 1) as nat)->Ok_0;
        lemma_run_declarations(ls, i + 1, next);
        if is_constraint_line(l) {
            let c = line_constraint(l)->Some_0;
            assert(line_constraint(l) is Some);
            assert(next.constraints == st.constraints.push(c));
            assert(st.constraints.push(c) + constraints_from(ls, i + 1) =~= st.constraints + (
            seq![c] + constraints_from(ls, i + 1)));
        } else {
            assert(next.constraints == st.constraints);
        }
    }
}

/// What a text declares decides what is read: the last `solver:` line names
/// the solver, the last `objective:` line names the objective, and every
/// `constraint:` line (once its comment is cut off and it is trimmed) states
/// exactly one constraint, the constraints coming in line order.
pub proof fn lemma_declarations_decide(content: Seq<char>)
    ensures
        read_problem(content).1 matches Ok(p) ==> {
            let ls = lines(content);
            &&& last_solver_from(ls, 0, None) == Some(p.solver)
            &&& last_objective_from(ls, 0, None) == Some(p.objective)
            &&& p.constraints == constraints_from(ls, 0)
            &&& forall|j: int|
                0 <= j < ls.len() && is_constraint_line(#[trigger] ls[j]) ==> line_constraint(
                    ls[j],
                ) is Some
        },
{
    if content.len() > 0 {
        let ls = lines(content);
        if run_from(ls, 0, initial_state()).1 is None {
            lemma_run_declarations(ls, 0, initial_state());
            assert(seq![] + constraints_from(ls, 0) =~= constraints_from(ls, 0));
        }
    }
}

/// Number of borders that a constraint of kind `sense` has.
pub open spec fn border_count(sense: SenseType) -> nat {
    match sense {
        SenseType::Interval => 2,
        _ => 1,
    }
}

/// The coefficients, the borders and the kind written on the constraint line
/// `l` (`coefficients | borders | sense`), when each part reads.
pub open spec fn constraint_parts(l: Seq<char>) -> Option<(Seq<Seq<char>>, Seq<Seq<char>>, SenseType)> {
    let e = effective_line(l);
    match split_once(e.skip(constraint_key().len() as int), '|') {
        None => None,
        Some((p0, r)) => match split_once(r, '|') {
            None => None,
            Some((p1, p2)) => match (float_words(p0, e), float_words(p1, e), sense_of(p2)) {
                (Ok(coeffs), Ok(bounds), Ok(sense)) => Some((coeffs, bounds, sense)),
                _ => None,
            },
        },
    }
}

/// A constraint line states a constraint exactly when its parts read and it
/// has as many borders as its kind asks (one, or two for an interval); the
/// constraint is then of that kind, with those coefficients and borders, in
/// the order written.
pub proof fn lemma_line_constraint_shape(l: Seq<char>)
    ensures
        line_constraint(l) is Some <==> (constraint_parts(l) matches Some((c, b, t))
            && b.len() == border_count(t)),
        line_constraint(l) matches Some(x) ==> (constraint_parts(l) matches Some((c, b, t))
            && x.coefficients() == c && x.borders() == b && x.sense() == t),
{
    if let Some((c, b, t)) = constraint_parts(l) {
        if b.len() == border_count(t) {
            if t is Interval {
                assert(seq![b[0], b[1]] =~= b);
            } else {
                assert(seq![b[0]] =~= b);
            }
        }
    }
}

/// The line `l` is neither blank (once its comment is cut off) nor a
/// declaration: reading skips it.
pub open spec fn is_other_line(l: Seq<char>) -> bool {
    effective_line(l).len() > 0 && !is_solver_line(l) && !is_objective_line(l)
        && !is_constraint_line(l)
}

/// The numbers of the skipped lines among `ls[i..]`, in order.
pub open spec fn skipped_from(ls: Seq<Seq<char>>, i: int) -> Seq<nat>
    decreases ls.len() - i,
{
    if i < 0 || i >= ls.len() {
        seq![]
    } else if is_other_line(ls[i]) {
        seq![(i + 1) as nat] + skipped_from(ls, i + 1)
    } else {
        skipped_from(ls, i + 1)
    }
}

proof fn lemma_skipped_from(ls: Seq<Seq<char>>, i: int)
    requires
        0 <= i,
    ensures
        forall|a: int, b: int|
            0 <= a < b < skipped_from(ls, i).len() ==> skipped_from(ls, i)[a] < skipped_from(
                ls,
                i,
            )[b],
        forall|a: int|
            0 <= a < skipped_from(ls, i).len() ==> i < #[trigger] skipped_from(ls, i)[a]
                <= ls.len(),
        forall|j: int|
            i <= j < ls.len() ==> (is_other_line(ls[j]) <==> skipped_from(ls, i).contains(
                (j + 1) as nat,
            )),
    decreases ls.len() - i,
{
    if i < ls.len() {
        lemma_skipped_from(ls, i + 1);
        let rest = skipped_from(ls, i + 1);
        if is_other_line(ls[i]) {
            let s = seq![(i + 1) as nat] + rest;
            assert forall|a: int| 0 < a < s.len() implies s[a] == rest[a - 1] by {}
            assert forall|j: int| i <= j < ls.len() implies (is_other_line(ls[j]) <==> s.contains(
                (j + 1) as nat,
            )) by {
                if j == i {
                    assert(s[0] == (i + 1) as nat);
                    assert(!rest.contains((i + 1) as nat));
                } else {
                    if rest.contains((j + 1) as nat) {
                        let a = choose|a: int| 0 <= a < rest.len() && rest[a] == (j + 1) as nat;
                        assert(s[a + 1] == rest[a]);
                    }
                    if s.contains((j + 1) as nat) {
                        let a = choose|a: int| 0 <= a < s.len() && s[a] == (j + 1) as nat;
                        assert(a > 0);
                        assert(rest[a - 1] == s[a]);
                    }
                }
            }
        } else {
            assert(!rest.contains((i + 1) as nat));
        }
    }
}

proof fn lemma_run_skipped(ls: Seq<Seq<char>>, i: int, st: SpecParseState)
    requires
        0 <= i,
        run_from(ls, i, st).1 is None,
    ensures
        run_from(ls, i, st).0.skipped == st.skipped + skipped_from(ls, i),
    decreases ls.len() - i,
{
    if i >= ls.len() {
        assert(st.skipped + seq![] =~= st.skipped);
    } else {
        let l = ls[i];
        let next = step(st, l, (i + 1) as nat)->Ok_0;
        lemma_run_skipped(ls, i + 1, next);
        if is_other_line(l) {
            assert(next.skipped == st.skipped.push((i + 1) as nat));
            assert(st.skipped.push((i + 1) as nat) + skipped_from(ls, i + 1) =~= st.skipped + (
            seq![(i + 1) as nat] + skipped_from(ls, i + 1)));
        } else {
            assert(next.skipped == st.skipped);
        }
    }
}

/// When a text is read, the lines reported as skipped are exactly those that
/// are neither blank (once their comment is cut off) nor a declaration, each
/// by its 1-based number, in increasing order.
pub proof fn lemma_skipped_lines(content: Seq<char>)
    ensures
        read_problem(content).1 is Ok ==> {
            let ls = lines(content);
            let sk = read_problem(content).0;
            &&& forall|a: int, b: int| 0 <= a < b < sk.len() ==> sk[a] < sk[b]
            &&& forall|a: int| 0 <= a < sk.len() ==> 1 <= #[trigger] sk[a] <= ls.len()
            &&& forall|j: int|
                0 <= j < ls.len() ==> (is_other_line(#[trigger] ls[j]) <==> sk.contains(
                    (j + 1) as nat,
                ))
        },
{
    if content.len() > 0 {
        let ls = lines(content);
        if run_from(ls, 0, initial_state()).1 is None {
            lemma_run_skipped(ls, 0, initial_state());
            lemma_skipped_from(ls, 0);
            assert(seq![] + skipped_from(ls, 0) =~= skipped_from(ls, 0));
        }
    }
}

/// Every line of `ls` reads: each declaration names a known solver or
/// objective, and each constraint line states a constraint with `dim`
/// coefficients.
pub open spec fn lines_read(ls: Seq<Seq<char>>, dim: nat) -> bool {
    &&& forall|j: int|
        0 <= j < ls.len() && is_solver_line(#[trigger] ls[j]) ==> named_solver(ls[j]) is Some
    &&& forall|j: int|
        0 <= j < ls.len() && is_objective_line(#[trigger] ls[j]) ==> named_objective(
            ls[j],
        ) is Some
    &&& forall|j: int|
        0 <= j < ls.len() && is_constraint_line(#[trigger] ls[j]) ==> line_constraint(
            ls[j],
        ) is Some && line_constraint(ls[j])->Some_0.coefficients().len() == dim
}

proof fn lemma_run_completes(ls: Seq<Seq<char>>, i: int, st: SpecParseState, dim: nat)
    requires
        0 <= i,
        lines_read(ls, dim),
        st.k is None || st.k == Some(dim),
    ensures
        run_from(ls, i, st).1 is None,
        (st.solver is Some || exists|j: int| i <= j < ls.len() && is_solver_line(#[trigger] ls[j]))
            ==> run_from(ls, i, st).0.solver is Some,
        (st.objective is Some || exists|j: int|
            i <= j < ls.len() && is_objective_line(#[trigger] ls[j])) ==> run_from(
            ls,
            i,
            st,
        ).0.objective is Some,
    decreases ls.len() - i,
{
    if i < ls.len() {
        let l = ls[i];
        let n = (i + 1) as nat;
        if is_solver_line(l) {
            assert(named_solver(l) is Some);
        } else if is_objective_line(l) {
            assert(named_objective(l) is Some);
        } else if is_constraint_line(l) {
            let c = line_constraint(l)->Some_0;
            assert(line_constraint(l) is Some);
            lemma_line_constraint_shape(l);
        }
        assert(step(st, l, n) is Ok);
        let next = step(st, l, n)->Ok_0;
        if is_constraint_line(l) {
            lemma_line_constraint_shape(l);
            assert(next.k == Some(dim));
        } else {
            assert(next.k == st.k);
        }
        assert(is_solver_line(l) ==> next.solver is Some);
        assert(st.solver is Some ==> next.solver is Some);
        assert(is_objective_line(l) ==> next.objective is Some);
        assert(st.objective is Some ==> next.objective is Some);
        lemma_run_completes(ls, i + 1, next, dim);
        if exists|j: int| i <= j < ls.len() && is_solver_line(#[trigger] ls[j]) {
            let j = choose|j: int| i <= j < ls.len() && is_solver_line(#[trigger] ls[j]);
            if j > i {
                assert(i + 1 <= j < ls.len() && is_solver_line(ls[j]));
            }
        }
        if exists|j: int| i <= j < ls.len() && is_objective_line(#[trigger] ls[j]) {
            let j = choose|j: int| i <= j < ls.len() && is_objective_line(#[trigger] ls[j]);
            if j > i {
                assert(i + 1 <= j < ls.len() && is_objective_line(ls[j]));
            }
        }
    }
}

/// Reading succeeds whenever it can: a non-empty text in which every line
/// reads (known solver and objective names; constraint lines with readable
/// parts, the right number of borders and one common number of
/// coefficients), with at least one `solver:` and one `objective:` line in
/// any order and anywhere, gives a problem.
pub proof fn lemma_read_complete(content: Seq<char>, dim: nat)
    requires
        content.len() > 0,
        lines_read(lines(content), dim),
        exists|j: int| 0 <= j < lines(content).len() && is_solver_line(#[trigger] lines(content)[j]),
        exists|j: int|
            0 <= j < lines(content).len() && is_objective_line(#[trigger] lines(content)[j]),
    ensures
        read_problem(content).1 is Ok,
{
    lemma_run_completes(lines(content), 0, initial_state(), dim);
}

/// Some constraint line among `ls[..i]` states a constraint with `d`
/// coefficients.
pub open spec fn has_constraint_with(ls: Seq<Seq<char>>, i: int, d: nat) -> bool {
    exists|j: int|
        0 <= j < i && j < ls.len() && is_constraint_line(#[trigger] ls[j]) && line_constraint(
            ls[j],
        ) is Some && line_constraint(ls[j])->Some_0.coefficients().len() == d
}

proof fn lemma_run_dimension_error(ls: Seq<Seq<char>>, i: int, st: SpecParseState)
    requires
        0 <= i,
        st.k matches Some(d) ==> has_constraint_with(ls, i, d),
    ensures
        run_from(ls, i, st).1 matches Some(SpecParseError::InconsistentDimension { expected, got, line }) ==> {
            &&& 1 <= line <= ls.len()
            &&& is_constraint_line(ls[line - 1])
            &&& constraint_parts(ls[line - 1]) matches Some((c, b, t)) && c.len() == got
            &&& got != expected
            &&& has_constraint_with(ls, line - 1, expected)
        },
    decreases ls.len() - i,
{
    if i < ls.len() {
        let l = ls[i];
        let n = (i + 1) as nat;
        match step(st, l, n) {
            Err(e) => {
                if let SpecParseError::InconsistentDimension { expected, got, line } = e {
                    assert(is_constraint_line(l));
                    assert(constraint_parts(l) is Some);
                }
            },
            Ok(next) => {
                if is_constraint_line(l) {
                    lemma_line_constraint_shape(l);
                    assert(line_constraint(l) is Some);
                    assert(has_constraint_with(ls, i + 1, next.k->Some_0));
                } else {
                    assert(next.k == st.k);
                    if let Some(d) = st.k {
                        let j = choose|j: int|
                            0 <= j < i && j < ls.len() && is_constraint_line(#[trigger] ls[j])
                                && line_constraint(ls[j]) is Some && line_constraint(
                                ls[j],
                            )->Some_0.coefficients().len() == d;
                        assert(0 <= j < i + 1 && j < ls.len() && is_constraint_line(ls[j]));
                    }
                }
                lemma_run_dimension_error(ls, i + 1, next);
            },
        }
    }
}

/// A dimension error names the line (by its 1-based number) of a constraint
/// with `got` coefficients, and `expected` is the number of coefficients of a
/// constraint stated on an earlier line.
pub proof fn lemma_dimension_error(content: Seq<char>)
    ensures
        read_problem(content).1 matches Err(SpecParseError::InconsistentDimension { expected, got, line }) ==> {
            let ls = lines(content);
            &&& 1 <= line <= ls.len()
            &&& is_constraint_line(ls[line - 1])
            &&& constraint_parts(ls[line - 1]) matches Some((c, b, t)) && c.len() == got
            &&& got != expected
            &&& has_constraint_with(ls, line - 1, expected)
        },
{
    if content.len() > 0 {
        lemma_run_dimension_error(lines(content), 0, initial_state());
    }
}

/// What the parser has gathered from the lines read so far.
struct ParseState {
    solver: Option<SolverType>,
    objective: Option<Objective>,
    k: Option<usize>,
    constraints: Vec<ConstraintSense>,
    skipped: Vec<usize>,
}

pub open spec fn line_numbers(v: Seq<usize>) -> Seq<nat> {
    v.map_values(|n: usize| n as nat)
}

impl ParseState {
    spec fn model(&self) -> SpecParseState {
        SpecParseState {
            solver: self.solver,
            objective: self.objective,
            k: match self.k {
                Some(k) => Some(k as nat),
                None => None,
            },
            constraints: constraints_view(self.constraints@),
            skipped: line_numbers(self.skipped@),
        }
    }
}

/// Reads `s[vlo..lhi]`, the text after `constraint:` on the line
/// `s[llo..lhi]`, the `n`-th of the problem.
fn constraint_line(
    st: &mut ParseState,
    s: &Vec<char>,
    llo: usize,
    vlo: usize,
    lhi: usize,
    n: usize,
) -> (r: Result<(), ParseError>)
    requires
        llo <= vlo <= lhi <= s.len(),
    ensures
        match r {
            Ok(_) => constraint_step(
                old(st).model(),
                s@.subrange(llo as int, lhi as int),
                s@.subrange(vlo as int, lhi as int),
                n as nat,
            ) == Ok::<SpecParseState, SpecParseError>(final(st).model()),
            Err(e) => constraint_step(
                old(st).model(),
                s@.subrange(llo as int, lhi as int),
                s@.subrange(vlo as int, lhi as int),
                n as nat,
            ) == Err::<SpecParseState, SpecParseError>(e@) && final(st).model() == old(
                st,
            ).model(),
        },
{
    let ghost v = s@.subrange(vlo as int, lhi as int);
    let e0 = find_char(s, vlo, lhi, '|');
    if e0 == lhi {
        return Err(ParseError::MalformedConstraint(string_of(s, llo, lhi)));
    }
    assert(v.take(e0 - vlo) =~= s@.subrange(vlo as int, e0 as int));
    assert(v.skip(e0 - vlo + 1) =~= s@.subrange(e0 + 1, lhi as int));
    let e1 = find_char(s, e0 + 1, lhi, '|');
    if e1 == lhi {
        return Err(ParseError::MalformedConstraint(string_of(s, llo, lhi)));
    }
    let ghost r1 = s@.subrange(e0 + 1, lhi as int);
    assert(r1.take(e1 - e0 - 1) =~= s@.subrange(e0 + 1, e1 as int));
    assert(r1.skip(e1 - e0 - 1 + 1) =~= s@.subrange(e1 + 1, lhi as int));
    let coeffs = match parse_floats(s, vlo, e0, llo, lhi) {
        Ok(c) => c,
        Err(e) => {
            return Err(e);
        },
    };
    let bounds = match parse_floats(s, e0 + 1, e1, llo, lhi) {
        Ok(b) => b,
        Err(e) => {
            return Err(e);
        },
    };
    let sense = match sense_at(s, e1 + 1, lhi) {
        Ok(t) => t,
        Err(e) => {
            return Err(e);
        },
    };
    let got = coeffs.len();
    match st.k {
        Some(expected) => {
            if expected != got {
                return Err(ParseError::InconsistentDimension { expected, got, line: n });
            }
        },
        None => {},
    }
    let ghost bv = bounds.deep_view();
    let ghost cv = coeffs.deep_view();
    let c = match sense {
        SenseType::Less | SenseType::Greater | SenseType::Equal => {
            if bounds.len() != 1 {
                return Err(ParseError::MalformedConstraint(string_of(s, llo, lhi)));
            }
            let mut bounds = bounds;
            let b = bounds.pop().unwrap();
            assert(b@ == bv[0]);
            match sense {
                SenseType::Less => ConstraintSense::Less(b, coeffs),
                SenseType::Greater => ConstraintSense::Greater(b, coeffs),
                _ => ConstraintSense::Equal(b, coeffs),
            }
        },
        SenseType::Interval => {
            if bounds.len() != 2 {
                return Err(ParseError::MalformedConstraint(string_of(s, llo, lhi)));
            }
            let mut bounds = bounds;
            let b1 = bounds.pop().unwrap();
            let b0 = bounds.pop().unwrap();
            assert(b0@ == bv[0] && b1@ == bv[1]);
            ConstraintSense::Interval((b0, b1), coeffs)
        },
    };
    assert(make_constraint(sense, bv, cv) == Some(c@));
    let ghost prev = st.constraints@;
    st.constraints.push(c);
    st.k = Some(got);
    assert(constraints_view(st.constraints@) =~= constraints_view(prev).push(c@));
    Ok(())
}

/// Reads the line `s[lo..hi]`, the `n`-th of the problem.
fn step_line(st: &mut ParseState, s: &Vec<char>, lo: usize, hi: usize, n: usize) -> (r: Result<
    (),
    ParseError,
>)
    requires
        lo <= hi <= s.len(),
    ensures
        match r {
            Ok(_) => step(old(st).model(), s@.subrange(lo as int, hi as int), n as nat) == Ok::<
                SpecParseState,
                SpecParseError,
            >(final(st).model()),
            Err(e) => step(old(st).model(), s@.subrange(lo as int, hi as int), n as nat) == Err::<
                SpecParseState,
                SpecParseError,
            >(e@) && final(st).model() == old(st).model(),
        },
{
    let ghost raw = s@.subrange(lo as int, hi as int);
    let h = find_char(s, lo, hi, '#');
    assert(before_first(raw, '#') =~= s@.subrange(lo as int, h as int));
    let (a, b) = trim_range(s, lo, h);
    let ghost line = s@.subrange(a as int, b as int);
    if a == b {
        return Ok(());
    }
    if starts_with_at(s, a, b, &['s', 'o', 'l', 'v', 'e', 'r', ':']) {
        assert(line.skip(7) =~= s@.subrange(a + 7, b as int));
        let (ta, tb) = trim_range(s, a + 7, b);
        if equals_at(s, ta, tb, &['D', 'C', 'D']) {
            st.solver = Some(SolverType::Dcd);
            Ok(())
        } else if equals_at(s, ta, tb, &['I', 'F', 'F', 'B', 'D', 'D']) {
            st.solver = Some(SolverType::Iffbdd);
            Ok(())
        } else {
            Err(ParseError::InvalidSolver(string_of(s, ta, tb)))
        }
    } else if starts_with_at(s, a, b, &['o', 'b', 'j', 'e', 'c', 't', 'i', 'v', 'e', ':']) {
        assert(line.skip(10) =~= s@.subrange(a + 10, b as int));
        let (ta, tb) = trim_range(s, a + 10, b);
        if equals_at(s, ta, tb, &['L', '1']) {
            st.objective = Some(Objective::L1);
            Ok(())
        } else if equals_at(s, ta, tb, &['L', '2']) {
            st.objective = Some(Objective::L2);
            Ok(())
        } else {
            Err(ParseError::InvalidObjective(string_of(s, ta, tb)))
        }
    } else if starts_with_at(s, a, b, &['c', 'o', 'n', 's', 't', 'r', 'a', 'i', 'n', 't', ':']) {
        assert(line.skip(11) =~= s@.subrange(a + 11, b as int));
        constraint_line(st, s, a, a + 11, b, n)
    } else {
        let ghost prev = st.skipped@;
        st.skipped.push(n);
        assert(line_numbers(st.skipped@) =~= line_numbers(prev).push(n as nat));
        Ok(())
    }
}

/// What reading a problem text gives: the numbers of the lines that were
/// neither blank, a comment nor a declaration (up to where reading stopped),
/// and the problem or the reason it was refused.
pub struct ParseReport {
    pub skipped: Vec<usize>,
    pub outcome: Result<ProblemConfig, ParseError>,
}

/// Value of a parse outcome.
pub open spec fn outcome_view(r: Result<ProblemConfig, ParseError>) -> Result<
    SpecProblem,
    SpecParseError,
> {
    match r {
        Ok(c) => Ok(c@),
        Err(e) => Err(e@),
    }
}

/// Reads a problem text, and reports the lines it skipped.
pub fn parse_problem_report(content: &str) -> (r: ParseReport)
    ensures
        line_numbers(r.skipped@) == read_problem(content@).0,
        outcome_view(r.outcome) == read_problem(content@).1,
{
    let s = str_chars(content);
    let n = s.len();
    if n == 0 {
        let skipped: Vec<usize> = Vec::new();
        assert(line_numbers(skipped@) =~= seq![]);
        return ParseReport { skipped, outcome: Err(ParseError::EmptyFile) };
    }
    let mut st = ParseState {
        solver: None,
        objective: None,
        k: None,
        constraints: Vec::new(),
        skipped: Vec::new(),
    };
    assert(constraints_view(st.constraints@) =~= seq![]);
    assert(line_numbers(st.skipped@) =~= seq![]);
    let ghost ls = lines(s@);
    let mut i: usize = 0;
    let mut line_no: usize = 0;
    assert(s@.subrange(0, n as int) =~= s@);
    assert(ls.skip(0) =~= ls);
    while i < n
        invariant
            i <= n == s.len(),
            n > 0,
            s@ == content@,
            line_no <= i,
            line_no <= ls.len(),
            ls == lines(s@),
            lines(s@.subrange(i as int, n as int)) == ls.skip(line_no as int),
            run_from(ls, line_no as int, st.model()) == run_from(ls, 0, initial_state()),
        decreases n - i,
    {
        let (lo, hi, next) = next_line(&s, i);
        proof {
            let rest = ls.skip(line_no as int);
            assert(rest.len() > 0);
            assert(ls[line_no as int] == rest[0]);
            assert(ls.skip(line_no + 1) =~= rest.drop_first());
            assert(rest.drop_first() =~= lines(s@.subrange(next as int, n as int)));
        }
        let ghost before = st.model();
        match step_line(&mut st, &s, lo, hi, line_no + 1) {
            Err(e) => {
                assert(run_from(ls, line_no as int, before) == (before, Some(e@)));
                return ParseReport { skipped: st.skipped, outcome: Err(e) };
            },
            Ok(()) => {},
        }
        i = next;
        line_no = line_no + 1;
    }
    proof {
        assert(lines(s@.subrange(n as int, n as int)) =~= seq![]);
        assert(ls.skip(line_no as int).len() == 0);
    }
    let outcome = match st.solver {
        None => Err(ParseError::MissingSolver),
        Some(solver) => match st.objective {
            None => Err(ParseError::MissingObjective),
            Some(objective) => Ok(
                ProblemConfig {
                    solver,
                    objective,
                    k: match st.k {
                        Some(k) => k,
                        None => 0,
                    },
                    constraints: st.constraints,
                },
            ),
        },
    };
    ParseReport { skipped: st.skipped, outcome }
}

/// Reads a problem text.
pub fn parse_problem_str(content: &str) -> (r: Result<ProblemConfig, ParseError>)
    ensures
        outcome_view(r) == read_problem(content@).1,
        r matches Ok(p) ==> problem_well_formed(p@),
{
    proof {
        lemma_read_problem_well_formed(content@);
    }
    parse_problem_report(content).outcome
}

} // verus!
