use iffbdd::{
    parse_problem_report, parse_problem_str, parse_sense, ConstraintSense, Objective, ParseError,
    SenseType, SolverType,
};

const EXAMPLE: &str = "# a small problem\n\
solver: DCD\n\
objective: L1\n\
constraint: 1.0 0.0 0.5 -1.0 1.0 | 1.0 | Less\n\
constraint: 0.0 5.0 3.0 -2.0 0.0 | 1.0 | Greater   # trailing comment\n\
\n\
constraint: 1 1 0 0 1 | 5 | Equal\n\
constraint: -1 -0.5 0.5 1.5 1 | -2 2e1 | Interval\n";

#[test]
fn reads_a_full_problem() {
    let p = parse_problem_str(EXAMPLE).unwrap();
    assert_eq!(p.solver, SolverType::Dcd);
    assert_eq!(p.objective, Objective::L1);
    assert_eq!(p.k, 5);
    assert_eq!(p.constraints.len(), 4);
    match &p.constraints[0] {
        ConstraintSense::Less(b, a) => {
            assert_eq!(b, "1.0");
            assert_eq!(a, &vec!["1.0", "0.0", "0.5", "-1.0", "1.0"]);
        }
        other => panic!("unexpected {other:?}"),
    }
    match &p.constraints[1] {
        ConstraintSense::Greater(b, a) => {
            assert_eq!(b, "1.0");
            assert_eq!(a, &vec!["0.0", "5.0", "3.0", "-2.0", "0.0"]);
        }
        other => panic!("unexpected {other:?}"),
    }
    match &p.constraints[2] {
        ConstraintSense::Equal(b, a) => {
            assert_eq!(b, "5");
            assert_eq!(a, &vec!["1", "1", "0", "0", "1"]);
        }
        other => panic!("unexpected {other:?}"),
    }
    match &p.constraints[3] {
        ConstraintSense::Interval((b0, b1), a) => {
            assert_eq!(b0, "-2");
            assert_eq!(b1, "2e1");
            assert_eq!(a, &vec!["-1", "-0.5", "0.5", "1.5", "1"]);
        }
        other => panic!("unexpected {other:?}"),
    }
}

#[test]
fn every_number_converts_to_f64() {
    let p = parse_problem_str(EXAMPLE).unwrap();
    for c in &p.constraints {
        let (bounds, coeffs): (Vec<&String>, &Vec<String>) = match c {
            ConstraintSense::Less(b, a)
            | ConstraintSense::Greater(b, a)
            | ConstraintSense::Equal(b, a) => (vec![b], a),
            ConstraintSense::Interval((b0, b1), a) => (vec![b0, b1], a),
        };
        assert_eq!(coeffs.len(), p.k);
        for t in bounds.into_iter().chain(coeffs.iter()) {
            assert!(t.parse::<f64>().is_ok(), "{t}");
        }
    }
    assert_eq!("2e1".parse::<f64>().unwrap(), 20.0);
}

#[test]
fn second_order_solver_and_l2() {
    let p = parse_problem_str("solver: IFFBDD\nobjective: L2\n").unwrap();
    assert_eq!(p.solver, SolverType::Iffbdd);
    assert_eq!(p.objective, Objective::L2);
    assert_eq!(p.k, 0);
    assert!(p.constraints.is_empty());
}

#[test]
fn later_declaration_wins() {
    let p = parse_problem_str("solver: DCD\nobjective: L1\nsolver: IFFBDD\nobjective: L2\n")
        .unwrap();
    assert_eq!(p.solver, SolverType::Iffbdd);
    assert_eq!(p.objective, Objective::L2);
}

#[test]
fn windows_line_endings_and_spaces() {
    let p = parse_problem_str("  solver:   DCD  \r\n\tobjective:L2\r\nconstraint:1 2|3|  Less \r\n")
        .unwrap();
    assert_eq!(p.solver, SolverType::Dcd);
    assert_eq!(p.objective, Objective::L2);
    assert_eq!(p.k, 2);
    match &p.constraints[0] {
        ConstraintSense::Less(b, a) => {
            assert_eq!(b, "3");
            assert_eq!(a, &vec!["1", "2"]);
        }
        other => panic!("unexpected {other:?}"),
    }
}

#[test]
fn empty_file() {
    assert!(matches!(parse_problem_str(""), Err(ParseError::EmptyFile)));
}

#[test]
fn only_comments_is_missing_solver() {
    assert!(matches!(parse_problem_str("# nothing\n\n   \n"), Err(ParseError::MissingSolver)));
}

#[test]
fn missing_objective() {
    assert!(matches!(parse_problem_str("solver: DCD\n"), Err(ParseError::MissingObjective)));
}

#[test]
fn missing_solver_is_reported_before_missing_objective() {
    assert!(matches!(parse_problem_str("constraint: 1 | 2 | Less\n"), Err(ParseError::MissingSolver)));
}

#[test]
fn invalid_solver() {
    match parse_problem_str("solver:  dcd \nobjective: L1\n") {
        Err(ParseError::InvalidSolver(s)) => assert_eq!(s, "dcd"),
        other => panic!("unexpected {other:?}"),
    }
}

#[test]
fn invalid_objective() {
    match parse_problem_str("solver: DCD\nobjective: L3 # norm\n") {
        Err(ParseError::InvalidObjective(s)) => assert_eq!(s, "L3"),
        other => panic!("unexpected {other:?}"),
    }
}

#[test]
fn invalid_sense() {
    match parse_problem_str("solver: DCD\nobjective: L1\nconstraint: 1 | 2 | Below\n") {
        Err(ParseError::InvalidSense(s)) => assert_eq!(s, "Below"),
        other => panic!("unexpected {other:?}"),
    }
}

#[test]
fn sense_keeps_later_pipes() {
    match parse_problem_str("constraint: 1 | 2 | Less | more\n") {
        Err(ParseError::InvalidSense(s)) => assert_eq!(s, "Less | more"),
        other => panic!("unexpected {other:?}"),
    }
}

#[test]
fn invalid_float_names_token_and_line() {
    match parse_problem_str("solver: DCD\nconstraint: 1 x2 | 2 | Less  # c\n") {
        Err(ParseError::InvalidFloat(s)) => {
            assert_eq!(s, "x2 (in 'constraint: 1 x2 | 2 | Less')")
        }
        other => panic!("unexpected {other:?}"),
    }
}

#[test]
fn invalid_float_in_bounds() {
    match parse_problem_str("constraint: 1 2 | 2,5 | Less\n") {
        Err(ParseError::InvalidFloat(s)) => {
            assert_eq!(s, "2,5 (in 'constraint: 1 2 | 2,5 | Less')")
        }
        other => panic!("unexpected {other:?}"),
    }
}

#[test]
fn float_error_comes_before_sense_error() {
    match parse_problem_str("constraint: a | 2 | Foo\n") {
        Err(ParseError::InvalidFloat(s)) => assert_eq!(s, "a (in 'constraint: a | 2 | Foo')"),
        other => panic!("unexpected {other:?}"),
    }
}

#[test]
fn malformed_without_pipes() {
    match parse_problem_str("constraint: 1 2 Less\n") {
        Err(ParseError::MalformedConstraint(s)) => assert_eq!(s, "constraint: 1 2 Less"),
        other => panic!("unexpected {other:?}"),
    }
    match parse_problem_str("constraint: 1 2 | Less\n") {
        Err(ParseError::MalformedConstraint(s)) => assert_eq!(s, "constraint: 1 2 | Less"),
        other => panic!("unexpected {other:?}"),
    }
}

#[test]
fn malformed_bound_count() {
    match parse_problem_str("constraint: 1 2 | 1 2 | Less\n") {
        Err(ParseError::MalformedConstraint(s)) => assert_eq!(s, "constraint: 1 2 | 1 2 | Less"),
        other => panic!("unexpected {other:?}"),
    }
    match parse_problem_str("constraint: 1 2 | 1 | Interval\n") {
        Err(ParseError::MalformedConstraint(s)) => {
            assert_eq!(s, "constraint: 1 2 | 1 | Interval")
        }
        other => panic!("unexpected {other:?}"),
    }
    match parse_problem_str("constraint: 1 2 |  | Equal\n") {
        Err(ParseError::MalformedConstraint(_)) => {}
        other => panic!("unexpected {other:?}"),
    }
}

#[test]
fn inconsistent_dimension_names_line() {
    let text = "solver: DCD\n\n# two coefficients first\nconstraint: 1 2 | 0 | Less\nconstraint: 1 2 3 | 0 | Less\n";
    match parse_problem_str(text) {
        Err(ParseError::InconsistentDimension { expected, got, line }) => {
            assert_eq!((expected, got, line), (2, 3, 5));
        }
        other => panic!("unexpected {other:?}"),
    }
}

#[test]
fn dimension_error_comes_before_bound_count_error() {
    let text = "constraint: 1 | 0 | Less\nconstraint: 1 2 | 0 1 | Less\n";
    match parse_problem_str(text) {
        Err(ParseError::InconsistentDimension { expected, got, line }) => {
            assert_eq!((expected, got, line), (1, 2, 2));
        }
        other => panic!("unexpected {other:?}"),
    }
}

#[test]
fn first_error_wins() {
    match parse_problem_str("solver: X\nobjective: Y\n") {
        Err(ParseError::InvalidSolver(s)) => assert_eq!(s, "X"),
        other => panic!("unexpected {other:?}"),
    }
}

#[test]
fn report_lists_skipped_lines() {
    let r = parse_problem_report("solver: DCD\nhello\n\n# c\nobjective: L2\nworld # x\n");
    assert_eq!(r.skipped, vec![2, 6]);
    assert!(r.outcome.is_ok());
}

#[test]
fn report_stops_at_error() {
    let r = parse_problem_report("a\nsolver: nope\nb\n");
    assert_eq!(r.skipped, vec![1]);
    assert!(matches!(r.outcome, Err(ParseError::InvalidSolver(_))));
}

#[test]
fn parse_sense_names() {
    assert_eq!(parse_sense("Less").unwrap(), SenseType::Less);
    assert_eq!(parse_sense(" Greater\t").unwrap(), SenseType::Greater);
    assert_eq!(parse_sense("Equal").unwrap(), SenseType::Equal);
    assert_eq!(parse_sense("  Interval  ").unwrap(), SenseType::Interval);
    match parse_sense(" less ") {
        Err(ParseError::InvalidSense(s)) => assert_eq!(s, "less"),
        other => panic!("unexpected {other:?}"),
    }
    match parse_sense("") {
        Err(ParseError::InvalidSense(s)) => assert_eq!(s, ""),
        other => panic!("unexpected {other:?}"),
    }
}

#[test]
fn float_tokens_match_std() {
    let tokens = [
        "0", "1", "-1", "+1", "1.", ".5", "-.5", "1.5e3", "1E-3", "1e+3", "1e", "e5", ".", "-",
        "+", "", "1.2.3", "inf", "-inf", "+Inf", "INFINITY", "infinity", "Infinit", "nan",
        "NaN", "-nan", "nan1", "1_000", "0x10", "1e5.5", "--1", "1e--5", "12345678901234567890",
        "1.e5", ".e5", "5.E+0", "١", "1f", "infinityy", "in", "+.0", "0.0e00",
    ];
    for tok in tokens {
        let text = format!("constraint: {tok} | 1 | Less\n");
        let ok_std = tok.parse::<f64>().is_ok();
        let res = parse_problem_str(&text);
        if tok.is_empty() {
            // no coefficient at all: a constraint with zero coefficients
            assert!(matches!(res, Err(ParseError::MissingSolver)));
            continue;
        }
        match res {
            Err(ParseError::MissingSolver) => assert!(ok_std, "{tok} accepted, std refuses"),
            Err(ParseError::InvalidFloat(_)) => assert!(!ok_std, "{tok} refused, std accepts"),
            other => panic!("unexpected {other:?} for {tok}"),
        }
    }
}

#[test]
fn error_messages() {
    let cases: Vec<(ParseError, &str)> = vec![
        (ParseError::MissingSolver, "Missing 'solver:' declaration"),
        (ParseError::InvalidSolver("X".to_string()), "Unknown solver 'X', expected DCD or IFFBDD"),
        (ParseError::MissingObjective, "Missing 'objective:' declaration"),
        (ParseError::InvalidObjective("L3".to_string()), "Unknown objective 'L3', expected L1 or L2"),
        (
            ParseError::InvalidSense("Foo".to_string()),
            "Unknown sense 'Foo', expected Less/Greater/Equal/Interval",
        ),
        (ParseError::InvalidFloat("x".to_string()), "Could not parse float: 'x'"),
        (ParseError::MalformedConstraint("c".to_string()), "Malformed constraint line: 'c'"),
        (
            ParseError::InconsistentDimension { expected: 10, got: 3, line: 1207 },
            "Line 1207: expected 10 coefficients, got 3",
        ),
        (
            ParseError::InconsistentDimension { expected: 0, got: 9, line: 1 },
            "Line 1: expected 0 coefficients, got 9",
        ),
        (ParseError::EmptyFile, "File is empty or has no content"),
    ];
    for (e, want) in cases {
        assert_eq!(e.message(), want);
    }
}

#[test]
fn io_error_message() {
    let e = ParseError::Io(std::io::Error::new(std::io::ErrorKind::Other, "disk on fire"));
    assert_eq!(e.message(), "IO error: disk on fire");
}

#[test]
fn comment_at_line_end_changes_nothing() {
    let with = parse_problem_str("solver: DCD#x\nobjective: L2 # y\nconstraint: 1 | 2 | Less#z\n");
    let without = parse_problem_str("solver: DCD\nobjective: L2\nconstraint: 1 | 2 | Less\n");
    assert_eq!(format!("{with:?}"), format!("{without:?}"));
}

#[test]
fn comment_at_end_of_text_changes_nothing() {
    let with = parse_problem_report("hello\nsolver: DCD\nobjective: L1 #x");
    let without = parse_problem_report("hello\nsolver: DCD\nobjective: L1");
    assert_eq!(with.skipped, without.skipped);
    assert_eq!(format!("{:?}", with.outcome), format!("{:?}", without.outcome));
}

#[test]
fn only_the_empty_text_is_empty() {
    assert!(matches!(parse_problem_str(""), Err(ParseError::EmptyFile)));
    assert!(matches!(parse_problem_str("\n"), Err(ParseError::MissingSolver)));
    assert!(matches!(parse_problem_str("   "), Err(ParseError::MissingSolver)));
}

#[test]
fn one_constraint_per_constraint_line_in_order() {
    let text = "constraint: 1 | 1 | Less\nsolver: DCD\n  constraint: 2 | 2 | Greater # c\nobjective: L1\nconstraint: 3 | 3 4 | Interval\n";
    let p = parse_problem_str(text).unwrap();
    assert_eq!(p.constraints.len(), 3);
    assert!(matches!(&p.constraints[0], ConstraintSense::Less(b, _) if b == "1"));
    assert!(matches!(&p.constraints[1], ConstraintSense::Greater(b, _) if b == "2"));
    assert!(matches!(&p.constraints[2], ConstraintSense::Interval((b0, b1), _) if b0 == "3" && b1 == "4"));
}
