use iffbdd::{SolveLoop, SolveOutcome, SolveStep};

#[test]
fn no_iterations_allowed() {
    let run = SolveLoop::new(0, true);
    assert_eq!(run.step(), SolveStep::Finished(SolveOutcome::NoConvergence));
    assert_eq!(run.iterations(), 0);
}

#[test]
fn runs_out_of_iterations() {
    let mut run = SolveLoop::new(3, false);
    let mut reports = 0;
    while run.step() == SolveStep::Iterate {
        run.report(false);
        reports += 1;
    }
    assert_eq!(reports, 3);
    assert_eq!(run.iterations(), 3);
    assert_eq!(run.step(), SolveStep::Finished(SolveOutcome::NoConvergence));
}

#[test]
fn first_order_run_is_solved() {
    let mut run = SolveLoop::new(10, false);
    run.report(false);
    assert_eq!(run.step(), SolveStep::Iterate);
    run.report(true);
    assert_eq!(run.step(), SolveStep::CheckViolation);
    run.report(true);
    assert_eq!(run.step(), SolveStep::Finished(SolveOutcome::Solved));
    assert_eq!(run.iterations(), 2);
}

#[test]
fn converged_but_not_feasible() {
    let mut run = SolveLoop::new(10, false);
    run.report(true);
    run.report(false);
    assert_eq!(run.step(), SolveStep::Finished(SolveOutcome::NotFeasible));
    assert_eq!(run.iterations(), 1);
}

#[test]
fn second_order_run_checks_parameters() {
    let mut run = SolveLoop::new(10, true);
    run.report(true);
    assert_eq!(run.step(), SolveStep::CheckParameters);
    run.report(false);
    assert_eq!(run.step(), SolveStep::Iterate);
    run.report(true);
    assert_eq!(run.step(), SolveStep::CheckParameters);
    run.report(true);
    assert_eq!(run.step(), SolveStep::CheckViolation);
    run.report(true);
    assert_eq!(run.step(), SolveStep::Finished(SolveOutcome::Solved));
    assert_eq!(run.iterations(), 2);
}

#[test]
fn parameters_not_converged_on_last_iteration() {
    let mut run = SolveLoop::new(1, true);
    run.report(true);
    assert_eq!(run.step(), SolveStep::CheckParameters);
    run.report(false);
    assert_eq!(run.step(), SolveStep::Finished(SolveOutcome::NoConvergence));
    assert_eq!(run.iterations(), 1);
}

#[test]
fn run_ends_within_three_reports_per_iteration() {
    // Answers that keep the run going as long as possible.
    let max_iter = 7;
    let mut run = SolveLoop::new(max_iter, true);
    let mut reports = 0;
    let mut flip = false;
    while !matches!(run.step(), SolveStep::Finished(_)) {
        let answer = match run.step() {
            SolveStep::Iterate => true,
            SolveStep::CheckParameters => {
                flip = !flip;
                !flip && run.iterations() == max_iter
            }
            _ => true,
        };
        run.report(answer);
        reports += 1;
        assert!(run.iterations() <= max_iter);
    }
    assert!(reports <= 3 * max_iter);
}
