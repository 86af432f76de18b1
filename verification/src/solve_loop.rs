//! The control of a solver run: how many iterations may run, which
//! convergence checks follow an iteration, and how the run ends.
//!
//! A run alternates numerical work, done by the solver, with decisions taken
//! here: the solver asks [`SolveLoop::step`] what to do next, does it, and
//! hands back the boolean answer through [`SolveLoop::report`].
use vstd::prelude::*;

verus! {

/// How a run ended.
#[derive(Debug, Clone, Copy, PartialEq, Eq, Structural)]
pub enum SolveOutcome {
    /// The candidate converged and violates no constraint by more than allowed.
    Solved,
    /// The candidate converged, but violates a constraint by more than allowed.
    NotFeasible,
    /// No convergence within the allowed number of iterations.
    NoConvergence,
}

/// What the run waits for next.
#[derive(Debug, Clone, Copy, PartialEq, Eq, Structural)]
pub enum SolveStep {
    /// Run one iteration, then report whether the candidate `x_hat` converged.
    Iterate,
    /// Report whether the internal parameters converged.
    CheckParameters,
    /// Report whether the largest constraint violation is within the allowed one.
    CheckViolation,
    /// The run is over.
    Finished(SolveOutcome),
}

/// State of a solver run.
pub struct SolveLoop {
    max_iter: usize,
    iterations: usize,
    check_parameters: bool,
    step: SolveStep,
}

/// Mathematical value of a [`SolveLoop`].
pub struct SpecSolveLoop {
    /// Iterations allowed.
    pub max_iter: nat,
    /// Iterations run so far.
    pub iterations: nat,
    /// Convergence also asks that the internal parameters converged.
    pub check_parameters: bool,
    pub step: SolveStep,
}

impl View for SolveLoop {
    type V = SpecSolveLoop;

    closed spec fn view(&self) -> SpecSolveLoop {
        SpecSolveLoop {
            max_iter: self.max_iter as nat,
            iterations: self.iterations as nat,
            check_parameters: self.check_parameters,
            step: self.step,
        }
    }
}

/// The step after a failed convergence check: another iteration, unless all
/// allowed ones have run.
pub open spec fn after_no_convergence(iterations: nat, max_iter: nat) -> SolveStep {
    if iterations < max_iter {
        SolveStep::Iterate
    } else {
        SolveStep::Finished(SolveOutcome::NoConvergence)
    }
}

/// The state after the answer `answer` to the question of `s.step`.
pub open spec fn next_state(s: SpecSolveLoop, answer: bool) -> SpecSolveLoop {
    match s.step {
        SolveStep::Iterate => {
            let iterations = s.iterations + 1;
            SpecSolveLoop {
                iterations,
                step: if !answer {
                    after_no_convergence(iterations, s.max_iter)
                } else if s.check_parameters {
                    SolveStep::CheckParameters
                } else {
                    SolveStep::CheckViolation
                },
                ..s
            }
        },
        SolveStep::CheckParameters => SpecSolveLoop {
            step: if answer {
                SolveStep::CheckViolation
            } else {
                after_no_convergence(s.iterations, s.max_iter)
            },
            ..s
        },
        SolveStep::CheckViolation => SpecSolveLoop {
            step: SolveStep::Finished(
                if answer {
                    SolveOutcome::Solved
                } else {
                    SolveOutcome::NotFeasible
                },
            ),
            ..s
        },
        SolveStep::Finished(_) => s,
    }
}

/// Reports still to come at most: three per iteration left, one for the
/// checks that follow the current step.
pub open spec fn remaining_reports(s: SpecSolveLoop) -> nat {
    match s.step {
        SolveStep::Iterate => 3 * (s.max_iter - s.iterations) as nat,
        SolveStep::CheckParameters => 2 + 3 * (s.max_iter - s.iterations) as nat,
        SolveStep::CheckViolation => 1,
        SolveStep::Finished(_) => 0,
    }
}

/// The invariant of every run.
pub open spec fn loop_invariant(s: SpecSolveLoop) -> bool {
    &&& s.iterations <= s.max_iter
    &&& s.step is Iterate ==> s.iterations < s.max_iter
    &&& s.step is CheckParameters ==> s.check_parameters && s.iterations >= 1
    &&& s.step is CheckViolation ==> s.iterations >= 1
    &&& s.step == SolveStep::Finished(SolveOutcome::NoConvergence) ==> s.iterations
        == s.max_iter
}

impl SolveLoop {
    #[verifier::type_invariant]
    spec fn inv(self) -> bool {
        loop_invariant(self@)
    }

    /// A run of at most `max_iter` iterations; `check_parameters` asks that
    /// convergence of the candidate be confirmed by convergence of the internal
    /// parameters.
    pub fn new(max_iter: usize, check_parameters: bool) -> (r: Self)
        ensures
            r@ == (SpecSolveLoop {
                max_iter: max_iter as nat,
                iterations: 0,
                check_parameters,
                step: after_no_convergence(0, max_iter as nat),
            }),
    {
        let step = if 0 < max_iter {
            SolveStep::Iterate
        } else {
            SolveStep::Finished(SolveOutcome::NoConvergence)
        };
        SolveLoop { max_iter, iterations: 0, check_parameters, step }
    }

    /// What the run waits for.
    pub fn step(&self) -> (r: SolveStep)
        ensures
            r == self@.step,
            loop_invariant(self@),
    {
        proof {
            use_type_invariant(self);
        }
        self.step
    }

    /// Iterations run so far.
    pub fn iterations(&self) -> (r: usize)
        ensures
            r == self@.iterations,
    {
        self.iterations
    }

    /// Hands back the answer to the question of the current step.
    pub fn report(&mut self, answer: bool)
        requires
            !(old(self)@.step is Finished),
        ensures
            final(self)@ == next_state(old(self)@, answer),
            (old(self)@.step is Iterate || old(self)@.step is CheckParameters) && !answer ==> (
            if final(self)@.iterations < final(self)@.max_iter {
                final(self)@.step == SolveStep::Iterate
            } else {
                final(self)@.step == SolveStep::Finished(SolveOutcome::NoConvergence)
            }),
            final(self)@.step is CheckViolation ==> answer,
    {
        proof {
            use_type_invariant(&*self);
        }
        match self.step {
            SolveStep::Iterate => {
                let iterations = self.iterations + 1;
                let step = if !answer {
                    if iterations < self.max_iter {
                        SolveStep::Iterate
                    } else {
                        SolveStep::Finished(SolveOutcome::NoConvergence)
                    }
                } else if self.check_parameters {
                    SolveStep::CheckParameters
                } else {
                    SolveStep::CheckViolation
                };
                *self = SolveLoop { iterations, step, ..*self };
            },
            SolveStep::CheckParameters => {
                let step = if answer {
                    SolveStep::CheckViolation
                } else if self.iterations < self.max_iter {
                    SolveStep::Iterate
                } else {
                    SolveStep::Finished(SolveOutcome::NoConvergence)
                };
                *self = SolveLoop { step, ..*self };
            },
            SolveStep::CheckViolation => {
                let outcome = if answer {
                    SolveOutcome::Solved
                } else {
                    SolveOutcome::NotFeasible
                };
                *self = SolveLoop { step: SolveStep::Finished(outcome), ..*self };
            },
            SolveStep::Finished(_) => {},
        }
    }
}

/// Every step keeps the invariant, and every report before the end brings the
/// run closer to it: a run ends after at most `3 * max_iter` reports, with at
/// most `max_iter` iterations.
pub proof fn lemma_report_progress(s: SpecSolveLoop, answer: bool)
    requires
        loop_invariant(s),
        !(s.step is Finished),
    ensures
        loop_invariant(next_state(s, answer)),
        remaining_reports(next_state(s, answer)) < remaining_reports(s),
        next_state(s, answer).max_iter == s.max_iter,
        next_state(s, answer).iterations <= s.iterations + 1,
{
}

/// A run is solved only when its last reports said that the candidate
/// converged (and, where asked, the internal parameters did) and that the
/// violation is within the allowed one; it ends without convergence only when
/// all `max_iter` iterations ran.
pub proof fn lemma_outcomes(s: SpecSolveLoop, answer: bool)
    requires
        loop_invariant(s),
        !(s.step is Finished),
    ensures
        next_state(s, answer).step == SolveStep::Finished(SolveOutcome::Solved) <==> (s.step
            is CheckViolation && answer),
        next_state(s, answer).step == SolveStep::Finished(SolveOutcome::NotFeasible) <==> (
        s.step is CheckViolation && !answer),
        next_state(s, answer).step == SolveStep::Finished(SolveOutcome::NoConvergence) ==> (
        !answer && next_state(s, answer).iterations == s.max_iter),
        s.step is CheckViolation ==> next_state(s, answer).step is Finished,
{
}

/// Convergence must be seen before a run can end well: an iteration whose
/// candidate did not converge is followed by another iteration, or ends the
/// run without convergence exactly when all `max_iter` iterations have run,
/// whether or not the internal parameters are checked; the same holds after
/// internal parameters that did not converge. The violation is checked only
/// after a positive answer: the candidate converged (and the parameters are
/// not checked), or the parameters converged; and the parameters are checked
/// only after the candidate converged.
pub proof fn lemma_convergence_needed(s: SpecSolveLoop, answer: bool)
    requires
        loop_invariant(s),
        !(s.step is Finished),
    ensures
        s.step is Iterate ==> next_state(s, answer).iterations == s.iterations + 1,
        !(s.step is Iterate) ==> next_state(s, answer).iterations == s.iterations,
        (s.step is Iterate || s.step is CheckParameters) && !answer ==> {
            let n = next_state(s, answer);
            &&& n.iterations < s.max_iter ==> n.step == SolveStep::Iterate
            &&& n.iterations == s.max_iter ==> n.step == SolveStep::Finished(
                SolveOutcome::NoConvergence,
            )
        },
        next_state(s, answer).step is CheckViolation ==> answer && (s.step is CheckParameters
            || (s.step is Iterate && !s.check_parameters)),
        next_state(s, answer).step is CheckParameters ==> answer && s.step is Iterate
            && s.check_parameters,
        s.step is Iterate && answer ==> !(next_state(s, answer).step is Finished),
{
}

} // verus!
