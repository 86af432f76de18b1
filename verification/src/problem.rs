//! The description of an optimisation problem: which solver, which norm to
//! minimise, the dimension `k` of `x`, and the linear constraints
//! `a_i^T x (<=, >=, ==, in [b0, b1]) b`.
//!
//! Numbers are held as the decimal literals that stood in the problem text;
//! each is a literal that `f64::from_str` accepts (see `float_literal`).
use vstd::prelude::*;

verus! {

/// Norm that a solver minimises.
#[derive(Debug, Clone, Copy, PartialEq, Eq, Structural)]
pub enum Objective {
    /// Minimise `||x||_1`.
    L1,
    /// Minimise `||x||_2`.
    L2,
}

/// Which solver to use.
#[derive(Debug, Clone, Copy, PartialEq, Eq, Structural)]
pub enum SolverType {
    /// Second-order solver.
    Iffbdd,
    /// First-order solver.
    Dcd,
}

/// Available kinds of constraints.
#[derive(Debug, Clone, Copy, PartialEq, Eq, Structural)]
pub enum SenseType {
    Less,
    Greater,
    Equal,
    Interval,
}

/// One linear constraint: the border `b` (or the interval `[b0, b1]`) and the
/// coefficients `a_i`, each as its decimal literal.
#[derive(Debug)]
pub enum ConstraintSense {
    Less(String, Vec<String>),
    Greater(String, Vec<String>),
    Equal(String, Vec<String>),
    Interval((String, String), Vec<String>),
}

/// Mathematical value of a [`ConstraintSense`].
pub enum SpecConstraint {
    Less(Seq<char>, Seq<Seq<char>>),
    Greater(Seq<char>, Seq<Seq<char>>),
    Equal(Seq<char>, Seq<Seq<char>>),
    Interval((Seq<char>, Seq<char>), Seq<Seq<char>>),
}

impl SpecConstraint {
    /// The coefficients `a_i`.
    pub open spec fn coefficients(self) -> Seq<Seq<char>> {
        match self {
            SpecConstraint::Less(_, a) => a,
            SpecConstraint::Greater(_, a) => a,
            SpecConstraint::Equal(_, a) => a,
            SpecConstraint::Interval(_, a) => a,
        }
    }

    /// The borders, in order (one, or two for an interval).
    pub open spec fn borders(self) -> Seq<Seq<char>> {
        match self {
            SpecConstraint::Less(b, _) => seq![b],
            SpecConstraint::Greater(b, _) => seq![b],
            SpecConstraint::Equal(b, _) => seq![b],
            SpecConstraint::Interval((b0, b1), _) => seq![b0, b1],
        }
    }

    /// The kind of constraint.
    pub open spec fn sense(self) -> SenseType {
        match self {
            SpecConstraint::Less(..) => SenseType::Less,
            SpecConstraint::Greater(..) => SenseType::Greater,
            SpecConstraint::Equal(..) => SenseType::Equal,
            SpecConstraint::Interval(..) => SenseType::Interval,
        }
    }
}

impl View for ConstraintSense {
    type V = SpecConstraint;

    open spec fn view(&self) -> SpecConstraint {
        match self {
            ConstraintSense::Less(b, a) => SpecConstraint::Less(b@, a.deep_view()),
            ConstraintSense::Greater(b, a) => SpecConstraint::Greater(b@, a.deep_view()),
            ConstraintSense::Equal(b, a) => SpecConstraint::Equal(b@, a.deep_view()),
            ConstraintSense::Interval((b0, b1), a) => SpecConstraint::Interval(
                (b0@, b1@),
                a.deep_view(),
            ),
        }
    }
}

/// A copy of `v` with the same value.
fn clone_words(v: &Vec<String>) -> (r: Vec<String>)
    ensures
        r.deep_view() == v.deep_view(),
{
    let r = v.clone();
    assert(r.deep_view() =~= v.deep_view()) by {
        assert forall|i: int| 0 <= i < v.len() implies r[i]@ == v[i]@ by {
            assert(cloned::<String>(v[i], r[i]));
        }
    }
    r
}

impl Clone for ConstraintSense {
    fn clone(&self) -> (r: Self)
        ensures
            r@ == self@,
    {
        match self {
            ConstraintSense::Less(b, a) => ConstraintSense::Less(b.clone(), clone_words(a)),
            ConstraintSense::Greater(b, a) => ConstraintSense::Greater(b.clone(), clone_words(a)),
            ConstraintSense::Equal(b, a) => ConstraintSense::Equal(b.clone(), clone_words(a)),
            ConstraintSense::Interval((b0, b1), a) => ConstraintSense::Interval(
                (b0.clone(), b1.clone()),
                clone_words(a),
            ),
        }
    }
}

/// All that is needed to set up a solver.
#[derive(Debug)]
pub struct ProblemConfig {
    /// Which solver to use.
    pub solver: SolverType,
    /// Which objective to minimise.
    pub objective: Objective,
    /// Dimension of `x`.
    pub k: usize,
    /// The linear constraints.
    pub constraints: Vec<ConstraintSense>,
}

/// Mathematical value of a [`ProblemConfig`].
pub struct SpecProblem {
    pub solver: SolverType,
    pub objective: Objective,
    pub k: nat,
    pub constraints: Seq<SpecConstraint>,
}

/// The values of a vector of constraints.
pub open spec fn constraints_view(v: Seq<ConstraintSense>) -> Seq<SpecConstraint> {
    v.map_values(|c: ConstraintSense| c@)
}

impl View for ProblemConfig {
    type V = SpecProblem;

    open spec fn view(&self) -> SpecProblem {
        SpecProblem {
            solver: self.solver,
            objective: self.objective,
            k: self.k as nat,
            constraints: constraints_view(self.constraints@),
        }
    }
}

} // verus!
