# iffbdd

Minimises the L1 or L2 norm of `x` under linear constraints
`a_i^T x (<=, >=, ==, in [b0, b1]) b` with message-passing solvers: a
second-order one (IFFBDD) and a first-order dual coordinate descent (DCD).

Layout:

- `src/` is the verified library (Verus):
  - `problem.rs`: objectives, solver kinds, constraint kinds, and the problem
    description, whose numbers are held as the decimal literals of the text;
  - `file_parser.rs`: the reader of the problem text format, with its exact
    specification (`read_problem`) and its laws (well-formed problems, comments
    at line ends ignored, empty files);
  - `float_literal.rs`: the grammar of the literals that `f64::from_str` accepts;
  - `text.rs`: `str`'s trimming, splitting and line conventions over characters;
  - `solve_loop.rs`: the control of a solver run (iterations, convergence
    checks, outcome).
- `app/` is the program: the floating-point solvers (BLAS), file reading,
  conversion of the literals to `f64`, and timing experiments.
- `tests/` runs the library on concrete inputs.

Problem text format (`#` starts a comment):

```text
solver: DCD
objective: L1
constraint: 1.0 0.0 0.5 | 1.0 | Less
constraint: 1 1 0 | 0 2 | Interval
```
