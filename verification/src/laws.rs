//! What holds of every run of the simplex method.

use crate::constraint::{Operator, Row};
use crate::dictionary::{
    lemma_most_restrictive_exists, lemma_objective_grows, lemma_pivot_dictionary,
    lemma_pivot_valid, lemma_solved_constant,
};
use crate::error::SimplexError;
use crate::linear::{
    lemma_coeff_wf, lemma_linear_neg, lemma_linear_substitute, lemma_zero_canonical, Linear,
};
use crate::program::{lemma_entering_unique, Program};
use crate::rational::{lemma_order, lemma_plus_zero, lemma_times_zero, Ratio};
use crate::solver::Stepper;
use vstd::prelude::*;

verus! {

/// A constraint written with `<=` is kept with its left side negated;
/// negating that side once more gives the left side as it was written.
pub proof fn lemma_less_equal_round_trip(left: Linear, right: Linear)
    requires
        left.wf(),
    ensures
        Row::canonical(left, Operator::LessEqual, right).left.neg() == left,
        Row::canonical(left, Operator::LessEqual, right).right == right,
{
    lemma_linear_neg(left);
}

/// A pivot of a feasible program gives a feasible program in dictionary
/// form. Where the variable's coefficient in the objective is positive, the
/// constant of the objective does not get smaller; and it grows where the
/// pivot is not degenerate, that is where the constant of the row that the
/// pivot is made on is positive.
pub proof fn lemma_pivot_keeps_feasible(p: Program, name: Seq<char>, q: Program)
    requires
        p.wf(),
        p.is_valid(),
        p.pivot_outcome(name) == Ok::<Program, SimplexError>(q),
    ensures
        q.wf(),
        q.is_valid(),
        p.objective.coeff(name).is_positive() ==> !q.objective.constant.lt(p.objective.constant),
        p.objective.coeff(name).is_positive() && p.tableau.rows[p.leaving_row(
            name,
        )].right.constant.is_positive() ==> p.objective.constant.lt(q.objective.constant),
{
    let t = p.tableau;
    lemma_most_restrictive_exists(t, name);
    let r = p.leaving_row(name);
    assert(t.is_most_restrictive(r, name));
    lemma_solved_constant(t, r, name);
    lemma_pivot_dictionary(t, r, name);
    lemma_pivot_valid(t, r, name);
    let solved = t.rows[r].normalized(name);
    assert(t.pivoted(r, name).rows[r] == solved);
    lemma_linear_substitute(p.objective, name, solved.right);
    if p.objective.coeff(name).is_positive() {
        lemma_objective_grows(p.objective, t, r, name);
    }
}

/// Where the objective mentions no variable that a row defines, every
/// variable that it mentions is zero at the vertex: the value of the
/// objective at the vertex is its constant.
pub proof fn lemma_objective_at_vertex(p: Program, name: Seq<char>)
    requires
        p.objective_is_nonbasic(),
        p.objective.mentions(name),
    ensures
        p.tableau.value_of(name) == Ratio::zero(),
{
    if exists|i: int| 0 <= i < p.tableau.rows.len() && #[trigger] p.tableau.defines(i, name) {
        let i = choose|i: int| 0 <= i < p.tableau.rows.len() && #[trigger] p.tableau.defines(i, name);
        assert(!p.objective.mentions(p.tableau.rows[i].basic()));
    }
}

/// A pivot keeps the objective free of the variables that the rows define.
pub proof fn lemma_pivot_keeps_objective_nonbasic(p: Program, name: Seq<char>, q: Program)
    requires
        p.wf(),
        p.objective_is_nonbasic(),
        p.pivot_outcome(name) == Ok::<Program, SimplexError>(q),
    ensures
        q.objective_is_nonbasic(),
{
    let t = p.tableau;
    lemma_most_restrictive_exists(t, name);
    let r = p.leaving_row(name);
    assert(t.is_most_restrictive(r, name));
    lemma_solved_constant(t, r, name);
    lemma_pivot_dictionary(t, r, name);
    let solved = t.rows[r].normalized(name);
    assert(q.tableau == t.pivoted(r, name));
    assert(q.tableau.rows[r] == solved);
    lemma_linear_substitute(p.objective, name, solved.right);
    let k = p.objective.coeff(name);
    lemma_coeff_wf(p.objective, name);
    lemma_times_zero(k);
    lemma_plus_zero(Ratio::zero());
    assert forall|i: int| 0 <= i < q.tableau.rows.len() implies !q.objective.mentions(
        (#[trigger] q.tableau.rows[i]).basic(),
    ) by {
        let b = q.tableau.rows[i].basic();
        assert(!q.tableau.rows[r].right.mentions(b));
        lemma_coeff_wf(solved.right, b);
        lemma_zero_canonical(solved.right.coeff(b));
        if i != r {
            assert(b == t.rows[i].basic());
            assert(!p.objective.mentions(t.rows[i].basic()));
            lemma_coeff_wf(p.objective, b);
            lemma_zero_canonical(p.objective.coeff(b));
        }
        assert(q.objective.coeff(b) == Ratio::zero());
        lemma_coeff_wf(q.objective, b);
    }
}

/// Where the objective of the first program of a run mentions no variable
/// that a row defines, the same holds of every program of the run.
pub proof fn lemma_run_keeps_objective_nonbasic(s: Stepper, j: int)
    requires
        s.wf(),
        s.history[0].objective_is_nonbasic(),
        0 <= j < s.history.len(),
    ensures
        s.history[j].objective_is_nonbasic(),
    decreases j,
{
    if j > 0 {
        lemma_run_keeps_objective_nonbasic(s, j - 1);
        let p = s.history[j - 1];
        let q = s.history[j];
        assert(p.wf());
        assert(p.steps_to(q));
        let v = choose|v: Seq<char>|
            p.objective.is_entering(v) && #[trigger] p.pivot_outcome(v) == Ok::<Program, SimplexError>(q);
        lemma_pivot_keeps_objective_nonbasic(p, v, q);
    }
}

/// One step of the simplex method on a feasible program gives a feasible
/// program whose objective has no smaller a value at its vertex.
pub proof fn lemma_step_keeps_feasible(p: Program, q: Program)
    requires
        p.wf(),
        p.is_valid(),
        p.steps_to(q),
    ensures
        q.wf(),
        q.is_valid(),
        !q.objective.constant.lt(p.objective.constant),
{
    let v = choose|v: Seq<char>|
        p.objective.is_entering(v) && #[trigger] p.pivot_outcome(v) == Ok::<Program, SimplexError>(q);
    lemma_pivot_keeps_feasible(p, v, q);
}

/// Where the first program of a run is feasible, every program of the run
/// is, and the constant of the objective, which is its value at the vertex,
/// never falls from one program of the run to a later one.
pub proof fn lemma_objective_never_falls(s: Stepper, i: int, j: int)
    requires
        s.wf(),
        s.history[0].is_valid(),
        0 <= i <= j < s.history.len(),
    ensures
        s.history[j].is_valid(),
        !s.history[j].objective.constant.lt(s.history[i].objective.constant),
    decreases j,
{
    if j == 0 {
        lemma_order(s.history[0].objective.constant, s.history[0].objective.constant);
    } else {
        lemma_objective_never_falls(s, 0, j - 1);
        assert(s.history[j - 1].wf());
        assert(s.history[j - 1].steps_to(s.history[j]));
        lemma_step_keeps_feasible(s.history[j - 1], s.history[j]);
        let a = s.history[i].objective.constant;
        let b = s.history[j - 1].objective.constant;
        let c = s.history[j].objective.constant;
        if i == j {
            lemma_order(c, c);
        } else {
            lemma_objective_never_falls(s, i, j - 1);
            assert(s.history[i].wf());
            lemma_order(b, a);
            lemma_order(c, b);
            lemma_order(c, a);
        }
    }
}

/// In a run from a feasible program in which no step is degenerate, the
/// constant of the objective grows from each program to every later one; so
/// no program of such a run comes twice.
pub proof fn lemma_strict_run_never_repeats(s: Stepper, i: int, j: int)
    requires
        s.wf(),
        s.history[0].is_valid(),
        forall|k: int| 0 <= k < s.history.len() - 1 ==> (#[trigger] s.history[k]).step_is_strict(),
        0 <= i < j < s.history.len(),
    ensures
        s.history[i].objective.constant.lt(s.history[j].objective.constant),
        s.history[i] != s.history[j],
{
    let p = s.history[j - 1];
    let q = s.history[j];
    lemma_objective_never_falls(s, 0, j - 1);
    lemma_objective_never_falls(s, i, j - 1);
    assert(p.wf() && s.history[i].wf());
    assert(p.steps_to(q));
    assert(p.step_is_strict());
    let v = choose|v: Seq<char>|
        p.objective.is_entering(v) && #[trigger] p.pivot_outcome(v) == Ok::<Program, SimplexError>(q);
    lemma_entering_unique(p.objective, v, p.entering());
    lemma_pivot_keeps_feasible(p, v, q);
    let a = s.history[i].objective.constant;
    let b = p.objective.constant;
    let c = q.objective.constant;
    lemma_order(b, a);
    lemma_order(b, c);
    lemma_order(a, c);
    lemma_order(a, a);
}

/// A step back and then a step forward leave the stepper as it was: the
/// same history and the same cursor. This holds where the cursor is not on
/// the first program and the last program of the history is not optimal.
pub proof fn lemma_replay(s: Stepper)
    requires
        s.wf(),
        s.cursor > 0,
        !s.frontier().is_optimal(),
    ensures
        s.retreated().wf(),
        s.retreated().advance_outcome() == Ok::<Stepper, SimplexError>(s),
{
}

} // verus!
