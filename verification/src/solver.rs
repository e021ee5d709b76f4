//! The simplex method, one step at a time: a history of the programs that
//! the method has visited, and a cursor that moves back and forth in it.

use crate::constraint::Constraints;
use crate::error::SimplexError;
use crate::linear_function::{Coefficient, LinearFunction, Variable};
use crate::program::{lemma_entering_unique, ratios_of, LinearProgram, Program};
use crate::names::sorted_names;
use vstd::prelude::*;

verus! {

/// The mathematical model of a [`Simplex`].
pub struct Stepper {
    pub cursor: nat,
    pub history: Seq<Program>,
}

impl Stepper {
    /// The cursor is in the history, and each program of the history but
    /// the first is one step of the simplex method after the one before it.
    pub open spec fn wf(self) -> bool {
        &&& self.cursor < self.history.len()
        &&& forall|i: int| 0 <= i < self.history.len() ==> (#[trigger] self.history[i]).wf()
        &&& forall|i: int|
            0 < i < self.history.len() ==> self.history[i - 1].steps_to(#[trigger] self.history[i])
    }

    /// The stepper at the start: the one program, and the cursor on it.
    pub open spec fn start(program: Program) -> Stepper {
        Stepper { cursor: 0, history: seq![program] }
    }

    /// The last program that was computed.
    pub open spec fn frontier(self) -> Program {
        self.history.last()
    }

    /// The program under the cursor.
    pub open spec fn current(self) -> Program {
        self.history[self.cursor as int]
    }

    /// The stepper after a step back: the cursor one place earlier, unless
    /// it is on the first program.
    pub open spec fn retreated(self) -> Stepper {
        Stepper {
            cursor: if self.cursor == 0 {
                0
            } else {
                (self.cursor - 1) as nat
            },
            history: self.history,
        }
    }

    /// What a step forward does. Where the last program of the history is
    /// optimal there is no step. Else the cursor moves one place on; where it
    /// was on the last program, the next program is computed first, and
    /// appended.
    pub open spec fn advance_outcome(self) -> Result<Stepper, SimplexError> {
        if self.frontier().is_optimal() {
            Err(SimplexError::AlreadyOptimal)
        } else if self.cursor + 1 == self.history.len() {
            match self.frontier().step_outcome() {
                Ok(next) => Ok(Stepper { cursor: self.cursor + 1, history: self.history.push(next) }),
                Err(e) => Err(e),
            }
        } else {
            Ok(Stepper { cursor: self.cursor + 1, history: self.history })
        }
    }
}

/// The simplex method on one linear program, step by step.
#[derive(Debug)]
pub struct Simplex {
    index: usize,
    historic: Vec<LinearProgram>,
}

impl View for Simplex {
    type V = Stepper;

    closed spec fn view(&self) -> Stepper {
        Stepper {
            cursor: self.index as nat,
            history: Seq::new(self.historic@.len(), |i: int| self.historic@[i]@),
        }
    }
}

impl Clone for Simplex {
    fn clone(&self) -> (r: Self)
        ensures
            r@ == self@,
            r.wf() == self.wf(),
    {
        let mut historic: Vec<LinearProgram> = Vec::new();
        let mut i: usize = 0;
        while i < self.historic.len()
            invariant
                i <= self.historic.len(),
                historic.len() == i,
                forall|k: int|
                    0 <= k < i ==> (#[trigger] historic@[k])@ == self.historic@[k]@ && historic@[k].wf()
                        == self.historic@[k].wf(),
            decreases self.historic.len() - i,
        {
            historic.push(self.historic[i].clone());
            i += 1;
        }
        let r = Simplex { index: self.index, historic };
        proof {
            assert(r@.history =~= self@.history);
            if self.inv() {
                assert forall|k: int| 0 <= k < r.historic@.len() implies (#[trigger] r.historic@[k]).wf() by {
                    assert(self.historic@[k].wf());
                }
            }
            if r.inv() {
                assert forall|k: int| 0 <= k < self.historic@.len() implies (
                #[trigger] self.historic@[k]).wf() by {
                    assert(r.historic@[k].wf());
                }
            }
        }
        r
    }
}

impl From<LinearProgram> for Simplex {
    /// The simplex method at its start, on the given program.
    fn from(value: LinearProgram) -> (r: Simplex)
        ensures
            r@ == Stepper::start(value@),
            value.wf() ==> r.wf(),
    {
        let mut historic: Vec<LinearProgram> = Vec::new();
        historic.push(value);
        let r = Simplex { index: 0, historic };
        proof {
            assert(r@.history =~= seq![value@]);
        }
        r
    }
}

impl vstd::std_specs::convert::FromSpecImpl<LinearProgram> for Simplex {
    open spec fn obeys_from_spec() -> bool {
        false
    }

    open spec fn from_spec(value: LinearProgram) -> Simplex {
        choose|s: Simplex| s@ == Stepper::start(value@)
    }
}

impl Constraints {
    /// The simplex method at its start, to make the function as large as
    /// the constraints allow.
    pub fn maximize(&self, function: &LinearFunction) -> (r: Simplex)
        requires
            self.wf(),
            function.wf(),
        ensures
            r.wf(),
            r@ == Stepper::start(Program { objective: function@, tableau: self@ }),
    {
        Simplex::new(LinearProgram { linear_function: function.clone(), constraints: self.clone() })
    }

    /// The simplex method at its start, to make the function as small as
    /// the constraints allow: the function with every sign changed is made
    /// as large as they allow.
    pub fn minimize(&self, function: &LinearFunction) -> (r: Simplex)
        requires
            self.wf(),
            function.wf(),
        ensures
            r.wf(),
            r@ == Stepper::start(Program { objective: function@.neg(), tableau: self@ }),
    {
        Simplex::new(LinearProgram { linear_function: function.negate(), constraints: self.clone() })
    }
}

impl Simplex {
    /// What holds of the programs as they are held.
    pub closed spec fn inv(&self) -> bool {
        forall|i: int| 0 <= i < self.historic@.len() ==> (#[trigger] self.historic@[i]).wf()
    }

    /// Every program of the history is well formed, the cursor is in the
    /// history, and the history is a run of the simplex method.
    pub open spec fn wf(&self) -> bool {
        self.inv() && self@.wf()
    }

    /// The simplex method at its start, on the given program.
    pub fn new(program: LinearProgram) -> (r: Simplex)
        requires
            program.wf(),
        ensures
            r.wf(),
            r@ == Stepper::start(program@),
    {
        let mut historic: Vec<LinearProgram> = Vec::new();
        historic.push(program);
        let r = Simplex { index: 0, historic };
        proof {
            assert(r@.history =~= seq![program@]);
        }
        r
    }

    /// Whether the cursor is on the first program.
    pub fn is_first_step(&self) -> (b: bool)
        ensures
            b == (self@.cursor == 0),
    {
        self.index == 0
    }

    /// One step forward. Where the last program of the history has no
    /// entering variable, the method is done and nothing changes. Else the
    /// cursor moves one place on; where it was on the last program, that
    /// program is first pivoted on its entering variable and the result
    /// appended, and where that pivot cannot be made nothing changes.
    pub fn next_step(&mut self, use_bland_rule: bool) -> (r: Result<(), SimplexError>)
        requires
            old(self).wf(),
        ensures
            final(self).wf(),
            match r {
                Ok(()) => old(self)@.advance_outcome() == Ok::<Stepper, SimplexError>(final(self)@),
                Err(e) => old(self)@.advance_outcome() == Err::<Stepper, SimplexError>(e)
                    && final(self)@ == old(self)@,
            },
    {
        let last = self.historic.len() - 1;
        let ghost before = self@;
        assert(before.frontier() == self.historic@[last as int]@);
        assert(self.historic@[last as int].wf());
        let entering = self.historic[last].linear_function.first_positive_coefficient(use_bland_rule);
        match entering {
            None => Err(SimplexError::AlreadyOptimal),
            Some(var) => {
                proof {
                    assert(before.frontier().objective.coeff(var@).is_positive());
                    lemma_entering_unique(
                        before.frontier().objective,
                        var@,
                        before.frontier().entering(),
                    );
                }
                if self.index == last {
                    let mut next = self.historic[last].clone();
                    match next.pivot(var) {
                        Ok(()) => {},
                        Err(e) => {
                            return Err(e);
                        },
                    }
                    self.historic.push(next);
                    proof {
                        assert(self@.history =~= before.history.push(next@));
                        assert(before.frontier().pivot_outcome(var@) == Ok::<Program, SimplexError>(
                            next@,
                        ));
                        assert(before.frontier().steps_to(next@));
                    }
                }
                self.index = self.index + 1;
                proof {
                    let after = self@;
                    assert forall|i: int| 0 <= i < after.history.len() implies (
                    #[trigger] after.history[i]).wf() by {
                        assert(self.historic@[i].wf());
                    }
                    assert forall|i: int| 0 < i < after.history.len() implies after.history[i
                        - 1].steps_to(#[trigger] after.history[i]) by {
                        if i < before.history.len() {
                            assert(after.history[i] == before.history[i]);
                            assert(after.history[i - 1] == before.history[i - 1]);
                            assert(before.history[i - 1].steps_to(before.history[i]));
                        }
                    }
                }
                Ok(())
            },
        }
    }

    /// One step back: the cursor moves one place back, unless it is on the
    /// first program. The history stays as it is.
    pub fn previous_step(&mut self)
        requires
            old(self).wf(),
        ensures
            final(self).wf(),
            final(self)@ == old(self)@.retreated(),
    {
        if !self.is_first_step() {
            self.index = self.index - 1;
        }
    }

    /// The program under the cursor.
    pub fn current_state(&self) -> (r: &LinearProgram)
        requires
            self.wf(),
        ensures
            r.wf(),
            r@ == self@.current(),
    {
        &self.historic[self.index]
    }

    /// The vertex of the program under the cursor.
    pub fn current_point(&self) -> (r: Result<Vec<Coefficient>, SimplexError>)
        requires
            self.wf(),
        ensures
            match r {
                Ok(p) => self@.current().is_valid() && ratios_of(p@) == self@.current().point(),
                Err(e) => e == SimplexError::InvalidState && !self@.current().is_valid(),
            },
    {
        self.current_state().point()
    }

    /// Each structural variable with its value at the vertex of the program
    /// under the cursor.
    pub fn current_values(&self) -> (r: Result<Vec<(Variable, Coefficient)>, SimplexError>)
        requires
            self.wf(),
        ensures
            match r {
                Ok(v) => {
                    &&& self@.current().is_valid()
                    &&& v@.len() == self@.current().point().len()
                    &&& forall|k: int|
                        0 <= k < v@.len() ==> (#[trigger] v@[k]).0@ == sorted_names(
                            self@.current().structural(),
                        )[k] && v@[k].1@ == self@.current().point()[k] && v@[k].1.wf()
                },
                Err(e) => e == SimplexError::InvalidState && !self@.current().is_valid(),
            },
    {
        self.current_state().values()
    }
}

} // verus!
