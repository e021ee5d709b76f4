//! A linear program in dictionary form: an objective to make as large as
//! possible, and the tableau of its constraints.

use crate::constraint::{Constraints, Tableau};
use crate::dictionary::{
    lemma_most_restrictive_unique, lemma_objective_grows, lemma_pivot_valid,
    lemma_solved_constant,
};
use crate::error::SimplexError;
use crate::linear::Linear;
use crate::linear_function::{Coefficient, LinearFunction, Variable};
use crate::names::{lemma_name_le_antisymmetric, names_of, sort_names, sorted_list_of, sorted_names};
use crate::rational::{Ratio, Rational};
use vstd::prelude::*;

verus! {

/// The mathematical model of a [`LinearProgram`].
pub struct Program {
    pub objective: Linear,
    pub tableau: Tableau,
}

/// The fractions that a list of numbers holds.
pub open spec fn ratios_of(list: Seq<Rational>) -> Seq<Ratio> {
    list.map_values(|r: Rational| r@)
}

impl Program {
    /// The numbers are in lowest terms and the tableau is a dictionary.
    pub open spec fn wf(self) -> bool {
        self.objective.wf() && self.tableau.wf() && self.tableau.is_dictionary()
    }

    /// The current vertex is feasible: no row has a negative constant.
    pub open spec fn is_valid(self) -> bool {
        self.tableau.is_valid()
    }

    /// The row on which a pivot for the variable is made: the most
    /// restrictive one.
    pub open spec fn leaving_row(self, name: Seq<char>) -> int {
        choose|i: int| self.tableau.is_most_restrictive(i, name)
    }

    /// What `pivot` does: the program after the pivot, or why there is none.
    pub open spec fn pivot_outcome(self, name: Seq<char>) -> Result<Program, SimplexError> {
        if !self.tableau.bounds_fit(name) {
            Err(SimplexError::Overflow)
        } else if self.tableau.is_unrestricted(name) {
            Err(SimplexError::Unbounded)
        } else {
            let r = self.leaving_row(name);
            match self.tableau.pivot_outcome(r, name) {
                Err(e) => Err(e),
                Ok(t) => if self.objective.substitute_fits(name, t.rows[r].right) {
                    Ok(Program { objective: self.objective.substitute(name, t.rows[r].right), tableau: t })
                } else {
                    Err(SimplexError::Overflow)
                },
            }
        }
    }

    /// Some variable of the objective that is no gap variable can grow
    /// without limit.
    pub open spec fn is_unbounded(self) -> bool {
        exists|n: Seq<char>|
            self.objective.structural().contains(n) && #[trigger] self.tableau.is_unrestricted(n)
    }

    /// The variables of the program that are no gap variables.
    pub open spec fn structural(self) -> Set<Seq<char>> {
        self.objective.structural().union(self.tableau.structural())
    }

    /// The variables that the right sides of the rows mention.
    pub open spec fn out_of_base(self) -> Set<Seq<char>> {
        Set::new(|n: Seq<char>| self.tableau.mentions_before(self.tableau.rows.len() as int, n, true))
    }

    /// The current vertex: the value of each structural variable, in the
    /// alphabetical order of the variables.
    pub open spec fn point(self) -> Seq<Ratio> {
        sorted_names(self.structural()).map_values(|n: Seq<char>| self.tableau.value_of(n))
    }

    /// The objective mentions no variable that a row defines. Every
    /// variable that it mentions is then zero at the current vertex, and its
    /// constant is its value there.
    pub open spec fn objective_is_nonbasic(self) -> bool {
        forall|i: int|
            0 <= i < self.tableau.rows.len() ==> !self.objective.mentions(
                (#[trigger] self.tableau.rows[i]).basic(),
            )
    }

    /// No variable of the objective has a positive coefficient.
    pub open spec fn is_optimal(self) -> bool {
        forall|n: Seq<char>| !self.objective.coeff(n).is_positive()
    }

    /// The variable that the next step brings into the basis: the first, in
    /// alphabetical order, whose coefficient in the objective is positive.
    pub open spec fn entering(self) -> Seq<char> {
        choose|v: Seq<char>| self.objective.is_entering(v)
    }

    /// The next step is not degenerate: the row on which the pivot for the
    /// entering variable is made has a positive constant.
    pub open spec fn step_is_strict(self) -> bool {
        self.tableau.rows[self.leaving_row(self.entering())].right.constant.is_positive()
    }

    /// What one step of the simplex method does: the program after the
    /// pivot on the entering variable, or why there is none.
    pub open spec fn step_outcome(self) -> Result<Program, SimplexError> {
        if self.is_optimal() {
            Err(SimplexError::AlreadyOptimal)
        } else {
            self.pivot_outcome(self.entering())
        }
    }
}

impl Program {
    /// `next` is one step of the simplex method after `self`: the pivot on
    /// the entering variable of `self`.
    pub open spec fn steps_to(self, next: Program) -> bool {
        exists|v: Seq<char>|
            self.objective.is_entering(v) && #[trigger] self.pivot_outcome(v) == Ok::<
                Program,
                SimplexError,
            >(next)
    }
}

/// At most one variable is the entering variable of an objective.
pub proof fn lemma_entering_unique(objective: Linear, a: Seq<char>, b: Seq<char>)
    requires
        objective.is_entering(a),
        objective.is_entering(b),
    ensures
        a == b,
{
    lemma_name_le_antisymmetric(a, b);
}

/// An objective to make as large as possible, under constraints.
#[derive(Debug)]
pub struct LinearProgram {
    pub linear_function: LinearFunction,
    pub constraints: Constraints,
}

impl View for LinearProgram {
    type V = Program;

    open spec fn view(&self) -> Program {
        Program { objective: self.linear_function@, tableau: self.constraints@ }
    }
}

impl Clone for LinearProgram {
    fn clone(&self) -> (r: Self)
        ensures
            r@ == self@,
            r.wf() == self.wf(),
    {
        LinearProgram {
            linear_function: self.linear_function.clone(),
            constraints: self.constraints.clone(),
        }
    }
}

impl LinearProgram {
    /// The objective is a well-formed expression and the constraints are a
    /// well-formed tableau.
    pub open spec fn wf(&self) -> bool {
        self.linear_function.wf() && self.constraints.wf()
    }

    /// Brings the variable into the basis: pivots the tableau on the row
    /// that restricts the variable most, and puts what the variable is then
    /// equal to in its place in the objective. Where no row restricts the
    /// variable the program is unbounded. Where the pivot cannot be made the
    /// program stays as it is.
    ///
    /// A pivot of a feasible program gives a feasible program, and where
    /// the variable's coefficient in the objective is positive the
    /// objective's constant does not get smaller.
    pub fn pivot(&mut self, var: String) -> (r: Result<(), SimplexError>)
        requires
            old(self).wf(),
        ensures
            final(self).wf(),
            match r {
                Ok(()) => old(self)@.pivot_outcome(var@) == Ok::<Program, SimplexError>(final(self)@),
                Err(e) => old(self)@.pivot_outcome(var@) == Err::<Program, SimplexError>(e)
                    && *final(self) == *old(self),
            },
            r != Err::<(), SimplexError>(SimplexError::DomainError),
            r is Ok && old(self)@.is_valid() ==> final(self)@.is_valid(),
            r is Ok && old(self)@.is_valid() && old(self)@.objective.coeff(var@).is_positive()
                ==> !final(self)@.objective.constant.lt(old(self)@.objective.constant),
    {
        let name = var.as_str();
        let row = match self.constraints.most_restrictive(name) {
            Err(e) => {
                return Err(e);
            },
            Ok(None) => {
                return Err(SimplexError::Unbounded);
            },
            Ok(Some(row)) => row,
        };
        let ghost before = self@;
        proof {
            assert(before.tableau.restricts(row as int, name@));
            lemma_most_restrictive_unique(
                before.tableau,
                row as int,
                before.leaving_row(name@),
                name@,
            );
            lemma_solved_constant(before.tableau, row as int, name@);
        }
        let solved = match self.constraints.row(row).normalize(name) {
            Ok(solved) => solved,
            Err(e) => {
                return Err(e);
            },
        };
        let objective = match self.linear_function.replace(name, &solved.right) {
            Ok(objective) => objective,
            Err(e) => {
                return Err(e);
            },
        };
        match self.constraints.pivot(row, name) {
            Ok(()) => {},
            Err(e) => {
                return Err(e);
            },
        }
        self.linear_function = objective;
        proof {
            if before.is_valid() {
                lemma_pivot_valid(before.tableau, row as int, name@);
                if before.objective.coeff(name@).is_positive() {
                    lemma_objective_grows(before.objective, before.tableau, row as int, name@);
                }
            }
        }
        Ok(())
    }

    /// Whether the current vertex is feasible.
    pub fn is_valid(&self) -> (b: bool)
        requires
            self.wf(),
        ensures
            b == self@.is_valid(),
    {
        self.constraints.is_valid()
    }

    /// Whether some variable of the objective that is no gap variable can
    /// grow without limit.
    pub fn is_unbounded(&self) -> (b: bool)
        requires
            self.wf(),
        ensures
            b == self@.is_unbounded(),
    {
        let names = self.linear_function.non_gap_variables();
        let ghost list = names_of(names@);
        let mut i: usize = 0;
        while i < names.len()
            invariant
                i <= names.len(),
                self.wf(),
                list == names_of(names@),
                sorted_list_of(list, self@.objective.structural()),
                forall|k: int| 0 <= k < i ==> !self@.tableau.is_unrestricted(#[trigger] list[k]),
            decreases names.len() - i,
        {
            assert(list[i as int] == names@[i as int]@);
            if !self.constraints.is_restricted(names[i].as_str()) {
                proof {
                    assert(list.contains(list[i as int]));
                    assert(self@.objective.structural().contains(list[i as int]));
                    assert(self@.tableau.is_unrestricted(list[i as int]));
                }
                return true;
            }
            i += 1;
        }
        proof {
            if self@.is_unbounded() {
                let n = choose|n: Seq<char>|
                    self@.objective.structural().contains(n) && #[trigger] self@.tableau.is_unrestricted(
                        n,
                    );
                assert(list.contains(n));
                let k = choose|k: int| 0 <= k < list.len() && list[k] == n;
                assert(!self@.tableau.is_unrestricted(list[k]));
            }
        }
        false
    }

    /// The variables of the program that are no gap variables, in
    /// alphabetical order.
    pub fn non_gap_variables(&self) -> (r: Vec<String>)
        requires
            self.wf(),
        ensures
            sorted_list_of(names_of(r@), self@.structural()),
            names_of(r@) == sorted_names(self@.structural()),
    {
        let mut list: Vec<String> = Vec::new();
        assert(names_of(list@) =~= Seq::empty());
        self.linear_function.collect_variables(&mut list, true);
        self.constraints.collect_variables(&mut list, true, false);
        let r = sort_names(list);
        assert(sorted_list_of(names_of(r@), self@.structural()));
        r
    }

    /// The variables that the right sides of the rows mention: those that
    /// are zero at the current vertex. In alphabetical order.
    pub fn out_of_base_variables(&self) -> (r: Vec<Variable>)
        requires
            self.wf(),
        ensures
            sorted_list_of(names_of(r@), self@.out_of_base()),
            names_of(r@) == sorted_names(self@.out_of_base()),
    {
        let mut list: Vec<String> = Vec::new();
        assert(names_of(list@) =~= Seq::empty());
        self.constraints.collect_variables(&mut list, false, true);
        let r = sort_names(list);
        assert(sorted_list_of(names_of(r@), self@.out_of_base()));
        r
    }

    /// The current vertex: the value of each structural variable, in the
    /// alphabetical order of the variables. There is none where the vertex
    /// is not feasible.
    pub fn point(&self) -> (r: Result<Vec<Coefficient>, SimplexError>)
        requires
            self.wf(),
        ensures
            match r {
                Ok(p) => self@.is_valid() && ratios_of(p@) == self@.point(),
                Err(e) => e == SimplexError::InvalidState && !self@.is_valid(),
            },
    {
        match self.values() {
            Err(e) => Err(e),
            Ok(values) => {
                let mut point: Vec<Rational> = Vec::new();
                let mut i: usize = 0;
                while i < values.len()
                    invariant
                        i <= values.len(),
                        point.len() == i,
                        values@.len() == self@.point().len(),
                        forall|k: int| 0 <= k < values@.len() ==> (#[trigger] values@[k]).1@ == self@.point()[k],
                        forall|k: int| 0 <= k < i ==> (#[trigger] point@[k])@ == self@.point()[k],
                    decreases values.len() - i,
                {
                    point.push(values[i].1);
                    i += 1;
                }
                proof {
                    assert(ratios_of(point@) =~= self@.point());
                }
                Ok(point)
            },
        }
    }

    /// Each structural variable with its value at the current vertex, in
    /// the alphabetical order of the variables. There are none where the
    /// vertex is not feasible.
    pub fn values(&self) -> (r: Result<Vec<(Variable, Coefficient)>, SimplexError>)
        requires
            self.wf(),
        ensures
            match r {
                Ok(v) => {
                    &&& self@.is_valid()
                    &&& v@.len() == self@.point().len()
                    &&& forall|k: int|
                        0 <= k < v@.len() ==> (#[trigger] v@[k]).0@ == sorted_names(
                            self@.structural(),
                        )[k] && v@[k].1@ == self@.point()[k] && v@[k].1.wf()
                },
                Err(e) => e == SimplexError::InvalidState && !self@.is_valid(),
            },
    {
        if !self.is_valid() {
            return Err(SimplexError::InvalidState);
        }
        let names = self.non_gap_variables();
        let ghost list = names_of(names@);
        let mut values: Vec<(String, Rational)> = Vec::new();
        let mut i: usize = 0;
        while i < names.len()
            invariant
                i <= names.len(),
                values.len() == i,
                self.wf(),
                list == names_of(names@),
                list == sorted_names(self@.structural()),
                forall|k: int|
                    0 <= k < i ==> (#[trigger] values@[k]).0@ == list[k] && values@[k].1@
                        == self@.tableau.value_of(list[k]) && values@[k].1.wf(),
            decreases names.len() - i,
        {
            assert(list[i as int] == names@[i as int]@);
            let value = self.constraints.value_of(names[i].as_str());
            values.push((names[i].clone(), value));
            i += 1;
        }
        Ok(values)
    }
}

} // verus!
