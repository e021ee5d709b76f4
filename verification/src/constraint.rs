//! Constraints, and the tableau that the simplex method works on.
//!
//! A tableau holds one row for each constraint. A row reads `left = right`:
//! on the left the one variable that the row defines (its basic variable),
//! on the right a constant and the variables that are zero at the current
//! vertex. A row starts with the gap variable of its constraint on the left:
//! the amount by which the constraint is met.

use crate::error::SimplexError;
use crate::linear::{lemma_is_variable_unique, lemma_variable, Linear};
use crate::dictionary::{lemma_bound, lemma_lt_chain, lemma_pivot_dictionary};
use crate::linear_function::LinearFunction;
use crate::names::{
    gap_name, gap_name_of, is_gap_name, names_of, sort_names, sorted_list_of, sorted_names,
};
use crate::rational::{lemma_neg, Ratio, Rational};
use vstd::prelude::*;

verus! {

/// The relation that a constraint was written with.
#[derive(Clone, Copy, Debug, PartialEq, Eq, Structural)]
pub enum Operator {
    Equal,
    Less,
    Greater,
    LessEqual,
    GreaterEqual,
}

/// The relation as it is written.
pub open spec fn operator_text(operator: Operator) -> Seq<char> {
    match operator {
        Operator::Equal => seq!['='],
        Operator::Less => seq!['<'],
        Operator::Greater => seq!['>'],
        Operator::LessEqual => seq!['<', '='],
        Operator::GreaterEqual => seq!['>', '='],
    }
}

impl Operator {
    /// The relation as it is written.
    pub fn symbol(&self) -> (r: &'static str)
        ensures
            r@ == operator_text(*self),
    {
        proof {
            reveal_strlit("=");
            reveal_strlit("<");
            reveal_strlit(">");
            reveal_strlit("<=");
            reveal_strlit(">=");
            assert("="@ =~= seq!['=']);
            assert("<"@ =~= seq!['<']);
            assert(">"@ =~= seq!['>']);
            assert("<="@ =~= seq!['<', '=']);
            assert(">="@ =~= seq!['>', '=']);
        }
        match self {
            Operator::Equal => "=",
            Operator::Less => "<",
            Operator::Greater => ">",
            Operator::LessEqual => "<=",
            Operator::GreaterEqual => ">=",
        }
    }
}

/// A constraint, or a row of a tableau: two expressions and the relation
/// that the constraint was written with.
#[derive(Debug)]
pub struct Constraint {
    pub left: LinearFunction,
    pub operator: Operator,
    pub right: LinearFunction,
}

/// The mathematical model of a [`Constraint`].
pub struct Row {
    pub left: Linear,
    pub operator: Operator,
    pub right: Linear,
}

impl Row {
    /// Both sides are well formed.
    pub open spec fn wf(self) -> bool {
        self.left.wf() && self.right.wf()
    }

    /// The form in which a constraint `left operator right` is kept: an
    /// equation with everything on its left, an inequality of the `<=` kind
    /// with its left side negated, any other as it is written.
    pub open spec fn canonical(left: Linear, operator: Operator, right: Linear) -> Row {
        match operator {
            Operator::Equal => Row { left: left.minus(right), operator, right: Linear::zero() },
            Operator::LessEqual => Row { left: left.neg(), operator, right },
            _ => Row { left, operator, right },
        }
    }

    /// The amount by which a constraint in canonical form is met: what its
    /// gap variable stands for. For `<=` and `<` it is the right side minus
    /// the left side as written; for `>=`, `>` and `=` the left side minus the
    /// right side.
    pub open spec fn slack(self) -> Linear {
        match self.operator {
            Operator::LessEqual => self.right.plus(self.left),
            Operator::Less => self.right.minus(self.left),
            _ => self.left.minus(self.right),
        }
    }

    /// The row as one expression that is zero: left minus right.
    pub open spec fn net(self) -> Linear {
        self.left.minus(self.right)
    }

    /// The row solved for a variable: the variable on the left, and on the
    /// right what the row says it is equal to.
    pub open spec fn normalized(self, name: Seq<char>) -> Row {
        Row {
            left: Linear::variable(name),
            operator: self.operator,
            right: self.net().solve_for(name),
        }
    }

    /// What `normalize` returns: the row solved for the variable, or why
    /// there is none.
    pub open spec fn normalize_outcome(self, name: Seq<char>) -> Result<Row, SimplexError> {
        if !self.net().fits() {
            Err(SimplexError::Overflow)
        } else if !self.net().mentions(name) {
            Err(SimplexError::DomainError)
        } else if !self.net().solve_for(name).fits() {
            Err(SimplexError::Overflow)
        } else {
            Ok(self.normalized(name))
        }
    }

    /// The row defines a variable: its left side is that variable alone.
    pub open spec fn is_defining(self) -> bool {
        exists|v: Seq<char>| self.left.is_variable(v)
    }

    /// The variable that the row defines.
    pub open spec fn basic(self) -> Seq<char> {
        choose|v: Seq<char>| self.left.is_variable(v)
    }
}

impl View for Constraint {
    type V = Row;

    open spec fn view(&self) -> Row {
        Row { left: self.left@, operator: self.operator, right: self.right@ }
    }
}

impl Clone for Constraint {
    fn clone(&self) -> (r: Self)
        ensures
            r@ == self@,
            r.wf() == self.wf(),
    {
        Constraint { left: self.left.clone(), operator: self.operator, right: self.right.clone() }
    }
}

impl Constraint {
    /// Both sides are well-formed expressions.
    pub open spec fn wf(&self) -> bool {
        self.left.wf() && self.right.wf()
    }

    /// The constraint `left operator right`, in canonical form. An equation
    /// needs the difference of its sides, which may be out of range.
    pub fn new(left: LinearFunction, operator: Operator, right: LinearFunction) -> (r: Result<
        Constraint,
        SimplexError,
    >)
        requires
            left.wf(),
            right.wf(),
        ensures
            match r {
                Ok(c) => c.wf() && c@ == Row::canonical(left@, operator, right@),
                Err(e) => e == SimplexError::Overflow && operator == Operator::Equal
                    && !left@.minus(right@).fits(),
            },
    {
        match operator {
            Operator::Equal => {
                match left.subtract(&right) {
                    Ok(difference) => Ok(
                        Constraint { left: difference, operator, right: LinearFunction::zero() },
                    ),
                    Err(e) => Err(e),
                }
            },
            Operator::Less => Ok(Constraint { left, operator, right }),
            Operator::Greater => Ok(Constraint { left, operator, right }),
            Operator::LessEqual => Ok(Constraint { left: left.negate(), operator, right }),
            Operator::GreaterEqual => Ok(Constraint { left, operator, right }),
        }
    }

    /// The row solved for a variable: the variable alone on the left, and
    /// on the right what the row says it is equal to. There is none where the
    /// variable has the same coefficient on both sides.
    pub fn normalize(&self, var: &str) -> (r: Result<Constraint, SimplexError>)
        requires
            self.wf(),
        ensures
            match r {
                Ok(c) => c.wf() && self@.normalize_outcome(var@) == Ok::<Row, SimplexError>(c@),
                Err(e) => self@.normalize_outcome(var@) == Err::<Row, SimplexError>(e),
            },
    {
        let net = match self.left.subtract(&self.right) {
            Ok(net) => net,
            Err(e) => {
                return Err(e);
            },
        };
        match net.solve_for(var) {
            Ok(solved) => Ok(
                Constraint { left: LinearFunction::variable(var), operator: self.operator, right: solved },
            ),
            Err(e) => Err(e),
        }
    }

    /// The amount by which the constraint is met, as an expression.
    pub fn slack(&self) -> (r: Result<LinearFunction, SimplexError>)
        requires
            self.wf(),
        ensures
            match r {
                Ok(f) => f.wf() && f@ == self@.slack(),
                Err(e) => e == SimplexError::Overflow && !self@.slack().fits(),
            },
    {
        match self.operator {
            Operator::LessEqual => self.right.add(&self.left),
            Operator::Less => self.right.subtract(&self.left),
            _ => self.left.subtract(&self.right),
        }
    }
}

/// The mathematical model of a tableau: its rows, in order.
pub struct Tableau {
    pub rows: Seq<Row>,
}

impl Tableau {
    /// Every row is well formed.
    pub open spec fn wf(self) -> bool {
        forall|i: int| 0 <= i < self.rows.len() ==> (#[trigger] self.rows[i]).wf()
    }

    /// The tableau is a dictionary: every row defines a variable, no two
    /// rows the same one, and no right side mentions a defined variable.
    pub open spec fn is_dictionary(self) -> bool {
        &&& forall|i: int| 0 <= i < self.rows.len() ==> (#[trigger] self.rows[i]).is_defining()
        &&& forall|i: int, j: int|
            0 <= i < j < self.rows.len() ==> (#[trigger] self.rows[i]).basic() != (
            #[trigger] self.rows[j]).basic()
        &&& forall|i: int, j: int|
            0 <= i < self.rows.len() && 0 <= j < self.rows.len() ==> !(
            #[trigger] self.rows[j]).right.mentions((#[trigger] self.rows[i]).basic())
    }

    /// The defined variables are not negative at the current vertex: no
    /// row has a negative constant.
    pub open spec fn is_valid(self) -> bool {
        forall|i: int|
            0 <= i < self.rows.len() ==> !(#[trigger] self.rows[i]).right.constant.is_negative()
    }

    /// A row with the given slack and gap variable can be added: the gap
    /// variable is new to the tableau, and the slack mentions neither it nor
    /// a variable that a row defines.
    pub open spec fn admits(self, slack: Linear, gap: Seq<char>) -> bool {
        &&& !slack.mentions(gap)
        &&& forall|i: int|
            0 <= i < self.rows.len() ==> {
                &&& !slack.mentions((#[trigger] self.rows[i]).basic())
                &&& self.rows[i].basic() != gap
                &&& !self.rows[i].right.mentions(gap)
            }
    }

    /// The row limits how far the variable can grow: the variable has a
    /// negative coefficient on the row's right side.
    pub open spec fn restricts(self, i: int, name: Seq<char>) -> bool {
        self.rows[i].right.coeff(name).is_negative()
    }

    /// The value up to which a restricting row lets the variable grow: the
    /// row's constant over the magnitude of the variable's coefficient.
    pub open spec fn bound(self, i: int, name: Seq<char>) -> Ratio {
        self.rows[i].right.constant.over(self.rows[i].right.coeff(name).neg())
    }

    /// Row `i` restricts the variable, no row restricts it more, and every
    /// row before it restricts it less.
    pub open spec fn is_most_restrictive(self, i: int, name: Seq<char>) -> bool {
        &&& 0 <= i < self.rows.len()
        &&& self.restricts(i, name)
        &&& forall|j: int|
            0 <= j < self.rows.len() && #[trigger] self.restricts(j, name) ==> {
                &&& !self.bound(j, name).lt(self.bound(i, name))
                &&& j < i ==> self.bound(i, name).lt(self.bound(j, name))
            }
    }

    /// No row limits how far the variable can grow.
    pub open spec fn is_unrestricted(self, name: Seq<char>) -> bool {
        forall|j: int| 0 <= j < self.rows.len() ==> !#[trigger] self.restricts(j, name)
    }

    /// The bound of every row that restricts the variable can be held.
    pub open spec fn bounds_fit(self, name: Seq<char>) -> bool {
        forall|j: int|
            0 <= j < self.rows.len() && #[trigger] self.restricts(j, name) ==> self.bound(
                j,
                name,
            ).fits()
    }

    /// The tableau after a pivot: row `r` solved for the variable, and what
    /// the variable is then equal to put in its place on the right side of
    /// every other row.
    pub open spec fn pivoted(self, r: int, name: Seq<char>) -> Tableau {
        let solved = self.rows[r].normalized(name);
        Tableau {
            rows: Seq::new(
                self.rows.len(),
                |j: int|
                    if j == r {
                        solved
                    } else {
                        Row {
                            left: self.rows[j].left,
                            operator: self.rows[j].operator,
                            right: self.rows[j].right.substitute(name, solved.right),
                        }
                    },
            ),
        }
    }

    /// Every substitution of a pivot can be carried out within the limits.
    pub open spec fn substitutions_fit(self, r: int, name: Seq<char>) -> bool {
        forall|j: int|
            0 <= j < self.rows.len() && j != r ==> (#[trigger] self.rows[j]).right.substitute_fits(
                name,
                self.rows[r].normalized(name).right,
            )
    }

    /// What `pivot` does: the tableau after the pivot, or why there is none.
    pub open spec fn pivot_outcome(self, r: int, name: Seq<char>) -> Result<Tableau, SimplexError> {
        match self.rows[r].normalize_outcome(name) {
            Err(e) => Err(e),
            Ok(_) => if self.substitutions_fit(r, name) {
                Ok(self.pivoted(r, name))
            } else {
                Err(SimplexError::Overflow)
            },
        }
    }

    /// Row `i` mentions the variable: on either side, or, with
    /// `right_only`, on its right side.
    pub open spec fn row_mentions(self, i: int, name: Seq<char>, right_only: bool) -> bool {
        (!right_only && self.rows[i].left.mentions(name)) || self.rows[i].right.mentions(name)
    }

    /// One of the first `end` rows mentions the variable.
    pub open spec fn mentions_before(self, end: int, name: Seq<char>, right_only: bool) -> bool {
        exists|i: int| 0 <= i < end && #[trigger] self.row_mentions(i, name, right_only)
    }

    /// The variables that the rows mention and that are no gap variables.
    pub open spec fn structural(self) -> Set<Seq<char>> {
        Set::new(
            |n: Seq<char>| self.mentions_before(self.rows.len() as int, n, false) && !is_gap_name(n),
        )
    }

    /// Row `i` defines the variable.
    pub open spec fn defines(self, i: int, name: Seq<char>) -> bool {
        self.rows[i].basic() == name
    }

    /// The value of a variable at the current vertex: the constant of the
    /// row that defines it, and zero where no row does.
    pub open spec fn value_of(self, name: Seq<char>) -> Ratio {
        if exists|i: int| 0 <= i < self.rows.len() && #[trigger] self.defines(i, name) {
            let i = choose|i: int| 0 <= i < self.rows.len() && #[trigger] self.defines(i, name);
            self.rows[i].right.constant
        } else {
            Ratio::zero()
        }
    }

    /// What `add_constraint` does with a constraint in canonical form.
    pub open spec fn add_outcome(self, c: Row) -> Result<Tableau, SimplexError> {
        let gap = gap_name_of(self.rows.len() + 1);
        if !c.slack().fits() {
            Err(SimplexError::Overflow)
        } else if !self.admits(c.slack(), gap) {
            Err(SimplexError::InvalidState)
        } else {
            Ok(
                Tableau {
                    rows: self.rows.push(
                        Row { left: Linear::variable(gap), operator: c.operator, right: c.slack() },
                    ),
                },
            )
        }
    }
}

/// The rows of a tableau, in the order in which the constraints were added.
#[derive(Debug)]
pub struct Constraints {
    inner: Vec<Constraint>,
}

impl View for Constraints {
    type V = Tableau;

    closed spec fn view(&self) -> Tableau {
        Tableau { rows: Seq::new(self.inner@.len(), |i: int| self.inner@[i]@) }
    }
}

impl Clone for Constraints {
    fn clone(&self) -> (r: Self)
        ensures
            r@ == self@,
            r.wf() == self.wf(),
    {
        let mut inner: Vec<Constraint> = Vec::new();
        let mut i: usize = 0;
        while i < self.inner.len()
            invariant
                i <= self.inner.len(),
                inner.len() == i,
                forall|k: int|
                    0 <= k < i ==> (#[trigger] inner@[k])@ == self.inner@[k]@ && inner@[k].wf()
                        == self.inner@[k].wf(),
            decreases self.inner.len() - i,
        {
            inner.push(self.inner[i].clone());
            i += 1;
        }
        let r = Constraints { inner };
        proof {
            assert(r@.rows =~= self@.rows);
            if self.inv() {
                assert forall|k: int| 0 <= k < r.inner@.len() implies (#[trigger] r.inner@[k]).wf() by {
                    assert(self.inner@[k].wf());
                }
            }
            if r.inv() {
                assert forall|k: int| 0 <= k < self.inner@.len() implies (
                #[trigger] self.inner@[k]).wf() by {
                    assert(r.inner@[k].wf());
                }
            }
        }
        r
    }
}

impl Default for Constraints {
    fn default() -> (r: Self)
        ensures
            r.wf(),
            r@.rows.len() == 0,
    {
        Constraints { inner: Vec::new() }
    }
}

impl Constraints {
    /// What holds of the rows as they are held.
    pub closed spec fn inv(&self) -> bool {
        forall|i: int| 0 <= i < self.inner@.len() ==> (#[trigger] self.inner@[i]).wf()
    }

    /// Every row is well formed, and the rows are a dictionary.
    pub open spec fn wf(&self) -> bool {
        self.inv() && self@.wf() && self@.is_dictionary()
    }

    /// The number of rows.
    pub fn len(&self) -> (n: usize)
        ensures
            n == self@.rows.len(),
    {
        self.inner.len()
    }

    /// The row at the given place.
    pub fn row(&self, index: usize) -> (r: &Constraint)
        requires
            self.wf(),
            index < self@.rows.len(),
        ensures
            r.wf(),
            r@ == self@.rows[index as int],
    {
        &self.inner[index]
    }

    /// Whether no row has a negative constant.
    pub fn is_valid(&self) -> (b: bool)
        requires
            self.wf(),
        ensures
            b == self@.is_valid(),
    {
        let mut i: usize = 0;
        while i < self.inner.len()
            invariant
                i <= self.inner.len(),
                self.wf(),
                forall|k: int| 0 <= k < i ==> !(#[trigger] self@.rows[k]).right.constant.is_negative(),
            decreases self.inner.len() - i,
        {
            if self.inner[i].right.constant().is_negative() {
                assert(self@.rows[i as int].right.constant.is_negative());
                return false;
            }
            i += 1;
        }
        true
    }

    /// Whether a row with this slack and this gap variable can be added.
    fn admits(&self, slack: &LinearFunction, gap: &String) -> (b: bool)
        requires
            self.wf(),
            slack.wf(),
        ensures
            b == self@.admits(slack@, gap@),
    {
        if !slack.coefficient(gap.as_str()).is_zero() {
            return false;
        }
        let mut i: usize = 0;
        while i < self.inner.len()
            invariant
                i <= self.inner.len(),
                self.wf(),
                slack.wf(),
                !slack@.mentions(gap@),
                forall|k: int|
                    0 <= k < i ==> {
                        &&& !slack@.mentions((#[trigger] self@.rows[k]).basic())
                        &&& self@.rows[k].basic() != gap@
                        &&& !self@.rows[k].right.mentions(gap@)
                    },
            decreases self.inner.len() - i,
        {
            let ghost row = self@.rows[i as int];
            assert(row.is_defining());
            match self.inner[i].left.name_single_variable() {
                None => {
                    // Every row of a dictionary defines a variable.
                    assert(false);
                },
                Some(basic) => {
                    proof {
                        lemma_is_variable_unique(row.left, basic@, row.basic());
                    }
                    if !slack.coefficient(basic.as_str()).is_zero() || basic == *gap
                        || !self.inner[i].right.coefficient(gap.as_str()).is_zero() {
                        return false;
                    }
                },
            }
            i += 1;
        }
        true
    }

    /// Adds a row for the constraint: on its left the next gap variable
    /// (`_g1` for the first row, `_g2` for the second, ...), on its right
    /// the amount by which the constraint is met. Refused where the
    /// constraint mentions the new gap variable or a variable that a row
    /// defines, or where the tableau mentions the new gap variable already.
    pub fn add_constraint(&mut self, constraint: Constraint) -> (r: Result<(), SimplexError>)
        requires
            old(self).wf(),
            constraint.wf(),
            old(self)@.rows.len() < usize::MAX,
        ensures
            final(self).wf(),
            match r {
                Ok(()) => old(self)@.add_outcome(constraint@) == Ok::<Tableau, SimplexError>(
                    final(self)@,
                ),
                Err(e) => old(self)@.add_outcome(constraint@) == Err::<Tableau, SimplexError>(e)
                    && final(self)@ == old(self)@,
            },
    {
        let slack = match constraint.slack() {
            Ok(slack) => slack,
            Err(e) => {
                return Err(e);
            },
        };
        let gap = gap_name(self.inner.len() + 1);
        if !self.admits(&slack, &gap) {
            return Err(SimplexError::InvalidState);
        }
        let row = Constraint {
            left: LinearFunction::variable(gap.as_str()),
            operator: constraint.operator,
            right: slack,
        };
        let ghost before = self@;
        self.inner.push(row);
        proof {
            let after = self@;
            let added = Row {
                left: Linear::variable(gap@),
                operator: constraint.operator,
                right: constraint@.slack(),
            };
            assert(after.rows =~= before.rows.push(added));
            lemma_variable(gap@);
            lemma_is_variable_unique(added.left, gap@, added.basic());
            assert forall|i: int| 0 <= i < after.rows.len() implies (#[trigger] after.rows[i]).wf()
                && after.rows[i].is_defining() by {
                if i < before.rows.len() {
                    assert(after.rows[i] == before.rows[i]);
                }
            }
            assert forall|i: int, j: int| 0 <= i < j < after.rows.len() implies (
            #[trigger] after.rows[i]).basic() != (#[trigger] after.rows[j]).basic() by {
                assert(after.rows[i] == before.rows[i]);
                if j < before.rows.len() {
                    assert(after.rows[j] == before.rows[j]);
                }
            }
            assert forall|i: int, j: int|
                0 <= i < after.rows.len() && 0 <= j < after.rows.len() implies !(
            #[trigger] after.rows[j]).right.mentions((#[trigger] after.rows[i]).basic()) by {
                if i < before.rows.len() {
                    assert(after.rows[i] == before.rows[i]);
                }
                if j < before.rows.len() {
                    assert(after.rows[j] == before.rows[j]);
                }
            }
        }
        Ok(())
    }

    /// Whether any row limits how far the variable can grow.
    pub fn is_restricted(&self, var: &str) -> (b: bool)
        requires
            self.wf(),
        ensures
            b == !self@.is_unrestricted(var@),
    {
        let mut i: usize = 0;
        while i < self.inner.len()
            invariant
                i <= self.inner.len(),
                self.wf(),
                forall|k: int| 0 <= k < i ==> !#[trigger] self@.restricts(k, var@),
            decreases self.inner.len() - i,
        {
            if self.inner[i].right.coefficient(var).is_negative() {
                assert(self@.restricts(i as int, var@));
                return true;
            }
            i += 1;
        }
        false
    }

    /// The row that lets the variable grow the least, and among such rows
    /// the first; none where no row restricts the variable. The bounds of
    /// the rows are compared as exact numbers, so each must be one that can
    /// be held.
    pub fn most_restrictive(&self, var: &str) -> (r: Result<Option<usize>, SimplexError>)
        requires
            self.wf(),
        ensures
            match r {
                Ok(Some(i)) => self@.is_most_restrictive(i as int, var@) && self@.bounds_fit(var@),
                Ok(None) => self@.is_unrestricted(var@),
                Err(e) => e == SimplexError::Overflow && !self@.bounds_fit(var@),
            },
    {
        let mut best: Option<(usize, Rational)> = None;
        let mut i: usize = 0;
        while i < self.inner.len()
            invariant
                i <= self.inner.len(),
                self.wf(),
                forall|k: int|
                    0 <= k < i && #[trigger] self@.restricts(k, var@) ==> self@.bound(k, var@).fits()
                        && self@.bound(k, var@).wf(),
                match best {
                    None => forall|k: int| 0 <= k < i ==> !#[trigger] self@.restricts(k, var@),
                    Some((at, bound)) => {
                        &&& at < i
                        &&& self@.restricts(at as int, var@)
                        &&& bound.wf()
                        &&& bound@ == self@.bound(at as int, var@)
                        &&& forall|k: int|
                            0 <= k < i && #[trigger] self@.restricts(k, var@) ==> {
                                &&& !self@.bound(k, var@).lt(bound@)
                                &&& k < at ==> bound@.lt(self@.bound(k, var@))
                            }
                    },
                },
            decreases self.inner.len() - i,
        {
            let coeff = self.inner[i].right.coefficient(var);
            if coeff.is_negative() {
                proof {
                    lemma_neg(coeff@);
                    lemma_bound(self@.rows[i as int].right, var@);
                }
                let magnitude = coeff.negate();
                let inverse = match magnitude.recip() {
                    Some(inverse) => inverse,
                    None => {
                        // A negative coefficient is not zero.
                        assert(false);
                        return Err(SimplexError::Overflow);
                    },
                };
                let bound = match self.inner[i].right.constant().checked_mul(&inverse) {
                    Some(bound) => bound,
                    None => {
                        assert(self@.restricts(i as int, var@));
                        return Err(SimplexError::Overflow);
                    },
                };
                assert(bound@ == self@.bound(i as int, var@));
                match best {
                    None => {
                        best = Some((i, bound));
                    },
                    Some((at, least)) => {
                        if bound.less_than(&least) {
                            proof {
                                assert forall|k: int|
                                    0 <= k < i + 1 && #[trigger] self@.restricts(k, var@) implies !self@.bound(
                                    k,
                                    var@,
                                ).lt(bound@) && (k < i ==> bound@.lt(self@.bound(k, var@))) by {
                                    if k < i {
                                        lemma_lt_chain(bound@, least@, self@.bound(k, var@));
                                    } else {
                                        lemma_lt_chain(bound@, least@, least@);
                                    }
                                }
                            }
                            best = Some((i, bound));
                        }
                    },
                }
            }
            i += 1;
        }
        match best {
            None => Ok(None),
            Some((at, _)) => Ok(Some(at)),
        }
    }

    /// Pivots the tableau: solves the row for the variable, and puts what
    /// the variable is then equal to in its place on the right side of every
    /// other row. Where the pivot cannot be made, the tableau stays as it is.
    pub fn pivot(&mut self, row: usize, var: &str) -> (r: Result<(), SimplexError>)
        requires
            old(self).wf(),
            row < old(self)@.rows.len(),
        ensures
            final(self).wf(),
            match r {
                Ok(()) => old(self)@.pivot_outcome(row as int, var@) == Ok::<Tableau, SimplexError>(
                    final(self)@,
                ),
                Err(e) => old(self)@.pivot_outcome(row as int, var@) == Err::<Tableau, SimplexError>(
                    e,
                ) && *final(self) == *old(self),
            },
    {
        let solved = match self.inner[row].normalize(var) {
            Ok(solved) => solved,
            Err(e) => {
                return Err(e);
            },
        };
        let ghost before = self@;
        let ghost target = before.pivoted(row as int, var@);
        let mut rows: Vec<Constraint> = Vec::new();
        let mut j: usize = 0;
        while j < self.inner.len()
            invariant
                j <= self.inner.len(),
                rows.len() == j,
                self.wf(),
                self@ == before,
                *self == *old(self),
                row < self.inner.len(),
                solved.wf(),
                solved@ == before.rows[row as int].normalized(var@),
                before.rows[row as int].normalize_outcome(var@) == Ok::<Row, SimplexError>(solved@),
                target == before.pivoted(row as int, var@),
                forall|k: int|
                    0 <= k < j ==> (#[trigger] rows@[k]).wf() && rows@[k]@ == target.rows[k],
                forall|k: int|
                    0 <= k < j && k != row ==> (#[trigger] before.rows[k]).right.substitute_fits(
                        var@,
                        solved@.right,
                    ),
            decreases self.inner.len() - j,
        {
            if j == row {
                rows.push(solved.clone());
            } else {
                match self.inner[j].right.replace(var, &solved.right) {
                    Ok(right) => {
                        rows.push(
                            Constraint {
                                left: self.inner[j].left.clone(),
                                operator: self.inner[j].operator,
                                right,
                            },
                        );
                    },
                    Err(e) => {
                        assert(!before.rows[j as int].right.substitute_fits(var@, solved@.right));
                        return Err(e);
                    },
                }
            }
            j += 1;
        }
        self.inner = rows;
        proof {
            assert(self@.rows =~= target.rows);
            lemma_pivot_dictionary(before, row as int, var@);
        }
        Ok(())
    }

    /// Appends to the list the variables of the rows that the list does not
    /// hold yet: with `skip_gap`, only those that are no gap variables; with
    /// `right_only`, only those of the right sides.
    pub(crate) fn collect_variables(&self, list: &mut Vec<String>, skip_gap: bool, right_only: bool)
        requires
            self.wf(),
            names_of(old(list)@).no_duplicates(),
        ensures
            names_of(final(list)@).no_duplicates(),
            forall|n: Seq<char>| #[trigger]
                names_of(final(list)@).contains(n) <==> (names_of(old(list)@).contains(n) || (
                self@.mentions_before(self@.rows.len() as int, n, right_only) && !(skip_gap
                    && is_gap_name(n)))),
    {
        let ghost start = names_of(list@);
        let mut i: usize = 0;
        while i < self.inner.len()
            invariant
                i <= self.inner.len(),
                self.wf(),
                names_of(list@).no_duplicates(),
                forall|n: Seq<char>| #[trigger]
                    names_of(list@).contains(n) <==> (start.contains(n) || (self@.mentions_before(
                        i as int,
                        n,
                        right_only,
                    ) && !(skip_gap && is_gap_name(n)))),
            decreases self.inner.len() - i,
        {
            let ghost before = names_of(list@);
            if !right_only {
                self.inner[i].left.collect_variables(list, skip_gap);
            }
            let ghost middle = names_of(list@);
            self.inner[i].right.collect_variables(list, skip_gap);
            proof {
                let t = self@;
                assert forall|n: Seq<char>| #[trigger]
                    names_of(list@).contains(n) <==> (start.contains(n) || (t.mentions_before(
                        i + 1,
                        n,
                        right_only,
                    ) && !(skip_gap && is_gap_name(n)))) by {
                    assert(before.contains(n) <==> (start.contains(n) || (t.mentions_before(
                        i as int,
                        n,
                        right_only,
                    ) && !(skip_gap && is_gap_name(n)))));
                    assert(names_of(list@).contains(n) <==> (middle.contains(n) || (
                    t.rows[i as int].right.mentions(n) && !(skip_gap && is_gap_name(n)))));
                    if !right_only {
                        assert(middle.contains(n) <==> (before.contains(n) || (
                        t.rows[i as int].left.mentions(n) && !(skip_gap && is_gap_name(n)))));
                    }
                    if t.mentions_before(i + 1, n, right_only) {
                        let k = choose|k: int|
                            0 <= k < i + 1 && #[trigger] t.row_mentions(k, n, right_only);
                        if k < i {
                            assert(t.mentions_before(i as int, n, right_only));
                        }
                    }
                    if t.mentions_before(i as int, n, right_only) {
                        let k = choose|k: int| 0 <= k < i && #[trigger] t.row_mentions(k, n, right_only);
                        assert(0 <= k < i + 1 && t.row_mentions(k, n, right_only));
                    }
                    if t.row_mentions(i as int, n, right_only) {
                        assert(t.mentions_before(i + 1, n, right_only));
                    }
                }
            }
            i += 1;
        }
    }

    /// The variables that the rows mention and that are no gap variables,
    /// in alphabetical order.
    pub fn non_gap_variables(&self) -> (r: Vec<String>)
        requires
            self.wf(),
        ensures
            sorted_list_of(names_of(r@), self@.structural()),
            names_of(r@) == sorted_names(self@.structural()),
    {
        let mut list: Vec<String> = Vec::new();
        assert(names_of(list@) =~= Seq::empty());
        self.collect_variables(&mut list, true, false);
        let r = sort_names(list);
        assert(sorted_list_of(names_of(r@), self@.structural()));
        r
    }

    /// The value of a variable at the current vertex: the constant of the
    /// row that defines it, and zero where no row does.
    pub fn value_of(&self, name: &str) -> (r: Rational)
        requires
            self.wf(),
        ensures
            r.wf(),
            r@ == self@.value_of(name@),
    {
        let key = String::from_str(name);
        let mut i: usize = 0;
        while i < self.inner.len()
            invariant
                i <= self.inner.len(),
                self.wf(),
                key@ == name@,
                forall|k: int| 0 <= k < i ==> !#[trigger] self@.defines(k, name@),
            decreases self.inner.len() - i,
        {
            let ghost row = self@.rows[i as int];
            assert(row.is_defining());
            match self.inner[i].left.name_single_variable() {
                None => {
                    // Every row of a dictionary defines a variable.
                    assert(false);
                },
                Some(basic) => {
                    proof {
                        lemma_is_variable_unique(row.left, basic@, row.basic());
                    }
                    if basic == key {
                        proof {
                            let t = self@;
                            assert(t.defines(i as int, name@));
                            let c = choose|c: int| 0 <= c < t.rows.len() && #[trigger] t.defines(c, name@);
                            if c < i {
                                assert(t.rows[c].basic() != t.rows[i as int].basic());
                            }
                            if i < c {
                                assert(t.rows[i as int].basic() != t.rows[c].basic());
                            }
                        }
                        return self.inner[i].right.constant();
                    }
                },
            }
            i += 1;
        }
        Rational::zero()
    }
}

} // verus!