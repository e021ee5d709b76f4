//! Expressions, constraints and programs as text.
//!
//! A number is written as its numerator, and behind a stroke its
//! denominator where that is not one. An expression is written with its
//! variables in alphabetical order and its constant last; a coefficient of
//! one is not written.

use crate::constraint::{operator_text, Constraint, Constraints, Row, Tableau};
use crate::linear::Linear;
use crate::linear_function::LinearFunction;
use crate::names::{decimal, names_of, push_decimal, sorted_names};
use crate::program::{LinearProgram, Program};
use crate::rational::{magnitude, Ratio, Rational};
use vstd::prelude::*;

verus! {

/// A number without its sign: the numerator, and behind a stroke the
/// denominator where it is not one.
pub open spec fn size_text(r: Ratio) -> Seq<char> {
    if r.den == 1 {
        decimal(magnitude(r.num))
    } else {
        decimal(magnitude(r.num)) + seq!['/'] + decimal(r.den as nat)
    }
}

/// A term of an expression: how it is joined to what stands before it,
/// then its coefficient, unless that is one before a variable, then its
/// variable. The constant is written as a term without a variable.
pub open spec fn term_text(first: bool, c: Ratio, name: Seq<char>) -> Seq<char> {
    let join = if first {
        if c.is_negative() {
            seq!['-']
        } else {
            Seq::empty()
        }
    } else if c.is_negative() {
        seq![' ', '-', ' ']
    } else {
        seq![' ', '+', ' ']
    };
    let size = if name.len() > 0 && magnitude(c.num) == 1 && c.den == 1 {
        Seq::empty()
    } else {
        size_text(c)
    };
    join + size + name
}

/// The first `count` terms of an expression, for its variables in the
/// given order.
pub open spec fn terms_text(e: Linear, names: Seq<Seq<char>>, count: int) -> Seq<char>
    decreases count,
{
    if count <= 0 {
        Seq::empty()
    } else {
        terms_text(e, names, count - 1) + term_text(
            count == 1,
            e.coeff(names[count - 1]),
            names[count - 1],
        )
    }
}

impl Linear {
    /// The expression as text.
    pub open spec fn text(self) -> Seq<char> {
        let names = sorted_names(self.terms.dom());
        if names.len() == 0 {
            term_text(true, self.constant, Seq::empty())
        } else if self.constant.is_zero() {
            terms_text(self, names, names.len() as int)
        } else {
            terms_text(self, names, names.len() as int) + term_text(
                false,
                self.constant,
                Seq::empty(),
            )
        }
    }
}

impl Row {
    /// The row as text: its two sides with the relation between them.
    pub open spec fn text(self) -> Seq<char> {
        self.left.text() + seq![' '] + operator_text(self.operator) + seq![' '] + self.right.text()
    }
}

impl Tableau {
    /// The first `count` rows as text, each on a line of its own.
    pub open spec fn lines(self, count: int) -> Seq<char>
        decreases count,
    {
        if count <= 0 {
            Seq::empty()
        } else {
            self.lines(count - 1) + self.rows[count - 1].text() + seq!['\n']
        }
    }

    /// The tableau as text.
    pub open spec fn text(self) -> Seq<char> {
        self.lines(self.rows.len() as int)
    }
}

impl Program {
    /// The program as text: `max`, the objective, and the rows below.
    pub open spec fn text(self) -> Seq<char> {
        seq!['m', 'a', 'x', ' '] + self.objective.text() + seq!['\n'] + self.tableau.text()
    }
}

/// Appends a number without its sign.
fn push_size(text: &mut String, r: &Rational)
    requires
        r.wf(),
    ensures
        final(text)@ == old(text)@ + size_text(r@),
{
    let n = r.numerator();
    let d = r.denominator();
    let size: u64 = if n < 0 {
        (-n) as u64
    } else {
        n as u64
    };
    let ghost start = text@;
    push_decimal(text, size);
    if d != 1 {
        text.push('/');
        push_decimal(text, d as u64);
        proof {
            assert(text@ =~= start + size_text(r@));
        }
    }
}

/// Appends a term.
fn push_term(text: &mut String, first: bool, c: &Rational, name: &str)
    requires
        c.wf(),
    ensures
        final(text)@ == old(text)@ + term_text(first, c@, name@),
{
    let ghost start = text@;
    if first {
        if c.is_negative() {
            text.push('-');
        }
    } else {
        text.push(' ');
        if c.is_negative() {
            text.push('-');
        } else {
            text.push('+');
        }
        text.push(' ');
    }
    let n = c.numerator();
    if !(name.unicode_len() > 0 && (n == 1 || n == -1) && c.denominator() == 1) {
        push_size(text, c);
    }
    text.append(name);
    proof {
        assert(text@ =~= start + term_text(first, c@, name@));
    }
}

impl LinearFunction {
    /// Appends the expression as text.
    pub(crate) fn push_to(&self, text: &mut String)
        requires
            self.wf(),
        ensures
            final(text)@ == old(text)@ + self@.text(),
    {
        let ghost start = text@;
        let names = self.variables();
        let ghost list = names_of(names@);
        let mut i: usize = 0;
        while i < names.len()
            invariant
                i <= names.len(),
                self.wf(),
                list == names_of(names@),
                text@ == start + terms_text(self@, list, i as int),
            decreases names.len() - i,
        {
            assert(list[i as int] == names@[i as int]@);
            let c = self.coefficient(names[i].as_str());
            push_term(text, i == 0, &c, names[i].as_str());
            proof {
                assert(text@ =~= start + terms_text(self@, list, i + 1));
            }
            i += 1;
        }
        let constant = self.constant();
        if names.len() == 0 {
            push_term(text, true, &constant, "");
            proof {
                reveal_strlit("");
                assert(""@ =~= Seq::<char>::empty());
                assert(text@ =~= start + self@.text());
            }
        } else if !constant.is_zero() {
            push_term(text, false, &constant, "");
            proof {
                reveal_strlit("");
                assert(""@ =~= Seq::<char>::empty());
                assert(text@ =~= start + self@.text());
            }
        }
    }

    /// The expression as text: its variables in alphabetical order, its
    /// constant last.
    pub fn to_string(&self) -> (r: String)
        requires
            self.wf(),
        ensures
            r@ == self@.text(),
    {
        let mut text = String::new();
        self.push_to(&mut text);
        proof {
            assert(text@ =~= self@.text());
        }
        text
    }
}

impl Constraint {
    /// Appends the row as text.
    pub(crate) fn push_to(&self, text: &mut String)
        requires
            self.wf(),
        ensures
            final(text)@ == old(text)@ + self@.text(),
    {
        let ghost start = text@;
        self.left.push_to(text);
        text.push(' ');
        text.append(self.operator.symbol());
        text.push(' ');
        self.right.push_to(text);
        proof {
            assert(text@ =~= start + self@.text());
        }
    }

    /// The row as text: its two sides with the relation between them.
    pub fn to_string(&self) -> (r: String)
        requires
            self.wf(),
        ensures
            r@ == self@.text(),
    {
        let mut text = String::new();
        self.push_to(&mut text);
        proof {
            assert(text@ =~= self@.text());
        }
        text
    }
}

impl Constraints {
    /// Appends the rows as text, each on a line of its own.
    pub(crate) fn push_to(&self, text: &mut String)
        requires
            self.wf(),
        ensures
            final(text)@ == old(text)@ + self@.text(),
    {
        let ghost start = text@;
        let mut i: usize = 0;
        while i < self.len()
            invariant
                i <= self@.rows.len(),
                self.wf(),
                text@ == start + self@.lines(i as int),
            decreases self@.rows.len() - i,
        {
            self.row(i).push_to(text);
            text.push('\n');
            proof {
                assert(text@ =~= start + self@.lines(i + 1));
            }
            i += 1;
        }
    }

    /// The rows as text, each on a line of its own.
    pub fn to_string(&self) -> (r: String)
        requires
            self.wf(),
        ensures
            r@ == self@.text(),
    {
        let mut text = String::new();
        self.push_to(&mut text);
        proof {
            assert(text@ =~= self@.text());
        }
        text
    }
}

impl LinearProgram {
    /// The program as text: `max` and the objective on the first line, the
    /// rows below.
    pub fn to_string(&self) -> (r: String)
        requires
            self.wf(),
        ensures
            r@ == self@.text(),
    {
        let mut text = String::new();
        text.push('m');
        text.push('a');
        text.push('x');
        text.push(' ');
        self.linear_function.push_to(&mut text);
        text.push('\n');
        self.constraints.push_to(&mut text);
        proof {
            assert(text@ =~= self@.text());
        }
        text
    }
}

} // verus!
