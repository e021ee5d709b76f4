//! What a tableau says: the values of the variables that satisfy its rows.
//!
//! An assignment gives every variable a real value. The value of an
//! expression is taken over a list of variables, which is meant to hold
//! every variable of the problem once. A pivot changes the rows, not what
//! they say: the same assignments satisfy the rows before and after it, and
//! on those the objective has the same value.

use crate::constraint::{Row, Tableau};
use crate::dictionary::{lemma_most_restrictive_exists, lemma_solved_constant};
use crate::error::SimplexError;
use crate::laws::lemma_objective_at_vertex;
use crate::linear::{
    lemma_coeff_wf, lemma_linear_minus, lemma_linear_neg, lemma_linear_plus, lemma_linear_scale,
    lemma_linear_solve_for, lemma_linear_without, lemma_variable, lemma_zero_canonical,
    lemma_zero_wf, Linear,
};
use crate::program::Program;
use crate::rational::{
    lemma_neg, lemma_order, lemma_plus, lemma_recip, lemma_times, lemma_zero_one_values, Ratio,
};
use vstd::prelude::*;

verus! {

/// The sum of the terms of an expression for the variables of the list:
/// each coefficient times the value of its variable.
pub open spec fn terms_value(
    e: Linear,
    at: spec_fn(Seq<char>) -> real,
    names: Seq<Seq<char>>,
) -> real
    decreases names.len(),
{
    if names.len() == 0 {
        0 as real
    } else {
        terms_value(e, at, names.drop_last()) + e.coeff(names.last()).value() * at(names.last())
    }
}

impl Linear {
    /// The value of the expression where each variable has the value that
    /// the assignment gives it.
    pub open spec fn value_at(self, at: spec_fn(Seq<char>) -> real, names: Seq<Seq<char>>) -> real {
        terms_value(self, at, names) + self.constant.value()
    }
}

impl Row {
    /// The assignment satisfies the row: both sides have the same value.
    pub open spec fn holds_at(self, at: spec_fn(Seq<char>) -> real, names: Seq<Seq<char>>) -> bool {
        self.left.value_at(at, names) == self.right.value_at(at, names)
    }
}

impl Tableau {
    /// The assignment satisfies every row.
    pub open spec fn holds_at(self, at: spec_fn(Seq<char>) -> real, names: Seq<Seq<char>>) -> bool {
        forall|i: int| 0 <= i < self.rows.len() ==> (#[trigger] self.rows[i]).holds_at(at, names)
    }

    /// The assignment of the current vertex: each variable that a row
    /// defines has the constant of that row, every other variable is zero.
    pub open spec fn vertex(self) -> spec_fn(Seq<char>) -> real {
        |n: Seq<char>| self.value_of(n).value()
    }
}

/// The term that a variable of the list adds to the value of an expression.
pub open spec fn term_value(
    e: Linear,
    at: spec_fn(Seq<char>) -> real,
    names: Seq<Seq<char>>,
    name: Seq<char>,
) -> real {
    if names.contains(name) {
        e.coeff(name).value() * at(name)
    } else {
        0 as real
    }
}

proof fn lemma_contains_last(names: Seq<Seq<char>>, name: Seq<char>)
    requires
        names.len() > 0,
        names.no_duplicates(),
    ensures
        names.drop_last().no_duplicates(),
        names.contains(name) <==> (names.last() == name || names.drop_last().contains(name)),
        !names.drop_last().contains(names.last()),
{
    let front = names.drop_last();
    if names.contains(name) {
        let i = choose|i: int| 0 <= i < names.len() && names[i] == name;
        if i < names.len() - 1 {
            assert(front[i] == name);
        }
    }
    if front.contains(name) {
        let i = choose|i: int| 0 <= i < front.len() && front[i] == name;
        assert(names[i] == name);
    }
    if front.contains(names.last()) {
        let i = choose|i: int| 0 <= i < front.len() && front[i] == names.last();
        assert(names[i] == names[names.len() - 1]);
    }
    assert(names[names.len() - 1] == names.last());
}

/// The value of a sum is the sum of the values.
pub proof fn lemma_value_plus(
    a: Linear,
    b: Linear,
    at: spec_fn(Seq<char>) -> real,
    names: Seq<Seq<char>>,
)
    requires
        a.wf(),
        b.wf(),
    ensures
        a.plus(b).value_at(at, names) == a.value_at(at, names) + b.value_at(at, names),
    decreases names.len(),
{
    lemma_linear_plus(a, b);
    lemma_plus(a.constant, b.constant);
    if names.len() > 0 {
        lemma_value_plus(a, b, at, names.drop_last());
        let n = names.last();
        lemma_coeff_wf(a, n);
        lemma_coeff_wf(b, n);
        lemma_plus(a.coeff(n), b.coeff(n));
        let x = a.coeff(n).value();
        let y = b.coeff(n).value();
        let s = at(n);
        assert((x + y) * s == x * s + y * s) by (nonlinear_arith);
    }
}

/// The value of an expression with every sign changed is the opposite value.
pub proof fn lemma_value_neg(e: Linear, at: spec_fn(Seq<char>) -> real, names: Seq<Seq<char>>)
    requires
        e.wf(),
    ensures
        e.neg().value_at(at, names) == -e.value_at(at, names),
    decreases names.len(),
{
    lemma_linear_neg(e);
    lemma_neg(e.constant);
    if names.len() > 0 {
        lemma_value_neg(e, at, names.drop_last());
        let n = names.last();
        lemma_coeff_wf(e, n);
        lemma_neg(e.coeff(n));
        let x = e.coeff(n).value();
        let s = at(n);
        assert((-x) * s == -(x * s)) by (nonlinear_arith);
    }
}

/// The value of a difference is the difference of the values.
pub proof fn lemma_value_minus(
    a: Linear,
    b: Linear,
    at: spec_fn(Seq<char>) -> real,
    names: Seq<Seq<char>>,
)
    requires
        a.wf(),
        b.wf(),
    ensures
        a.minus(b).value_at(at, names) == a.value_at(at, names) - b.value_at(at, names),
{
    lemma_linear_neg(b);
    lemma_value_neg(b, at, names);
    lemma_value_plus(a, b.neg(), at, names);
}

/// The value of a scaled expression is the value times the factor.
pub proof fn lemma_value_scale(
    e: Linear,
    k: Ratio,
    at: spec_fn(Seq<char>) -> real,
    names: Seq<Seq<char>>,
)
    requires
        e.wf(),
        k.wf(),
    ensures
        e.scale(k).value_at(at, names) == e.value_at(at, names) * k.value(),
    decreases names.len(),
{
    lemma_linear_scale(e, k);
    lemma_times(e.constant, k);
    let kv = k.value();
    let cv = e.constant.value();
    if names.len() > 0 {
        lemma_value_scale(e, k, at, names.drop_last());
        let n = names.last();
        lemma_coeff_wf(e, n);
        lemma_times(e.coeff(n), k);
        let x = e.coeff(n).value();
        let s = at(n);
        let front = terms_value(e, at, names.drop_last());
        assert((front + cv) * kv + (x * kv) * s - cv * kv == (front + x * s + cv) * kv - cv * kv)
            by (nonlinear_arith);
        assert(terms_value(e.scale(k), at, names.drop_last()) == (front + cv) * kv - cv * kv);
    } else {
        assert((0 as real + cv) * kv == 0 as real + cv * kv) by (nonlinear_arith);
    }
}

/// Taking a term out of an expression takes the term's value out of the
/// expression's value.
pub proof fn lemma_value_without(
    e: Linear,
    name: Seq<char>,
    at: spec_fn(Seq<char>) -> real,
    names: Seq<Seq<char>>,
)
    requires
        e.wf(),
        names.no_duplicates(),
    ensures
        e.without(name).value_at(at, names) == e.value_at(at, names) - term_value(
            e,
            at,
            names,
            name,
        ),
    decreases names.len(),
{
    lemma_linear_without(e, name);
    lemma_zero_one_values();
    if names.len() > 0 {
        lemma_contains_last(names, name);
        lemma_value_without(e, name, at, names.drop_last());
        let n = names.last();
        let s = at(n);
        if n == name {
            assert(e.without(name).coeff(n) == Ratio::zero());
            assert(Ratio::zero().value() * s == 0 as real) by (nonlinear_arith)
                requires
                    Ratio::zero().value() == 0 as real,
            ;
        }
    }
}

/// The value of the expression `1 * name` is the value of the variable.
pub proof fn lemma_value_variable(
    name: Seq<char>,
    at: spec_fn(Seq<char>) -> real,
    names: Seq<Seq<char>>,
)
    requires
        names.no_duplicates(),
    ensures
        Linear::variable(name).value_at(at, names) == if names.contains(name) {
            at(name)
        } else {
            0 as real
        },
    decreases names.len(),
{
    let e = Linear::variable(name);
    lemma_zero_one_values();
    if names.len() > 0 {
        lemma_contains_last(names, name);
        lemma_value_variable(name, at, names.drop_last());
        let n = names.last();
        let s = at(n);
        assert(0 as real * s == 0 as real && 1 as real * s == s) by (nonlinear_arith);
    }
}

/// Putting a replacement in the place of a variable changes the value by
/// the variable's coefficient times the difference between the values of
/// the replacement and of the variable.
pub proof fn lemma_value_substitute(
    e: Linear,
    name: Seq<char>,
    replacement: Linear,
    at: spec_fn(Seq<char>) -> real,
    names: Seq<Seq<char>>,
)
    requires
        e.wf(),
        replacement.wf(),
        names.no_duplicates(),
        names.contains(name),
    ensures
        e.substitute(name, replacement).value_at(at, names) == e.value_at(at, names) + e.coeff(
            name,
        ).value() * (replacement.value_at(at, names) - at(name)),
{
    let k = e.coeff(name);
    lemma_coeff_wf(e, name);
    lemma_linear_without(e, name);
    lemma_linear_scale(replacement, k);
    lemma_value_without(e, name, at, names);
    lemma_value_scale(replacement, k, at, names);
    lemma_value_plus(e.without(name), replacement.scale(k), at, names);
    let kv = k.value();
    let rv = replacement.value_at(at, names);
    let s = at(name);
    assert(rv * kv - kv * s == kv * (rv - s)) by (nonlinear_arith);
}

/// The row solved for a variable says what the row says: the variable has
/// the value of the solved right side exactly where the two sides of the
/// row have the same value.
pub proof fn lemma_normalized_row(
    row: Row,
    name: Seq<char>,
    at: spec_fn(Seq<char>) -> real,
    names: Seq<Seq<char>>,
)
    requires
        row.wf(),
        row.net().mentions(name),
        names.no_duplicates(),
        names.contains(name),
    ensures
        row.normalized(name).wf(),
        row.normalized(name).left.value_at(at, names) == at(name),
        row.normalized(name).holds_at(at, names) <==> row.holds_at(at, names),
{
    let net = row.net();
    lemma_linear_minus(row.left, row.right);
    lemma_value_minus(row.left, row.right, at, names);
    lemma_linear_solve_for(net, name);
    lemma_variable(name);
    lemma_value_variable(name, at, names);
    let c = net.coeff(name);
    lemma_coeff_wf(net, name);
    lemma_neg(c);
    lemma_recip(c.neg());
    let k = c.neg().recip();
    lemma_linear_without(net, name);
    lemma_value_without(net, name, at, names);
    lemma_value_scale(net.without(name), k, at, names);
    lemma_order(c, c);
    let cv = c.value();
    let kv = k.value();
    let nv = net.value_at(at, names);
    let s = at(name);
    let solved = net.solve_for(name).value_at(at, names);
    assert(solved == (nv - cv * s) * kv);
    assert((solved == s) <==> (nv == 0 as real)) by (nonlinear_arith)
        requires
            solved == (nv - cv * s) * kv,
            kv * (-cv) == 1 as real,
            cv != 0 as real,
    ;
}

/// A pivot changes the rows, not what they say: an assignment satisfies
/// the rows after the pivot exactly where it satisfies the rows before it.
pub proof fn lemma_pivot_keeps_solutions(
    t: Tableau,
    r: int,
    name: Seq<char>,
    at: spec_fn(Seq<char>) -> real,
    names: Seq<Seq<char>>,
)
    requires
        t.wf(),
        0 <= r < t.rows.len(),
        t.rows[r].net().mentions(name),
        names.no_duplicates(),
        names.contains(name),
    ensures
        t.pivoted(r, name).holds_at(at, names) <==> t.holds_at(at, names),
{
    let p = t.pivoted(r, name);
    let solved = t.rows[r].normalized(name);
    assert(t.rows[r].wf());
    lemma_normalized_row(t.rows[r], name, at, names);
    assert(p.rows[r] == solved);
    assert forall|j: int| 0 <= j < t.rows.len() && j != r && solved.holds_at(at, names) implies (
    p.rows[j].holds_at(at, names) <==> t.rows[j].holds_at(at, names)) by {
        assert(t.rows[j].wf());
        lemma_value_substitute(t.rows[j].right, name, solved.right, at, names);
        let kv = t.rows[j].right.coeff(name).value();
        let d = solved.right.value_at(at, names) - at(name);
        assert(kv * d == 0 as real) by (nonlinear_arith)
            requires
                d == 0 as real,
        ;
    }
    if t.holds_at(at, names) {
        assert(t.rows[r].holds_at(at, names));
        assert forall|j: int| 0 <= j < p.rows.len() implies (#[trigger] p.rows[j]).holds_at(at, names) by {
            if j != r {
                assert(t.rows[j].holds_at(at, names));
            }
        }
    }
    if p.holds_at(at, names) {
        assert(p.rows[r].holds_at(at, names));
        assert forall|j: int| 0 <= j < t.rows.len() implies (#[trigger] t.rows[j]).holds_at(at, names) by {
            if j != r {
                assert(p.rows[j].holds_at(at, names));
            }
        }
    }
}

/// A pivot of a program keeps the assignments that satisfy its rows, and
/// on each of them the value of the objective.
pub proof fn lemma_pivot_keeps_meaning(
    p: Program,
    name: Seq<char>,
    q: Program,
    at: spec_fn(Seq<char>) -> real,
    names: Seq<Seq<char>>,
)
    requires
        p.wf(),
        p.pivot_outcome(name) == Ok::<Program, SimplexError>(q),
        names.no_duplicates(),
        names.contains(name),
    ensures
        q.tableau.holds_at(at, names) <==> p.tableau.holds_at(at, names),
        p.tableau.holds_at(at, names) ==> q.objective.value_at(at, names) == p.objective.value_at(
            at,
            names,
        ),
{
    let t = p.tableau;
    let r = p.leaving_row(name);
    assert(0 <= r < t.rows.len() && t.rows[r].net().mentions(name) && q.tableau == t.pivoted(
        r,
        name,
    )) by {
        lemma_most_restrictive_exists(t, name);
        assert(t.is_most_restrictive(r, name));
        lemma_solved_constant(t, r, name);
    }
    let solved = t.rows[r].normalized(name);
    assert(q.tableau.rows[r] == solved);
    lemma_pivot_keeps_solutions(t, r, name, at, names);
    assert(t.rows[r].wf());
    lemma_normalized_row(t.rows[r], name, at, names);
    if t.holds_at(at, names) {
        assert(t.rows[r].holds_at(at, names));
        lemma_value_substitute(p.objective, name, solved.right, at, names);
        let kv = p.objective.coeff(name).value();
        let d = solved.right.value_at(at, names) - at(name);
        assert(kv * d == 0 as real) by (nonlinear_arith)
            requires
                d == 0 as real,
        ;
    }
}

/// Where no variable that the expression mentions has a value but zero,
/// the value of the expression is its constant.
pub proof fn lemma_value_at_zero(e: Linear, at: spec_fn(Seq<char>) -> real, names: Seq<Seq<char>>)
    requires
        e.wf(),
        forall|n: Seq<char>| e.mentions(n) ==> #[trigger] at(n) == 0 as real,
    ensures
        e.value_at(at, names) == e.constant.value(),
    decreases names.len(),
{
    lemma_zero_one_values();
    if names.len() > 0 {
        lemma_value_at_zero(e, at, names.drop_last());
        let n = names.last();
        let x = e.coeff(n).value();
        let s = at(n);
        lemma_coeff_wf(e, n);
        if e.mentions(n) {
            assert(x * s == 0 as real) by (nonlinear_arith)
                requires
                    s == 0 as real,
            ;
        } else {
            assert(x * s == 0 as real) by (nonlinear_arith)
                requires
                    x == 0 as real,
            ;
        }
    }
}

/// The vertex of a dictionary satisfies its rows, over a list that holds
/// every variable that a row defines.
pub proof fn lemma_vertex_satisfies(t: Tableau, names: Seq<Seq<char>>)
    requires
        t.wf(),
        t.is_dictionary(),
        names.no_duplicates(),
        forall|i: int| 0 <= i < t.rows.len() ==> names.contains((#[trigger] t.rows[i]).basic()),
    ensures
        t.holds_at(t.vertex(), names),
{
    let at = t.vertex();
    lemma_zero_one_values();
    assert forall|i: int| 0 <= i < t.rows.len() implies (#[trigger] t.rows[i]).holds_at(at, names) by {
        let row = t.rows[i];
        let b = row.basic();
        assert(row.is_defining());
        assert(row.wf());
        lemma_zero_wf();
        lemma_left_is_variable(row.left, b);
        lemma_value_variable(b, at, names);
        lemma_basic_value(t, i);
        assert forall|n: Seq<char>| row.right.mentions(n) implies #[trigger] at(n) == 0 as real by {
            if exists|k: int| 0 <= k < t.rows.len() && #[trigger] t.defines(k, n) {
                let k = choose|k: int| 0 <= k < t.rows.len() && #[trigger] t.defines(k, n);
                assert(!t.rows[i].right.mentions(t.rows[k].basic()));
            }
        }
        lemma_value_at_zero(row.right, at, names);
    }
}

/// A well-formed expression that is one variable is the expression `1 * name`.
proof fn lemma_left_is_variable(e: Linear, name: Seq<char>)
    requires
        e.wf(),
        e.is_variable(name),
    ensures
        e == Linear::variable(name),
{
    lemma_zero_canonical(e.constant);
    assert(e.terms =~= Linear::variable(name).terms) by {
        assert forall|n: Seq<char>| e.terms.dom().contains(n) <==> Linear::variable(
            name,
        ).terms.dom().contains(n) by {
            if n != name {
                assert(!e.terms.dom().contains(n));
            }
        }
    }
}

/// The value at the vertex of the variable that a row of a dictionary
/// defines is the constant of the row.
proof fn lemma_basic_value(t: Tableau, i: int)
    requires
        t.is_dictionary(),
        0 <= i < t.rows.len(),
    ensures
        t.value_of(t.rows[i].basic()) == t.rows[i].right.constant,
{
    let b = t.rows[i].basic();
    assert(t.defines(i, b));
    let c = choose|c: int| 0 <= c < t.rows.len() && #[trigger] t.defines(c, b);
    if c < i {
        assert(t.rows[c].basic() != t.rows[i].basic());
    }
    if i < c {
        assert(t.rows[i].basic() != t.rows[c].basic());
    }
}

/// Where the objective mentions no variable that a row defines, its value
/// at the vertex is its constant.
pub proof fn lemma_objective_value_at_vertex(p: Program, names: Seq<Seq<char>>)
    requires
        p.wf(),
        p.objective_is_nonbasic(),
    ensures
        p.objective.value_at(p.tableau.vertex(), names) == p.objective.constant.value(),
{
    let at = p.tableau.vertex();
    lemma_zero_one_values();
    assert forall|n: Seq<char>| p.objective.mentions(n) implies #[trigger] at(n) == 0 as real by {
        lemma_objective_at_vertex(p, n);
    }
    lemma_value_at_zero(p.objective, at, names);
}

} // verus!
