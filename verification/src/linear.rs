//! The mathematical model of a linear expression: variables, each with an
//! exact coefficient that is not zero, and a constant term.

use crate::names::{is_gap_name, name_le};
use crate::rational::{
    gcd, lemma_neg, lemma_plus, lemma_recip, lemma_reduced, lemma_reduced_idempotent, lemma_times,
    lemma_times_zero, Ratio,
};
use vstd::prelude::*;

verus! {

/// A linear expression `c1 * v1 + ... + ck * vk + constant`. A variable is
/// in the domain of `terms` exactly where its coefficient is not zero.
pub struct Linear {
    pub terms: Map<Seq<char>, Ratio>,
    pub constant: Ratio,
}

impl Linear {
    /// The coefficient of a variable; zero where it does not occur.
    pub open spec fn coeff(self, name: Seq<char>) -> Ratio {
        if self.terms.dom().contains(name) {
            self.terms[name]
        } else {
            Ratio::zero()
        }
    }

    /// The variable occurs in the expression.
    pub open spec fn mentions(self, name: Seq<char>) -> bool {
        self.terms.dom().contains(name)
    }

    /// The variables of the expression that are no gap variables.
    pub open spec fn structural(self) -> Set<Seq<char>> {
        Set::new(|n: Seq<char>| self.terms.dom().contains(n) && !is_gap_name(n))
    }

    /// Every number is in lowest terms and no stored coefficient is zero.
    pub open spec fn wf(self) -> bool {
        &&& self.constant.wf()
        &&& forall|n: Seq<char>| #[trigger]
            self.terms.dom().contains(n) ==> self.terms[n].wf() && !self.terms[n].is_zero()
    }

    /// Every number can be held in a `Rational`.
    pub open spec fn fits(self) -> bool {
        &&& self.constant.fits()
        &&& forall|n: Seq<char>| #[trigger]
            self.terms.dom().contains(n) ==> self.terms[n].fits()
    }

    /// The expression with the given coefficient for each variable.
    pub open spec fn from_fn(f: spec_fn(Seq<char>) -> Ratio, constant: Ratio) -> Linear {
        Linear {
            terms: Map::new(|n: Seq<char>| !f(n).is_zero(), |n: Seq<char>| f(n)),
            constant,
        }
    }

    /// The expression that is zero.
    pub open spec fn zero() -> Linear {
        Linear { terms: Map::empty(), constant: Ratio::zero() }
    }

    /// The expression that is a constant.
    pub open spec fn constant_of(c: Ratio) -> Linear {
        Linear { terms: Map::empty(), constant: c }
    }

    /// The expression `1 * name`.
    pub open spec fn variable(name: Seq<char>) -> Linear {
        Linear { terms: Map::empty().insert(name, Ratio::one()), constant: Ratio::zero() }
    }

    /// The expression with every sign changed.
    pub open spec fn neg(self) -> Linear {
        Linear::from_fn(|n: Seq<char>| self.coeff(n).neg(), self.constant.neg())
    }

    /// The sum: for each variable the sum of its two coefficients.
    pub open spec fn plus(self, other: Linear) -> Linear {
        Linear::from_fn(
            |n: Seq<char>| self.coeff(n).plus(other.coeff(n)),
            self.constant.plus(other.constant),
        )
    }

    /// The difference: `self` plus the negated `other`.
    pub open spec fn minus(self, other: Linear) -> Linear {
        self.plus(other.neg())
    }

    /// Every coefficient and the constant multiplied by `k`.
    pub open spec fn scale(self, k: Ratio) -> Linear {
        Linear::from_fn(|n: Seq<char>| self.coeff(n).times(k), self.constant.times(k))
    }

    /// The expression without the term of the given variable.
    pub open spec fn without(self, name: Seq<char>) -> Linear {
        Linear { terms: self.terms.remove(name), constant: self.constant }
    }

    /// The expression with `replacement` put in the place of the variable.
    pub open spec fn substitute(self, name: Seq<char>, replacement: Linear) -> Linear {
        self.without(name).plus(replacement.scale(self.coeff(name)))
    }

    /// The expression `e` for which `name = e` says what `self = 0` says;
    /// for a variable whose coefficient is not zero.
    pub open spec fn solve_for(self, name: Seq<char>) -> Linear {
        self.without(name).scale(self.coeff(name).neg().recip())
    }

    /// Every number that `substitute` computes on the way, and every number
    /// of its result, can be held in a `Rational`.
    pub open spec fn substitute_fits(self, name: Seq<char>, replacement: Linear) -> bool {
        replacement.scale(self.coeff(name)).fits() && self.substitute(name, replacement).fits()
    }

    /// The variable has a positive coefficient, and no variable with a
    /// positive coefficient comes before it in alphabetical order.
    pub open spec fn is_entering(self, name: Seq<char>) -> bool {
        &&& self.coeff(name).is_positive()
        &&& forall|n: Seq<char>| self.coeff(n).is_positive() ==> name_le(name, n)
    }

    /// The expression is `1 * name`.
    pub open spec fn is_variable(self, name: Seq<char>) -> bool {
        &&& self.constant.is_zero()
        &&& self.coeff(name) == Ratio::one()
        &&& forall|n: Seq<char>| n != name ==> !(#[trigger] self.terms.dom().contains(n))
    }
}

/// Zero and one are in lowest terms and within the limits.
pub proof fn lemma_zero_wf()
    ensures
        Ratio::zero().wf(),
        Ratio::one().wf(),
        Ratio::zero().fits(),
        Ratio::one().fits(),
{
    reveal_with_fuel(gcd, 3);
}

/// A fraction in lowest terms whose numerator is zero is `0 / 1`.
pub proof fn lemma_zero_canonical(x: Ratio)
    requires
        x.wf(),
        x.is_zero(),
    ensures
        x == Ratio::zero(),
{
    lemma_reduced_idempotent(x);
    lemma_reduced(0, x.den);
}

/// The coefficients of a well-formed expression are in lowest terms.
pub proof fn lemma_coeff_wf(e: Linear, name: Seq<char>)
    requires
        e.wf(),
    ensures
        e.coeff(name).wf(),
        e.fits() ==> e.coeff(name).fits(),
        e.coeff(name).is_zero() <==> !e.mentions(name),
{
    lemma_zero_wf();
}

/// `from_fn` has the coefficients it was given.
pub proof fn lemma_from_fn(f: spec_fn(Seq<char>) -> Ratio, constant: Ratio)
    requires
        constant.wf(),
        forall|n: Seq<char>| (#[trigger] f(n)).wf(),
    ensures
        Linear::from_fn(f, constant).wf(),
        Linear::from_fn(f, constant).constant == constant,
        forall|n: Seq<char>| #[trigger] Linear::from_fn(f, constant).coeff(n) == f(n),
{
    let e = Linear::from_fn(f, constant);
    assert forall|n: Seq<char>| #[trigger] e.coeff(n) == f(n) by {
        if f(n).is_zero() {
            lemma_zero_canonical(f(n));
        }
    }
}

/// Two well-formed expressions with the same coefficients and the same
/// constant are the same expression.
pub proof fn lemma_linear_ext(a: Linear, b: Linear)
    requires
        a.wf(),
        b.wf(),
        a.constant == b.constant,
        forall|n: Seq<char>| a.coeff(n) == b.coeff(n),
    ensures
        a == b,
{
    assert forall|n: Seq<char>| a.terms.dom().contains(n) <==> b.terms.dom().contains(n) by {
        assert(a.coeff(n) == b.coeff(n));
    }
    assert forall|n: Seq<char>| a.terms.dom().contains(n) implies a.terms[n] == b.terms[n] by {
        assert(a.coeff(n) == b.coeff(n));
    }
    assert(a.terms =~= b.terms);
}

/// What holds of the expression `1 * name`.
pub proof fn lemma_variable(name: Seq<char>)
    ensures
        Linear::variable(name).wf(),
        Linear::variable(name).fits(),
        Linear::variable(name).is_variable(name),
        Linear::zero().wf(),
        Linear::zero().fits(),
{
    lemma_zero_wf();
}

/// An expression is one variable for at most one name.
pub proof fn lemma_is_variable_unique(e: Linear, a: Seq<char>, b: Seq<char>)
    requires
        e.is_variable(a),
        e.is_variable(b),
    ensures
        a == b,
{
    if a != b {
        assert(!e.terms.dom().contains(b));
    }
}

/// The coefficients of a negated expression; negating twice gives the
/// expression back.
pub proof fn lemma_linear_neg(e: Linear)
    requires
        e.wf(),
    ensures
        e.neg().wf(),
        e.neg().fits() == e.fits(),
        e.neg().constant == e.constant.neg(),
        forall|n: Seq<char>| #[trigger] e.neg().coeff(n) == e.coeff(n).neg(),
        e.neg().neg() == e,
{
    let f = |n: Seq<char>| e.coeff(n).neg();
    assert forall|n: Seq<char>| (#[trigger] f(n)).wf() by {
        lemma_coeff_wf(e, n);
        lemma_neg(e.coeff(n));
    }
    lemma_neg(e.constant);
    lemma_from_fn(f, e.constant.neg());
    let m = e.neg();
    assert forall|n: Seq<char>| m.terms.dom().contains(n) <==> e.terms.dom().contains(n) by {
        assert(m.coeff(n) == e.coeff(n).neg());
    }
    assert forall|n: Seq<char>| #[trigger] m.terms.dom().contains(n) implies (m.terms[n].fits()
        <==> e.terms[n].fits()) by {
        assert(m.coeff(n) == e.coeff(n).neg());
        lemma_neg(e.coeff(n));
    }
    assert(m.fits() == e.fits()) by {
        if e.fits() {
            assert forall|n: Seq<char>| #[trigger] m.terms.dom().contains(n) implies m.terms[n].fits() by {
                assert(e.terms.dom().contains(n));
            }
        }
        if m.fits() {
            assert forall|n: Seq<char>| #[trigger] e.terms.dom().contains(n) implies e.terms[n].fits() by {
                assert(m.terms.dom().contains(n));
            }
        }
    }
    let g = |n: Seq<char>| m.coeff(n).neg();
    assert forall|n: Seq<char>| (#[trigger] g(n)).wf() by {
        lemma_coeff_wf(m, n);
        lemma_neg(m.coeff(n));
    }
    lemma_neg(m.constant);
    lemma_from_fn(g, m.constant.neg());
    assert forall|n: Seq<char>| m.neg().coeff(n) == e.coeff(n) by {
        assert(m.neg().coeff(n) == m.coeff(n).neg());
        assert(m.coeff(n) == e.coeff(n).neg());
        lemma_coeff_wf(e, n);
        lemma_neg(e.coeff(n));
    }
    lemma_linear_ext(m.neg(), e);
}

/// The coefficients of a sum.
pub proof fn lemma_linear_plus(a: Linear, b: Linear)
    requires
        a.wf(),
        b.wf(),
    ensures
        a.plus(b).wf(),
        a.plus(b).constant == a.constant.plus(b.constant),
        forall|n: Seq<char>| #[trigger] a.plus(b).coeff(n) == a.coeff(n).plus(b.coeff(n)),
{
    let f = |n: Seq<char>| a.coeff(n).plus(b.coeff(n));
    assert forall|n: Seq<char>| (#[trigger] f(n)).wf() by {
        lemma_coeff_wf(a, n);
        lemma_coeff_wf(b, n);
        lemma_plus(a.coeff(n), b.coeff(n));
    }
    lemma_plus(a.constant, b.constant);
    lemma_from_fn(f, a.constant.plus(b.constant));
}

/// The coefficients of a scaled expression.
pub proof fn lemma_linear_scale(e: Linear, k: Ratio)
    requires
        e.wf(),
        k.wf(),
    ensures
        e.scale(k).wf(),
        e.scale(k).constant == e.constant.times(k),
        forall|n: Seq<char>| #[trigger] e.scale(k).coeff(n) == e.coeff(n).times(k),
{
    let f = |n: Seq<char>| e.coeff(n).times(k);
    assert forall|n: Seq<char>| (#[trigger] f(n)).wf() by {
        lemma_coeff_wf(e, n);
        lemma_times(e.coeff(n), k);
    }
    lemma_times(e.constant, k);
    lemma_from_fn(f, e.constant.times(k));
}

/// The coefficients of an expression without one of its terms.
pub proof fn lemma_linear_without(e: Linear, name: Seq<char>)
    requires
        e.wf(),
    ensures
        e.without(name).wf(),
        e.fits() ==> e.without(name).fits(),
        e.without(name).constant == e.constant,
        forall|n: Seq<char>| #[trigger]
            e.without(name).coeff(n) == if n == name {
                Ratio::zero()
            } else {
                e.coeff(n)
            },
{
    let w = e.without(name);
    assert forall|n: Seq<char>| #[trigger] w.terms.dom().contains(n) implies w.terms[n].wf()
        && !w.terms[n].is_zero() && (e.fits() ==> w.terms[n].fits()) by {
        assert(e.terms.dom().contains(n));
    }
}

/// The coefficients of a difference.
pub proof fn lemma_linear_minus(a: Linear, b: Linear)
    requires
        a.wf(),
        b.wf(),
    ensures
        a.minus(b).wf(),
        a.minus(b).constant == a.constant.minus(b.constant),
        forall|n: Seq<char>| #[trigger] a.minus(b).coeff(n) == a.coeff(n).minus(b.coeff(n)),
{
    lemma_linear_neg(b);
    lemma_linear_plus(a, b.neg());
    assert forall|n: Seq<char>| #[trigger] a.minus(b).coeff(n) == a.coeff(n).minus(b.coeff(n)) by {
        assert(a.plus(b.neg()).coeff(n) == a.coeff(n).plus(b.neg().coeff(n)));
        assert(b.neg().coeff(n) == b.coeff(n).neg());
    }
}

/// The coefficients of an expression after a substitution.
pub proof fn lemma_linear_substitute(e: Linear, name: Seq<char>, replacement: Linear)
    requires
        e.wf(),
        replacement.wf(),
    ensures
        e.substitute(name, replacement).wf(),
        e.substitute(name, replacement).constant == e.constant.plus(
            replacement.constant.times(e.coeff(name)),
        ),
        forall|n: Seq<char>| #[trigger]
            e.substitute(name, replacement).coeff(n) == (if n == name {
                Ratio::zero()
            } else {
                e.coeff(n)
            }).plus(replacement.coeff(n).times(e.coeff(name))),
{
    let k = e.coeff(name);
    lemma_coeff_wf(e, name);
    lemma_linear_without(e, name);
    lemma_linear_scale(replacement, k);
    lemma_linear_plus(e.without(name), replacement.scale(k));
    assert forall|n: Seq<char>| #[trigger]
        e.substitute(name, replacement).coeff(n) == (if n == name {
            Ratio::zero()
        } else {
            e.coeff(n)
        }).plus(replacement.coeff(n).times(k)) by {
        assert(e.without(name).plus(replacement.scale(k)).coeff(n) == e.without(name).coeff(n).plus(
            replacement.scale(k).coeff(n),
        ));
        assert(replacement.scale(k).coeff(n) == replacement.coeff(n).times(k));
    }
}

/// The coefficients of an expression solved for a variable; the variable
/// itself is gone from it.
pub proof fn lemma_linear_solve_for(e: Linear, name: Seq<char>)
    requires
        e.wf(),
        e.mentions(name),
    ensures
        e.solve_for(name).wf(),
        e.solve_for(name).constant == e.constant.times(e.coeff(name).neg().recip()),
        forall|n: Seq<char>| #[trigger]
            e.solve_for(name).coeff(n) == (if n == name {
                Ratio::zero()
            } else {
                e.coeff(n)
            }).times(e.coeff(name).neg().recip()),
        !e.solve_for(name).mentions(name),
{
    let c = e.coeff(name);
    lemma_coeff_wf(e, name);
    lemma_neg(c);
    lemma_recip(c.neg());
    let k = c.neg().recip();
    lemma_linear_without(e, name);
    lemma_linear_scale(e.without(name), k);
    assert forall|n: Seq<char>| #[trigger]
        e.solve_for(name).coeff(n) == (if n == name {
            Ratio::zero()
        } else {
            e.coeff(n)
        }).times(k) by {
        assert(e.without(name).scale(k).coeff(n) == e.without(name).coeff(n).times(k));
    }
    assert(e.solve_for(name).coeff(name) == Ratio::zero().times(k));
    lemma_times_zero(k);
}

} // verus!
