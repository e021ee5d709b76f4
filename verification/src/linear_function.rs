//! Linear expressions over named variables, with exact coefficients.

use crate::error::SimplexError;
use crate::linear::{
    lemma_coeff_wf, lemma_from_fn, lemma_linear_ext, lemma_linear_neg, lemma_linear_plus,
    lemma_linear_scale, lemma_linear_without, lemma_zero_canonical, lemma_zero_wf, Linear,
};
use crate::names::{
    is_gap, is_gap_name, is_sorted, lemma_name_le_reflexive, name_le, names_of, push_new,
    sort_names, sorted_list_of, sorted_names,
};
use crate::rational::{lemma_neg, lemma_plus_zero, lemma_times_zero, Ratio, Rational};
use vstd::prelude::*;

verus! {

/// The name of a variable.
pub type Variable = String;

/// The number that a variable is multiplied by.
pub type Coefficient = Rational;

/// One variable with its coefficient.
#[derive(Debug)]
struct Term {
    name: String,
    coeff: Rational,
}

/// A linear expression: terms with distinct variables, and a constant.
#[derive(Debug)]
pub struct LinearFunction {
    terms: Vec<Term>,
    constant: Rational,
}

/// The coefficient that a list of terms gives to a variable.
pub open spec fn entry_coeff(e: Seq<(Seq<char>, Ratio)>, name: Seq<char>) -> Ratio
    decreases e.len(),
{
    if e.len() == 0 {
        Ratio::zero()
    } else if e.last().0 == name {
        e.last().1
    } else {
        entry_coeff(e.drop_last(), name)
    }
}

/// The terms hold numbers that can be held, and no variable twice.
pub open spec fn entries_wf(e: Seq<(Seq<char>, Ratio)>) -> bool {
    &&& forall|i: int| 0 <= i < e.len() ==> (#[trigger] e[i]).1.wf() && e[i].1.fits()
    &&& forall|i: int, j: int|
        0 <= i < j < e.len() ==> (#[trigger] e[i]).0 != (#[trigger] e[j]).0
}

proof fn lemma_entry_absent(e: Seq<(Seq<char>, Ratio)>, name: Seq<char>)
    requires
        forall|i: int| 0 <= i < e.len() ==> (#[trigger] e[i]).0 != name,
    ensures
        entry_coeff(e, name) == Ratio::zero(),
    decreases e.len(),
{
    if e.len() > 0 {
        lemma_entry_absent(e.drop_last(), name);
    }
}

proof fn lemma_entry_present(e: Seq<(Seq<char>, Ratio)>, i: int)
    requires
        entries_wf(e),
        0 <= i < e.len(),
    ensures
        entry_coeff(e, e[i].0) == e[i].1,
    decreases e.len(),
{
    if i < e.len() - 1 {
        assert(e[i].0 != e[e.len() - 1].0);
        assert(e.drop_last()[i] == e[i]);
        lemma_entry_present(e.drop_last(), i);
    }
}

/// The coefficient of every variable is a number that can be held.
proof fn lemma_entry_fits(e: Seq<(Seq<char>, Ratio)>, name: Seq<char>)
    requires
        entries_wf(e),
    ensures
        entry_coeff(e, name).wf(),
        entry_coeff(e, name).fits(),
    decreases e.len(),
{
    lemma_zero_wf();
    if e.len() > 0 && e.last().0 != name {
        lemma_entry_fits(e.drop_last(), name);
    }
}

proof fn lemma_entries_update(e: Seq<(Seq<char>, Ratio)>, i: int, c: Ratio)
    requires
        entries_wf(e),
        0 <= i < e.len(),
        c.wf(),
        c.fits(),
    ensures
        entries_wf(e.update(i, (e[i].0, c))),
        forall|n: Seq<char>| #[trigger]
            entry_coeff(e.update(i, (e[i].0, c)), n) == if n == e[i].0 {
                c
            } else {
                entry_coeff(e, n)
            },
{
    let e2 = e.update(i, (e[i].0, c));
    assert(entries_wf(e2));
    assert forall|n: Seq<char>| #[trigger]
        entry_coeff(e2, n) == if n == e[i].0 {
            c
        } else {
            entry_coeff(e, n)
        } by {
        if exists|j: int| 0 <= j < e.len() && (#[trigger] e[j]).0 == n {
            let j = choose|j: int| 0 <= j < e.len() && (#[trigger] e[j]).0 == n;
            lemma_entry_present(e, j);
            lemma_entry_present(e2, j);
        } else {
            lemma_entry_absent(e, n);
            lemma_entry_absent(e2, n);
        }
    }
}

proof fn lemma_entries_push(e: Seq<(Seq<char>, Ratio)>, name: Seq<char>, c: Ratio)
    requires
        entries_wf(e),
        forall|i: int| 0 <= i < e.len() ==> (#[trigger] e[i]).0 != name,
        c.wf(),
        c.fits(),
    ensures
        entries_wf(e.push((name, c))),
        forall|n: Seq<char>| #[trigger]
            entry_coeff(e.push((name, c)), n) == if n == name {
                c
            } else {
                entry_coeff(e, n)
            },
{
    let e2 = e.push((name, c));
    assert(e2.drop_last() =~= e);
    assert(entries_wf(e2));
}

/// Terms with the same variables, each coefficient changed by `f`, where
/// `f` keeps zero.
proof fn lemma_entries_map(
    e: Seq<(Seq<char>, Ratio)>,
    out: Seq<(Seq<char>, Ratio)>,
    f: spec_fn(Ratio) -> Ratio,
)
    requires
        entries_wf(e),
        out.len() == e.len(),
        forall|i: int| 0 <= i < e.len() ==> (#[trigger] out[i]).0 == e[i].0 && out[i].1 == f(e[i].1),
        forall|i: int| 0 <= i < e.len() ==> (#[trigger] out[i]).1.wf() && out[i].1.fits(),
        f(Ratio::zero()) == Ratio::zero(),
    ensures
        entries_wf(out),
        forall|n: Seq<char>| #[trigger] entry_coeff(out, n) == f(entry_coeff(e, n)),
{
    assert forall|i: int, j: int| 0 <= i < j < out.len() implies (#[trigger] out[i]).0 != (
    #[trigger] out[j]).0 by {
        assert(e[i].0 != e[j].0);
    }
    assert forall|n: Seq<char>| #[trigger] entry_coeff(out, n) == f(entry_coeff(e, n)) by {
        if exists|j: int| 0 <= j < e.len() && (#[trigger] e[j]).0 == n {
            let j = choose|j: int| 0 <= j < e.len() && (#[trigger] e[j]).0 == n;
            lemma_entry_present(e, j);
            assert(out[j].0 == n);
            lemma_entry_present(out, j);
        } else {
            lemma_entry_absent(e, n);
            assert forall|i: int| 0 <= i < out.len() implies (#[trigger] out[i]).0 != n by {
                assert(e[i].0 != n);
            }
            lemma_entry_absent(out, n);
        }
    }
}

impl View for LinearFunction {
    type V = Linear;

    closed spec fn view(&self) -> Linear {
        Linear::from_fn(|n: Seq<char>| entry_coeff(self.entries(), n), self.constant@)
    }
}

impl Clone for LinearFunction {
    fn clone(&self) -> (r: Self)
        ensures
            r.entries() == self.entries(),
            r.constant_part() == self.constant_part(),
            r@ == self@,
            r.wf() == self.wf(),
    {
        let mut terms: Vec<Term> = Vec::new();
        let mut i: usize = 0;
        while i < self.terms.len()
            invariant
                i <= self.terms.len(),
                terms.len() == i,
                forall|k: int|
                    0 <= k < i ==> (#[trigger] terms@[k]).name@ == self.terms@[k].name@
                        && terms@[k].coeff == self.terms@[k].coeff,
            decreases self.terms.len() - i,
        {
            let name = self.terms[i].name.clone();
            terms.push(Term { name, coeff: self.terms[i].coeff });
            i += 1;
        }
        let r = LinearFunction { terms, constant: self.constant };
        proof {
            assert(r.entries() =~= self.entries());
        }
        r
    }
}

impl LinearFunction {
    /// The terms as they are held: each variable with its coefficient.
    pub closed spec fn entries(&self) -> Seq<(Seq<char>, Ratio)> {
        Seq::new(self.terms@.len(), |i: int| (self.terms@[i].name@, self.terms@[i].coeff@))
    }

    /// The constant as it is held.
    pub closed spec fn constant_part(&self) -> Rational {
        self.constant
    }

    /// What holds of the terms as they are held.
    pub closed spec fn inv(&self) -> bool {
        entries_wf(self.entries()) && self.constant.wf()
    }

    /// The expression holds no variable twice, and each of its numbers is
    /// in lowest terms and within the limits.
    pub open spec fn wf(&self) -> bool {
        self.inv() && self@.wf() && self@.fits()
    }

    proof fn lemma_inv(&self)
        requires
            self.inv(),
        ensures
            self.wf(),
            self@.constant == self.constant@,
            forall|n: Seq<char>| #[trigger] self@.coeff(n) == entry_coeff(self.entries(), n),
    {
        let e = self.entries();
        let f = |n: Seq<char>| entry_coeff(e, n);
        assert forall|n: Seq<char>| (#[trigger] f(n)).wf() by {
            lemma_entry_fits(e, n);
        }
        lemma_from_fn(f, self.constant@);
        assert forall|n: Seq<char>| #[trigger] self@.terms.dom().contains(n) implies self@.terms[n].fits() by {
            lemma_entry_fits(e, n);
            assert(self@.coeff(n) == f(n));
        }
    }

    fn find(&self, name: &String) -> (r: Option<usize>)
        ensures
            match r {
                Some(i) => i < self.terms.len() && self.entries()[i as int].0 == name@,
                None => forall|i: int|
                    0 <= i < self.entries().len() ==> (#[trigger] self.entries()[i]).0 != name@,
            },
    {
        let mut i: usize = 0;
        while i < self.terms.len()
            invariant
                i <= self.terms.len(),
                forall|k: int| 0 <= k < i ==> (#[trigger] self.entries()[k]).0 != name@,
            decreases self.terms.len() - i,
        {
            if self.terms[i].name == *name {
                return Some(i);
            }
            i += 1;
        }
        None
    }

    fn lookup(&self, name: &String) -> (r: Rational)
        requires
            self.inv(),
        ensures
            r.wf(),
            r@ == entry_coeff(self.entries(), name@),
    {
        match self.find(name) {
            Some(i) => {
                proof {
                    lemma_entry_present(self.entries(), i as int);
                }
                self.terms[i].coeff
            },
            None => {
                proof {
                    lemma_entry_absent(self.entries(), name@);
                    lemma_zero_wf();
                }
                Rational::zero()
            },
        }
    }

    fn set_coeff(&mut self, name: String, c: Rational)
        requires
            old(self).inv(),
            c.wf(),
        ensures
            final(self).inv(),
            final(self).constant == old(self).constant,
            forall|n: Seq<char>| #[trigger]
                entry_coeff(final(self).entries(), n) == if n == name@ {
                    c@
                } else {
                    entry_coeff(old(self).entries(), n)
                },
    {
        let found = self.find(&name);
        let ghost before = self.entries();
        let ghost key = name@;
        match found {
            Some(i) => {
                self.terms.set(i, Term { name, coeff: c });
                proof {
                    assert(self.entries() =~= before.update(i as int, (key, c@)));
                    lemma_entries_update(before, i as int, c@);
                }
            },
            None => {
                self.terms.push(Term { name, coeff: c });
                proof {
                    assert(self.entries() =~= before.push((key, c@)));
                    lemma_entries_push(before, key, c@);
                }
            },
        }
    }

    /// The expression that is zero.
    pub fn zero() -> (r: LinearFunction)
        ensures
            r.wf(),
            r@ == Linear::zero(),
    {
        let r = LinearFunction { terms: Vec::new(), constant: Rational::zero() };
        proof {
            r.lemma_inv();
            lemma_zero_wf();
            lemma_linear_ext(r@, Linear::zero());
        }
        r
    }

    /// The expression that is the constant `c`.
    pub fn from_constant(c: Rational) -> (r: LinearFunction)
        requires
            c.wf(),
        ensures
            r.wf(),
            r@ == Linear::constant_of(c@),
    {
        let r = LinearFunction { terms: Vec::new(), constant: c };
        proof {
            r.lemma_inv();
            lemma_linear_ext(r@, Linear::constant_of(c@));
        }
        r
    }

    /// The expression `1 * name`.
    pub fn variable(name: &str) -> (r: LinearFunction)
        ensures
            r.wf(),
            r@ == Linear::variable(name@),
    {
        let mut r = LinearFunction { terms: Vec::new(), constant: Rational::zero() };
        r.set_coeff(String::from_str(name), Rational::one());
        proof {
            r.lemma_inv();
            lemma_zero_wf();
            lemma_entry_absent(Seq::empty(), name@);
            assert forall|n: Seq<char>| r@.coeff(n) == Linear::variable(name@).coeff(n) by {
                lemma_entry_absent(Seq::empty(), n);
            }
            lemma_linear_ext(r@, Linear::variable(name@));
        }
        r
    }

    /// The coefficient of a variable; zero where it does not occur.
    pub fn coefficient(&self, name: &str) -> (r: Rational)
        requires
            self.wf(),
        ensures
            r.wf(),
            r@ == self@.coeff(name@),
    {
        let key = String::from_str(name);
        proof {
            self.lemma_inv();
        }
        self.lookup(&key)
    }

    /// The constant term.
    pub fn constant(&self) -> (r: Rational)
        requires
            self.wf(),
        ensures
            r.wf(),
            r@ == self@.constant,
    {
        proof {
            self.lemma_inv();
        }
        self.constant
    }

    /// The expression with every sign changed.
    pub fn negate(&self) -> (r: LinearFunction)
        requires
            self.wf(),
        ensures
            r.wf(),
            r@ == self@.neg(),
    {
        let mut terms: Vec<Term> = Vec::new();
        let mut i: usize = 0;
        while i < self.terms.len()
            invariant
                i <= self.terms.len(),
                terms.len() == i,
                self.inv(),
                forall|k: int|
                    0 <= k < i ==> (#[trigger] terms@[k]).name@ == self.terms@[k].name@
                        && terms@[k].coeff@ == self.terms@[k].coeff@.neg() && terms@[k].coeff.wf(),
            decreases self.terms.len() - i,
        {
            let name = self.terms[i].name.clone();
            assert(self.entries()[i as int].1.wf());
            let coeff = self.terms[i].coeff.negate();
            terms.push(Term { name, coeff });
            i += 1;
        }
        let r = LinearFunction { terms, constant: self.constant.negate() };
        proof {
            let f = |x: Ratio| x.neg();
            assert forall|k: int| 0 <= k < self.entries().len() implies (#[trigger] r.entries()[k]).0
                == self.entries()[k].0 && r.entries()[k].1 == f(self.entries()[k].1) by {
                assert(terms@[k].name@ == self.terms@[k].name@);
            }
            assert forall|k: int| 0 <= k < self.entries().len() implies (#[trigger] r.entries()[k]).1.wf()
                && r.entries()[k].1.fits() by {
                assert(terms@[k].coeff.wf());
            }
            lemma_entries_map(self.entries(), r.entries(), f);
            r.lemma_inv();
            self.lemma_inv();
            lemma_linear_neg(self@);
            assert forall|n: Seq<char>| r@.coeff(n) == self@.neg().coeff(n) by {
                assert(entry_coeff(r.entries(), n) == f(entry_coeff(self.entries(), n)));
            }
            lemma_linear_ext(r@, self@.neg());
        }
        r
    }

    /// Every coefficient and the constant multiplied by `k`, where each
    /// product can be held.
    pub fn scale(&self, k: &Rational) -> (r: Result<LinearFunction, SimplexError>)
        requires
            self.wf(),
            k.wf(),
        ensures
            match r {
                Ok(f) => f.wf() && f@ == self@.scale(k@),
                Err(e) => e == SimplexError::Overflow && !self@.scale(k@).fits(),
            },
    {
        proof {
            self.lemma_inv();
            lemma_linear_scale(self@, k@);
        }
        let constant = match self.constant.checked_mul(k) {
            Some(c) => c,
            None => {
                return Err(SimplexError::Overflow);
            },
        };
        let mut terms: Vec<Term> = Vec::new();
        let mut i: usize = 0;
        while i < self.terms.len()
            invariant
                i <= self.terms.len(),
                terms.len() == i,
                self.wf(),
                k.wf(),
                self@.scale(k@).wf(),
                forall|n: Seq<char>| #[trigger] self@.scale(k@).coeff(n) == self@.coeff(n).times(k@),
                forall|n: Seq<char>| #[trigger] self@.coeff(n) == entry_coeff(self.entries(), n),
                forall|j: int|
                    0 <= j < i ==> (#[trigger] terms@[j]).name@ == self.terms@[j].name@
                        && terms@[j].coeff@ == self.terms@[j].coeff@.times(k@)
                        && terms@[j].coeff.wf(),
            decreases self.terms.len() - i,
        {
            let name = self.terms[i].name.clone();
            assert(self.entries()[i as int].1.wf());
            match self.terms[i].coeff.checked_mul(k) {
                Some(coeff) => {
                    terms.push(Term { name, coeff });
                },
                None => {
                    proof {
                        let n = self.entries()[i as int].0;
                        lemma_entry_present(self.entries(), i as int);
                        assert(self@.scale(k@).coeff(n) == self@.coeff(n).times(k@));
                        lemma_zero_wf();
                    }
                    return Err(SimplexError::Overflow);
                },
            }
            i += 1;
        }
        let r = LinearFunction { terms, constant };
        proof {
            let f = |x: Ratio| x.times(k@);
            assert forall|j: int| 0 <= j < self.entries().len() implies (#[trigger] r.entries()[j]).0
                == self.entries()[j].0 && r.entries()[j].1 == f(self.entries()[j].1) by {
                assert(terms@[j].name@ == self.terms@[j].name@);
            }
            assert forall|j: int| 0 <= j < self.entries().len() implies (#[trigger] r.entries()[j]).1.wf()
                && r.entries()[j].1.fits() by {
                assert(terms@[j].coeff.wf());
            }
            lemma_times_zero(k@);
            lemma_entries_map(self.entries(), r.entries(), f);
            r.lemma_inv();
            assert forall|n: Seq<char>| r@.coeff(n) == self@.scale(k@).coeff(n) by {
                assert(entry_coeff(r.entries(), n) == f(entry_coeff(self.entries(), n)));
            }
            lemma_linear_ext(r@, self@.scale(k@));
        }
        Ok(r)
    }

    /// The sum of two expressions, where each of its numbers can be held.
    pub fn add(&self, other: &LinearFunction) -> (r: Result<LinearFunction, SimplexError>)
        requires
            self.wf(),
            other.wf(),
        ensures
            match r {
                Ok(f) => f.wf() && f@ == self@.plus(other@),
                Err(e) => e == SimplexError::Overflow && !self@.plus(other@).fits(),
            },
    {
        proof {
            self.lemma_inv();
            other.lemma_inv();
            lemma_linear_plus(self@, other@);
        }
        let constant = match self.constant.checked_add(&other.constant) {
            Some(c) => c,
            None => {
                return Err(SimplexError::Overflow);
            },
        };
        let mut acc = self.clone();
        acc.constant = constant;
        proof {
            assert(acc.entries() == self.entries());
            assert(other.entries().take(0) =~= Seq::empty());
            assert forall|n: Seq<char>| #[trigger]
                entry_coeff(acc.entries(), n) == entry_coeff(self.entries(), n).plus(
                    entry_coeff(other.entries().take(0), n),
                ) by {
                lemma_entry_fits(self.entries(), n);
                lemma_plus_zero(entry_coeff(self.entries(), n));
            }
        }
        let mut i: usize = 0;
        while i < other.terms.len()
            invariant
                i <= other.terms.len(),
                self.wf(),
                other.wf(),
                acc.inv(),
                acc.constant@ == self@.constant.plus(other@.constant),
                self@.plus(other@).wf(),
                forall|n: Seq<char>| #[trigger] self@.plus(other@).coeff(n) == self@.coeff(n).plus(other@.coeff(n)),
                forall|n: Seq<char>| #[trigger] self@.coeff(n) == entry_coeff(self.entries(), n),
                forall|n: Seq<char>| #[trigger] other@.coeff(n) == entry_coeff(other.entries(), n),
                forall|n: Seq<char>| #[trigger]
                    entry_coeff(acc.entries(), n) == entry_coeff(self.entries(), n).plus(
                        entry_coeff(other.entries().take(i as int), n),
                    ),
            decreases other.terms.len() - i,
        {
            let name = other.terms[i].name.clone();
            let ghost key = name@;
            let ghost prefix = other.entries().take(i as int);
            let ghost next = other.entries().take(i + 1);
            let ghost before = acc.entries();
            proof {
                assert(key == other.entries()[i as int].0);
                assert(next =~= prefix.push(other.entries()[i as int]));
                assert(next.drop_last() =~= prefix);
                assert(other.entries()[i as int].1.wf());
                assert forall|j: int| 0 <= j < prefix.len() implies (#[trigger] prefix[j]).0 != key by {
                    assert(other.entries()[j].0 != other.entries()[i as int].0);
                }
                lemma_entry_absent(prefix, key);
                lemma_entry_present(other.entries(), i as int);
                lemma_entry_fits(self.entries(), key);
                lemma_plus_zero(entry_coeff(self.entries(), key));
            }
            let current = acc.lookup(&name);
            match current.checked_add(&other.terms[i].coeff) {
                Some(sum) => {
                    acc.set_coeff(name, sum);
                },
                None => {
                    proof {
                        assert(self@.plus(other@).coeff(key) == self@.coeff(key).plus(other@.coeff(key)));
                        lemma_zero_wf();
                    }
                    return Err(SimplexError::Overflow);
                },
            }
            proof {
                assert forall|n: Seq<char>| #[trigger]
                    entry_coeff(acc.entries(), n) == entry_coeff(self.entries(), n).plus(
                        entry_coeff(next, n),
                    ) by {
                    if n != key {
                        assert(entry_coeff(next, n) == entry_coeff(prefix, n));
                        assert(entry_coeff(before, n) == entry_coeff(self.entries(), n).plus(
                            entry_coeff(prefix, n),
                        ));
                    }
                }
            }
            i += 1;
        }
        proof {
            assert(other.entries().take(i as int) =~= other.entries());
            acc.lemma_inv();
            assert forall|n: Seq<char>| acc@.coeff(n) == self@.plus(other@).coeff(n) by {
                assert(entry_coeff(acc.entries(), n) == entry_coeff(self.entries(), n).plus(
                    entry_coeff(other.entries(), n),
                ));
            }
            lemma_linear_ext(acc@, self@.plus(other@));
        }
        Ok(acc)
    }

    /// The difference of two expressions, where each of its numbers can be held.
    pub fn subtract(&self, other: &LinearFunction) -> (r: Result<LinearFunction, SimplexError>)
        requires
            self.wf(),
            other.wf(),
        ensures
            match r {
                Ok(f) => f.wf() && f@ == self@.minus(other@),
                Err(e) => e == SimplexError::Overflow && !self@.minus(other@).fits(),
            },
    {
        let negated = other.negate();
        self.add(&negated)
    }

    /// The expression without the term of the given variable.
    pub fn without(&self, name: &str) -> (r: LinearFunction)
        requires
            self.wf(),
        ensures
            r.wf(),
            r@ == self@.without(name@),
    {
        let mut r = self.clone();
        proof {
            lemma_zero_wf();
        }
        r.set_coeff(String::from_str(name), Rational::zero());
        proof {
            self.lemma_inv();
            r.lemma_inv();
            lemma_linear_without(self@, name@);
            assert forall|n: Seq<char>| r@.coeff(n) == self@.without(name@).coeff(n) by {
                assert(r@.coeff(n) == entry_coeff(r.entries(), n));
                assert(self@.coeff(n) == entry_coeff(self.entries(), n));
            }
            lemma_linear_ext(r@, self@.without(name@));
        }
        r
    }

    /// The expression with `replacement` put in the place of the variable:
    /// the variable's term leaves, and the replacement times the variable's
    /// coefficient is added.
    pub fn replace(&self, name: &str, replacement: &LinearFunction) -> (r: Result<
        LinearFunction,
        SimplexError,
    >)
        requires
            self.wf(),
            replacement.wf(),
        ensures
            match r {
                Ok(f) => f.wf() && f@ == self@.substitute(name@, replacement@)
                    && self@.substitute_fits(name@, replacement@),
                Err(e) => e == SimplexError::Overflow && !self@.substitute_fits(
                    name@,
                    replacement@,
                ),
            },
    {
        let k = self.coefficient(name);
        let scaled = match replacement.scale(&k) {
            Ok(s) => s,
            Err(e) => {
                return Err(e);
            },
        };
        let base = self.without(name);
        base.add(&scaled)
    }

    /// The expression `e` for which `name = e` says what `self = 0` says.
    /// There is none where the variable's coefficient is zero.
    pub fn solve_for(&self, name: &str) -> (r: Result<LinearFunction, SimplexError>)
        requires
            self.wf(),
        ensures
            match r {
                Ok(f) => f.wf() && self@.mentions(name@) && f@ == self@.solve_for(name@),
                Err(e) => if self@.mentions(name@) {
                    e == SimplexError::Overflow && !self@.solve_for(name@).fits()
                } else {
                    e == SimplexError::DomainError
                },
            },
    {
        let c = self.coefficient(name);
        proof {
            lemma_coeff_wf(self@, name@);
            lemma_neg(c@);
        }
        match c.negate().recip() {
            None => Err(SimplexError::DomainError),
            Some(k) => {
                let base = self.without(name);
                base.scale(&k)
            },
        }
    }

    /// Appends to the list the variables of the expression that the list
    /// does not hold yet; with `skip_gap`, only those that are no gap variables.
    pub(crate) fn collect_variables(&self, list: &mut Vec<String>, skip_gap: bool)
        requires
            self.wf(),
            names_of(old(list)@).no_duplicates(),
        ensures
            names_of(final(list)@).no_duplicates(),
            forall|n: Seq<char>|
                #[trigger] names_of(final(list)@).contains(n) <==> (names_of(old(list)@).contains(n) || (
                self@.mentions(n) && !(skip_gap && is_gap_name(n)))),
    {
        proof {
            self.lemma_inv();
        }
        let ghost start = names_of(list@);
        let mut i: usize = 0;
        while i < self.terms.len()
            invariant
                i <= self.terms.len(),
                self.wf(),
                names_of(list@).no_duplicates(),
                forall|n: Seq<char>| #[trigger] self@.coeff(n) == entry_coeff(self.entries(), n),
                forall|n: Seq<char>|
                    #[trigger] names_of(list@).contains(n) <==> (start.contains(n) || (exists|k: int|
                        0 <= k < i && (#[trigger] self.entries()[k]).0 == n
                            && !self.entries()[k].1.is_zero() && !(skip_gap && is_gap_name(n)))),
            decreases self.terms.len() - i,
        {
            let ghost before = names_of(list@);
            let ghost key = self.entries()[i as int].0;
            let keep = !self.terms[i].coeff.is_zero() && !(skip_gap && is_gap(
                self.terms[i].name.as_str(),
            ));
            if keep {
                let name = self.terms[i].name.clone();
                push_new(list, name);
            }
            proof {
                assert forall|n: Seq<char>|
                    #[trigger] names_of(list@).contains(n) <==> (start.contains(n) || (exists|k: int|
                        0 <= k < i + 1 && (#[trigger] self.entries()[k]).0 == n
                            && !self.entries()[k].1.is_zero() && !(skip_gap && is_gap_name(n)))) by {
                    let old_side = exists|k: int|
                        0 <= k < i && (#[trigger] self.entries()[k]).0 == n
                            && !self.entries()[k].1.is_zero() && !(skip_gap && is_gap_name(n));
                    let new_side = exists|k: int|
                        0 <= k < i + 1 && (#[trigger] self.entries()[k]).0 == n
                            && !self.entries()[k].1.is_zero() && !(skip_gap && is_gap_name(n));
                    assert(before.contains(n) <==> (start.contains(n) || old_side));
                    if old_side {
                        let k = choose|k: int|
                            0 <= k < i && (#[trigger] self.entries()[k]).0 == n
                                && !self.entries()[k].1.is_zero() && !(skip_gap && is_gap_name(n));
                        assert(0 <= k < i + 1 && self.entries()[k].0 == n);
                        assert(new_side);
                    }
                    if keep && n == key {
                        assert(self.entries()[i as int].0 == n);
                        assert(new_side);
                    }
                    if new_side && !old_side {
                        let k = choose|k: int|
                            0 <= k < i + 1 && (#[trigger] self.entries()[k]).0 == n
                                && !self.entries()[k].1.is_zero() && !(skip_gap && is_gap_name(n));
                        assert(k == i);
                    }
                }
            }
            i += 1;
        }
        proof {
            assert forall|n: Seq<char>|
                #[trigger] names_of(list@).contains(n) <==> (start.contains(n) || (self@.mentions(n) && !(
                skip_gap && is_gap_name(n)))) by {
                lemma_coeff_wf(self@, n);
                let side = exists|k: int|
                    0 <= k < i && (#[trigger] self.entries()[k]).0 == n
                        && !self.entries()[k].1.is_zero() && !(skip_gap && is_gap_name(n));
                assert(self@.coeff(n) == entry_coeff(self.entries(), n));
                if side {
                    let k = choose|k: int|
                        0 <= k < i && (#[trigger] self.entries()[k]).0 == n
                            && !self.entries()[k].1.is_zero() && !(skip_gap && is_gap_name(n));
                    lemma_entry_present(self.entries(), k);
                }
                if self@.mentions(n) && !(skip_gap && is_gap_name(n)) {
                    if exists|j: int| 0 <= j < self.entries().len() && (#[trigger] self.entries()[j]).0 == n {
                        let j = choose|j: int|
                            0 <= j < self.entries().len() && (#[trigger] self.entries()[j]).0 == n;
                        lemma_entry_present(self.entries(), j);
                        assert(side);
                    } else {
                        lemma_entry_absent(self.entries(), n);
                    }
                }
            }
        }
    }

    /// The variables of the expression, in alphabetical order.
    pub fn variables(&self) -> (r: Vec<String>)
        requires
            self.wf(),
        ensures
            sorted_list_of(names_of(r@), self@.terms.dom()),
            names_of(r@) == sorted_names(self@.terms.dom()),
    {
        let mut list: Vec<String> = Vec::new();
        assert(names_of(list@) =~= Seq::empty());
        self.collect_variables(&mut list, false);
        let r = sort_names(list);
        assert(sorted_list_of(names_of(r@), self@.terms.dom()));
        r
    }

    /// The variables of the expression that are no gap variables, in
    /// alphabetical order.
    pub fn non_gap_variables(&self) -> (r: Vec<String>)
        requires
            self.wf(),
        ensures
            sorted_list_of(names_of(r@), self@.structural()),
            names_of(r@) == sorted_names(self@.structural()),
    {
        let mut list: Vec<String> = Vec::new();
        assert(names_of(list@) =~= Seq::empty());
        self.collect_variables(&mut list, true);
        let r = sort_names(list);
        assert(sorted_list_of(names_of(r@), self@.structural()));
        r
    }

    /// The first variable, in alphabetical order, whose coefficient is
    /// positive. The variables are gone through in alphabetical order under
    /// either rule, so the smallest such variable is chosen with and without
    /// `use_bland_rule`.
    pub fn first_positive_coefficient(&self, use_bland_rule: bool) -> (r: Option<String>)
        requires
            self.wf(),
        ensures
            match r {
                Some(v) => self@.is_entering(v@),
                None => forall|n: Seq<char>| !self@.coeff(n).is_positive(),
            },
    {
        let names = self.variables();
        let mut i: usize = 0;
        while i < names.len()
            invariant
                i <= names.len(),
                self.wf(),
                is_sorted(names_of(names@)),
                forall|n: Seq<char>| #[trigger] names_of(names@).contains(n) <==> self@.mentions(n),
                forall|k: int| 0 <= k < i ==> !self@.coeff(#[trigger] names_of(names@)[k]).is_positive(),
            decreases names.len() - i,
        {
            let c = self.coefficient(names[i].as_str());
            assert(names_of(names@)[i as int] == names@[i as int]@);
            if c.is_positive() {
                let v = names[i].clone();
                proof {
                    let list = names_of(names@);
                    assert forall|n: Seq<char>| self@.coeff(n).is_positive() implies name_le(v@, n) by {
                        assert(list.contains(n));
                        let j = choose|j: int| 0 <= j < list.len() && list[j] == n;
                        if j == i {
                            lemma_name_le_reflexive(n);
                        } else {
                            assert(j > i);
                            assert(name_le(list[i as int], list[j]));
                        }
                    }
                }
                return Some(v);
            }
            i += 1;
        }
        proof {
            let list = names_of(names@);
            assert forall|n: Seq<char>| !self@.coeff(n).is_positive() by {
                if self@.coeff(n).is_positive() {
                    assert(list.contains(n));
                    let j = choose|j: int| 0 <= j < list.len() && list[j] == n;
                    assert(!self@.coeff(list[j]).is_positive());
                }
            }
        }
        None
    }

    /// If the expression is `1 * v` for a variable `v`, that variable.
    pub fn name_single_variable(&self) -> (r: Option<String>)
        requires
            self.wf(),
        ensures
            match r {
                Some(v) => self@.is_variable(v@),
                None => forall|n: Seq<char>| !self@.is_variable(n),
            },
    {
        proof {
            self.lemma_inv();
        }
        if !self.constant.is_zero() {
            return None;
        }
        let mut found: Option<usize> = None;
        let mut i: usize = 0;
        while i < self.terms.len()
            invariant
                i <= self.terms.len(),
                self.wf(),
                forall|n: Seq<char>| #[trigger] self@.coeff(n) == entry_coeff(self.entries(), n),
                match found {
                    Some(j) => j < i && !self.entries()[j as int].1.is_zero(),
                    None => true,
                },
                forall|k: int|
                    0 <= k < i && found != Some(k as usize) ==> (#[trigger] self.entries()[k]).1.is_zero(),
            decreases self.terms.len() - i,
        {
            if !self.terms[i].coeff.is_zero() {
                match found {
                    Some(j) => {
                        proof {
                            let a = self.entries()[j as int].0;
                            let b = self.entries()[i as int].0;
                            lemma_entry_present(self.entries(), j as int);
                            lemma_entry_present(self.entries(), i as int);
                            assert(a != b);
                            assert(self@.mentions(a) && self@.mentions(b));
                        }
                        return None;
                    },
                    None => {
                        found = Some(i);
                    },
                }
            }
            i += 1;
        }
        match found {
            None => {
                proof {
                    assert forall|n: Seq<char>| !self@.is_variable(n) by {
                        self.lemma_all_zero(n);
                    }
                }
                None
            },
            Some(j) => {
                let one = Rational::one();
                proof {
                    lemma_entry_present(self.entries(), j as int);
                }
                if self.terms[j].coeff.same(&one) {
                    let v = self.terms[j].name.clone();
                    proof {
                        assert forall|n: Seq<char>| n != v@ implies !(
                        #[trigger] self@.terms.dom().contains(n)) by {
                            self.lemma_zero_elsewhere(j as int, n);
                        }
                    }
                    Some(v)
                } else {
                    proof {
                        let a = self.entries()[j as int].0;
                        assert(self@.mentions(a));
                        assert(self@.coeff(a) != Ratio::one());
                    }
                    None
                }
            },
        }
    }

    proof fn lemma_all_zero(&self, n: Seq<char>)
        requires
            self.wf(),
            forall|k: int| 0 <= k < self.entries().len() ==> (#[trigger] self.entries()[k]).1.is_zero(),
        ensures
            !self@.mentions(n),
    {
        self.lemma_inv();
        assert(self@.coeff(n) == entry_coeff(self.entries(), n));
        if exists|j: int| 0 <= j < self.entries().len() && (#[trigger] self.entries()[j]).0 == n {
            let j = choose|j: int| 0 <= j < self.entries().len() && (#[trigger] self.entries()[j]).0 == n;
            lemma_entry_present(self.entries(), j);
        } else {
            lemma_entry_absent(self.entries(), n);
        }
    }

    proof fn lemma_zero_elsewhere(&self, at: int, n: Seq<char>)
        requires
            self.wf(),
            0 <= at < self.entries().len(),
            n != self.entries()[at].0,
            forall|k: int|
                0 <= k < self.entries().len() && k != at ==> (#[trigger] self.entries()[k]).1.is_zero(),
        ensures
            !self@.mentions(n),
    {
        self.lemma_inv();
        assert(self@.coeff(n) == entry_coeff(self.entries(), n));
        if exists|j: int| 0 <= j < self.entries().len() && (#[trigger] self.entries()[j]).0 == n {
            let j = choose|j: int| 0 <= j < self.entries().len() && (#[trigger] self.entries()[j]).0 == n;
            lemma_entry_present(self.entries(), j);
        } else {
            lemma_entry_absent(self.entries(), n);
        }
    }

    /// Whether every coefficient of `self` is the coefficient that `other`
    /// has for the same variable.
    fn covered_by(&self, other: &LinearFunction) -> (b: bool)
        requires
            self.wf(),
            other.wf(),
        ensures
            b == (forall|n: Seq<char>| self@.mentions(n) ==> self@.coeff(n) == other@.coeff(n)),
    {
        proof {
            self.lemma_inv();
            other.lemma_inv();
        }
        let mut i: usize = 0;
        while i < self.terms.len()
            invariant
                i <= self.terms.len(),
                self.wf(),
                other.wf(),
                forall|n: Seq<char>| #[trigger] self@.coeff(n) == entry_coeff(self.entries(), n),
                forall|n: Seq<char>| #[trigger] other@.coeff(n) == entry_coeff(other.entries(), n),
                forall|k: int|
                    0 <= k < i ==> (#[trigger] self.entries()[k]).1.is_zero() || self.entries()[k].1
                        == other@.coeff(self.entries()[k].0),
            decreases self.terms.len() - i,
        {
            let theirs = other.lookup(&self.terms[i].name);
            if !self.terms[i].coeff.is_zero() && !self.terms[i].coeff.same(&theirs) {
                proof {
                    let n = self.entries()[i as int].0;
                    lemma_entry_present(self.entries(), i as int);
                    assert(self@.mentions(n) && self@.coeff(n) != other@.coeff(n));
                }
                return false;
            }
            i += 1;
        }
        proof {
            assert forall|n: Seq<char>| self@.mentions(n) implies self@.coeff(n) == other@.coeff(n) by {
                assert(self@.coeff(n) == entry_coeff(self.entries(), n));
                if exists|j: int| 0 <= j < self.entries().len() && (#[trigger] self.entries()[j]).0 == n {
                    let j = choose|j: int|
                        0 <= j < self.entries().len() && (#[trigger] self.entries()[j]).0 == n;
                    lemma_entry_present(self.entries(), j);
                } else {
                    lemma_entry_absent(self.entries(), n);
                }
            }
        }
        true
    }

    /// Whether the two expressions are the same: the same constant, and
    /// for every variable the same coefficient.
    pub fn equals(&self, other: &LinearFunction) -> (b: bool)
        requires
            self.wf(),
            other.wf(),
        ensures
            b == (self@ == other@),
    {
        let b = self.constant().same(&other.constant()) && self.covered_by(other)
            && other.covered_by(self);
        proof {
            if b {
                assert forall|n: Seq<char>| self@.coeff(n) == other@.coeff(n) by {
                    lemma_coeff_wf(self@, n);
                    lemma_coeff_wf(other@, n);
                    if !self@.mentions(n) && !other@.mentions(n) {
                        lemma_zero_canonical(self@.coeff(n));
                        lemma_zero_canonical(other@.coeff(n));
                    }
                }
                lemma_linear_ext(self@, other@);
            }
        }
        b
    }
}

} // verus!