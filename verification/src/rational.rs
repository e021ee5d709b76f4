//! Exact rational numbers.
//!
//! [`Ratio`] is the mathematical fraction that contracts speak of: a pair of
//! unbounded integers kept in lowest terms. [`Rational`] is the executable
//! number: the same fraction with both parts held in 64-bit integers. Every
//! arithmetic operation is exact; where the exact result cannot be held, the
//! operation reports so instead of rounding.

use vstd::prelude::*;
use vstd::arithmetic::div_mod::{lemma_fundamental_div_mod, lemma_mod_multiples_basic};

verus! {

/// The largest magnitude that a numerator or a denominator of a [`Rational`] can have.
pub const LIMIT: i64 = 0x7fff_ffff_ffff_ffff;

/// Greatest common divisor of two natural numbers (Euclid's recursion).
pub open spec fn gcd(a: nat, b: nat) -> nat
    decreases b,
{
    if b == 0 {
        a
    } else {
        gcd(b, a % b)
    }
}

/// Absolute value of an integer.
pub open spec fn magnitude(x: int) -> nat {
    if x < 0 {
        (-x) as nat
    } else {
        x as nat
    }
}

/// A mathematical fraction `num / den`.
pub struct Ratio {
    pub num: int,
    pub den: int,
}

impl Ratio {
    /// The fraction is in lowest terms with a positive denominator.
    pub open spec fn wf(self) -> bool {
        self.den > 0 && gcd(magnitude(self.num), self.den as nat) == 1
    }

    /// Both parts can be held in a [`Rational`].
    pub open spec fn fits(self) -> bool {
        -LIMIT <= self.num <= LIMIT && 0 < self.den <= LIMIT
    }

    /// The real number that the fraction denotes.
    pub open spec fn value(self) -> real {
        self.num as real / self.den as real
    }

    /// Zero, in lowest terms.
    pub open spec fn zero() -> Ratio {
        Ratio { num: 0, den: 1 }
    }

    /// One, in lowest terms.
    pub open spec fn one() -> Ratio {
        Ratio { num: 1, den: 1 }
    }

    /// The fraction `n / d`, for `d > 0`, brought to lowest terms.
    pub open spec fn reduced(n: int, d: int) -> Ratio {
        let g = gcd(magnitude(n), magnitude(d)) as int;
        Ratio { num: n / g, den: d / g }
    }

    /// The fraction is zero.
    pub open spec fn is_zero(self) -> bool {
        self.num == 0
    }

    /// The fraction is above zero (its denominator being positive).
    pub open spec fn is_positive(self) -> bool {
        self.num > 0
    }

    /// The fraction is below zero (its denominator being positive).
    pub open spec fn is_negative(self) -> bool {
        self.num < 0
    }

    /// The fraction with the opposite sign.
    pub open spec fn neg(self) -> Ratio {
        Ratio { num: -self.num, den: self.den }
    }

    /// The sum, in lowest terms.
    pub open spec fn plus(self, other: Ratio) -> Ratio {
        Ratio::reduced(self.num * other.den + other.num * self.den, self.den * other.den)
    }

    /// The difference, in lowest terms.
    pub open spec fn minus(self, other: Ratio) -> Ratio {
        self.plus(other.neg())
    }

    /// The product, in lowest terms.
    pub open spec fn times(self, other: Ratio) -> Ratio {
        Ratio::reduced(self.num * other.num, self.den * other.den)
    }

    /// The reciprocal of a fraction that is not zero.
    pub open spec fn recip(self) -> Ratio {
        if self.num > 0 {
            Ratio { num: self.den, den: self.num }
        } else {
            Ratio { num: -self.den, den: -self.num }
        }
    }

    /// The quotient, in lowest terms, for a divisor that is not zero.
    pub open spec fn over(self, other: Ratio) -> Ratio {
        self.times(other.recip())
    }

    /// `self < other`, by cross multiplication (both denominators positive).
    pub open spec fn lt(self, other: Ratio) -> bool {
        self.num * other.den < other.num * self.den
    }

    /// The fraction `n / d` in lowest terms, for any `d` but zero.
    pub open spec fn from_parts(n: int, d: int) -> Ratio {
        if d > 0 {
            Ratio::reduced(n, d)
        } else {
            Ratio::reduced(-n, -d)
        }
    }
}

// ---------------------------------------------------------------------------
// Divisibility and the greatest common divisor
// ---------------------------------------------------------------------------

proof fn lemma_exact_quotient(x: int, g: int)
    requires
        g > 0,
        x % g == 0,
    ensures
        x == g * (x / g),
        x > 0 ==> x / g > 0,
        x == 0 ==> x / g == 0,
        x < 0 ==> x / g < 0,
        x >= 0 ==> x / g <= x,
{
    lemma_fundamental_div_mod(x, g);
    let q = x / g;
    assert(x == g * q);
    assert((x > 0 ==> q > 0) && (x == 0 ==> q == 0) && (x < 0 ==> q < 0) && (x >= 0 ==> q <= x))
        by (nonlinear_arith)
        requires
            x == g * q,
            g > 0,
    ;
}

proof fn lemma_multiple_divides(g: int, k: int)
    requires
        g > 0,
    ensures
        (g * k) % g == 0,
        (g * k) / g == k,
{
    lemma_mod_multiples_basic(k, g);
    assert(k * g == g * k) by (nonlinear_arith);
    lemma_fundamental_div_mod(g * k, g);
    let q = (g * k) / g;
    assert(q == k) by (nonlinear_arith)
        requires
            g * k == g * q,
            g > 0,
    ;
}

/// The greatest common divisor is positive and divides both arguments.
pub proof fn lemma_gcd_divides(a: nat, b: nat)
    requires
        a > 0 || b > 0,
    ensures
        gcd(a, b) > 0,
        a % gcd(a, b) == 0,
        b % gcd(a, b) == 0,
    decreases b,
{
    if b == 0 {
        lemma_multiple_divides(a as int, 1);
        lemma_multiple_divides(a as int, 0);
    } else {
        let r = a % b;
        lemma_gcd_divides(b, r);
        let g = gcd(b, r) as int;
        lemma_fundamental_div_mod(a as int, b as int);
        lemma_exact_quotient(b as int, g);
        lemma_exact_quotient(r as int, g);
        let q = (a as int) / (b as int);
        let kb = (b as int) / g;
        let kr = (r as int) / g;
        assert(a == g * (kb * q + kr)) by (nonlinear_arith)
            requires
                a == b * q + r,
                b == g * kb,
                r == g * kr,
        ;
        lemma_multiple_divides(g, kb * q + kr);
    }
}

/// Every common divisor of two numbers divides their greatest common divisor.
pub proof fn lemma_gcd_greatest(a: nat, b: nat, c: nat)
    requires
        c > 0,
        a % c == 0,
        b % c == 0,
    ensures
        gcd(a, b) % c == 0,
    decreases b,
{
    if b != 0 {
        let r = a % b;
        lemma_fundamental_div_mod(a as int, b as int);
        lemma_exact_quotient(a as int, c as int);
        lemma_exact_quotient(b as int, c as int);
        let q = (a as int) / (b as int);
        let ka = (a as int) / (c as int);
        let kb = (b as int) / (c as int);
        assert(r == c * (ka - kb * q)) by (nonlinear_arith)
            requires
                a == b * q + r,
                a == c * ka,
                b == c * kb,
        ;
        lemma_multiple_divides(c as int, ka - kb * q);
        lemma_gcd_greatest(b, r, c);
    }
}

/// Dividing two numbers by their greatest common divisor leaves them coprime.
pub proof fn lemma_quotients_coprime(n: nat, d: nat)
    requires
        d > 0,
    ensures
        gcd(n, d) > 0,
        gcd((n / gcd(n, d)) as nat, (d / gcd(n, d)) as nat) == 1,
{
    lemma_gcd_divides(n, d);
    let g = gcd(n, d) as int;
    lemma_exact_quotient(n as int, g);
    lemma_exact_quotient(d as int, g);
    let n1 = (n as int) / g;
    let d1 = (d as int) / g;
    assert(n1 >= 0) by (nonlinear_arith)
        requires
            n == g * n1,
            g > 0,
            n >= 0,
    ;
    lemma_gcd_divides(n1 as nat, d1 as nat);
    let h = gcd(n1 as nat, d1 as nat) as int;
    lemma_exact_quotient(n1, h);
    lemma_exact_quotient(d1, h);
    let kn = n1 / h;
    let kd = d1 / h;
    assert(n == (g * h) * kn && d == (g * h) * kd && g * h > 0) by (nonlinear_arith)
        requires
            n == g * n1,
            d == g * d1,
            n1 == h * kn,
            d1 == h * kd,
            g > 0,
            h > 0,
    ;
    lemma_multiple_divides(g * h, kn);
    lemma_multiple_divides(g * h, kd);
    lemma_gcd_greatest(n, d, (g * h) as nat);
    lemma_exact_quotient(g, g * h);
    let k = g / (g * h);
    assert(h == 1) by (nonlinear_arith)
        requires
            g == (g * h) * k,
            g > 0,
            h > 0,
    ;
}

// ---------------------------------------------------------------------------
// Laws of the arithmetic on fractions
// ---------------------------------------------------------------------------

/// Bringing `n / d` to lowest terms keeps its value and its sign.
pub proof fn lemma_reduced(n: int, d: int)
    requires
        d > 0,
    ensures
        Ratio::reduced(n, d).wf(),
        Ratio::reduced(n, d).value() == n as real / d as real,
        Ratio::reduced(n, d).num > 0 <==> n > 0,
        Ratio::reduced(n, d).num < 0 <==> n < 0,
        n == 0 ==> Ratio::reduced(n, d) == Ratio::zero(),
        magnitude(Ratio::reduced(n, d).num) == magnitude(n) / gcd(magnitude(n), d as nat),
        Ratio::reduced(n, d).den == d / (gcd(magnitude(n), d as nat) as int),
        magnitude(Ratio::reduced(n, d).num) <= magnitude(n),
        Ratio::reduced(n, d).den <= d,
{
    let m = magnitude(n);
    lemma_quotients_coprime(m, d as nat);
    lemma_gcd_divides(m, d as nat);
    let g = gcd(m, d as nat) as int;
    lemma_exact_quotient(m as int, g);
    lemma_exact_quotient(d, g);
    let mq = (m as int) / g;
    let dq = d / g;
    if n < 0 {
        assert(n == g * (-mq)) by (nonlinear_arith)
            requires
                -n == g * mq,
        ;
        lemma_multiple_divides(g, -mq);
        assert(n / g == -mq);
        assert(magnitude(n / g) == mq);
    } else {
        assert(n / g == mq);
        assert(magnitude(n / g) == mq);
    }
    let nq = n / g;
    assert(n == g * nq);
    if n == 0 {
        assert(gcd(0, d as nat) == d) by {
            reveal_with_fuel(gcd, 3);
            assert(0nat % (d as nat) == 0) by (nonlinear_arith)
                requires
                    d > 0,
            ;
        }
        lemma_multiple_divides(d, 1);
    }
    let nr = nq as real;
    let dr = dq as real;
    let gr = g as real;
    assert((g * nq) as real == gr * nr && (g * dq) as real == gr * dr) by (nonlinear_arith)
        requires
            nr == nq as real,
            dr == dq as real,
            gr == g as real,
    ;
    assert((gr * nr) / (gr * dr) == nr / dr) by (nonlinear_arith)
        requires
            dr > 0 as real,
            gr > 0 as real,
    ;
}

/// A fraction in lowest terms is left as it is when brought to lowest terms.
pub proof fn lemma_reduced_idempotent(x: Ratio)
    requires
        x.wf(),
    ensures
        Ratio::reduced(x.num, x.den) == x,
{
    assert(x.num / 1 == x.num && x.den / 1 == x.den);
}

/// Changing the sign keeps lowest terms and the limits, and negates the value.
pub proof fn lemma_neg(x: Ratio)
    requires
        x.wf(),
    ensures
        x.neg().wf(),
        x.neg().value() == -x.value(),
        x.neg().neg() == x,
        x.neg().fits() == x.fits(),
{
    assert(magnitude(-x.num) == magnitude(x.num));
    let nr = x.num as real;
    let dr = x.den as real;
    assert((-x.num) as real == -nr);
    assert((-nr) / dr == -(nr / dr)) by (nonlinear_arith)
        requires
            dr > 0 as real,
    ;
}

/// The sum is in lowest terms, its value is the sum of the values, and
/// the order of the two does not matter.
pub proof fn lemma_plus(x: Ratio, y: Ratio)
    requires
        x.wf(),
        y.wf(),
    ensures
        x.plus(y).wf(),
        x.plus(y).value() == x.value() + y.value(),
        x.plus(y) == y.plus(x),
{
    let n = x.num * y.den + y.num * x.den;
    let d = x.den * y.den;
    assert(d > 0) by (nonlinear_arith)
        requires
            d == x.den * y.den,
            x.den > 0,
            y.den > 0,
    ;
    lemma_reduced(n, d);
    let xn = x.num as real;
    let xd = x.den as real;
    let yn = y.num as real;
    let yd = y.den as real;
    assert(d as real == xd * yd && n as real == xn * yd + yn * xd) by (nonlinear_arith)
        requires
            n == x.num * y.den + y.num * x.den,
            d == x.den * y.den,
            xn == x.num as real,
            xd == x.den as real,
            yn == y.num as real,
            yd == y.den as real,
    ;
    assert((xn * yd + yn * xd) / (xd * yd) == xn / xd + yn / yd) by (nonlinear_arith)
        requires
            xd > 0 as real,
            yd > 0 as real,
    ;
    assert(y.den * x.den == d && y.num * x.den + x.num * y.den == n) by (nonlinear_arith)
        requires
            n == x.num * y.den + y.num * x.den,
            d == x.den * y.den,
    ;
}

/// Adding zero changes nothing.
pub proof fn lemma_plus_zero(x: Ratio)
    requires
        x.wf(),
    ensures
        x.plus(Ratio::zero()) == x,
        Ratio::zero().plus(x) == x,
{
    lemma_reduced_idempotent(x);
    assert(x.num * 1 + 0 * x.den == x.num && x.den * 1 == x.den);
    assert(0 * x.den + x.num * 1 == x.num && 1 * x.den == x.den);
}

/// The product is in lowest terms, its value is the product of the
/// values, and it is zero only where a factor is.
pub proof fn lemma_times(x: Ratio, y: Ratio)
    requires
        x.wf(),
        y.wf(),
    ensures
        x.times(y).wf(),
        x.times(y).value() == x.value() * y.value(),
        x.times(y) == y.times(x),
        x.times(y).is_zero() <==> x.is_zero() || y.is_zero(),
{
    let n = x.num * y.num;
    let d = x.den * y.den;
    assert(d > 0 && (n == 0 <==> x.num == 0 || y.num == 0)) by (nonlinear_arith)
        requires
            d == x.den * y.den,
            n == x.num * y.num,
            x.den > 0,
            y.den > 0,
    ;
    lemma_reduced(n, d);
    let xn = x.num as real;
    let xd = x.den as real;
    let yn = y.num as real;
    let yd = y.den as real;
    assert(d as real == xd * yd && n as real == xn * yn) by (nonlinear_arith)
        requires
            n == x.num * y.num,
            d == x.den * y.den,
            xn == x.num as real,
            xd == x.den as real,
            yn == y.num as real,
            yd == y.den as real,
    ;
    assert((xn * yn) / (xd * yd) == (xn / xd) * (yn / yd)) by (nonlinear_arith)
        requires
            xd > 0 as real,
            yd > 0 as real,
    ;
    assert(y.den * x.den == d && y.num * x.num == n) by (nonlinear_arith)
        requires
            n == x.num * y.num,
            d == x.den * y.den,
    ;
}

/// A product with zero is zero.
pub proof fn lemma_times_zero(x: Ratio)
    requires
        x.wf(),
    ensures
        x.times(Ratio::zero()) == Ratio::zero(),
        Ratio::zero().times(x) == Ratio::zero(),
{
    assert(x.num * 0 == 0 && 0 * x.num == 0);
    assert(x.den * 1 == x.den && 1 * x.den == x.den);
    lemma_reduced(0, x.den);
}

/// Swapping the two arguments of `gcd` does not change it.
pub proof fn lemma_gcd_symmetric(a: nat, b: nat)
    ensures
        gcd(a, b) == gcd(b, a),
{
    if a == 0 && b == 0 {
    } else {
        lemma_gcd_divides(a, b);
        lemma_gcd_divides(b, a);
        let g = gcd(a, b);
        let h = gcd(b, a);
        lemma_gcd_greatest(a, b, h);
        lemma_gcd_greatest(b, a, g);
        lemma_exact_quotient(g as int, h as int);
        lemma_exact_quotient(h as int, g as int);
        let k1 = (g as int) / (h as int);
        let k2 = (h as int) / (g as int);
        assert(g == h) by (nonlinear_arith)
            requires
                g == h * k1,
                h == g * k2,
                g > 0,
                h > 0,
        ;
    }
}

/// The reciprocal is in lowest terms and within the same limits; its
/// value times the value of the fraction is one, and it has the same sign.
pub proof fn lemma_recip(x: Ratio)
    requires
        x.wf(),
        !x.is_zero(),
    ensures
        x.recip().wf(),
        x.recip().fits() == x.fits(),
        x.recip().value() * x.value() == 1 as real,
        x.recip().is_positive() == x.is_positive(),
        x.recip().is_negative() == x.is_negative(),
{
    lemma_gcd_symmetric(magnitude(x.num), x.den as nat);
    let nr = x.num as real;
    let dr = x.den as real;
    assert((-x.num) as real == -nr && (-x.den) as real == -dr);
    assert((dr / nr) * (nr / dr) == 1 as real && ((-dr) / (-nr)) * (nr / dr) == 1 as real)
        by (nonlinear_arith)
        requires
            dr > 0 as real,
            nr != 0 as real,
    ;
}

/// The values of zero and one are zero and one.
pub proof fn lemma_zero_one_values()
    ensures
        Ratio::zero().value() == 0 as real,
        Ratio::one().value() == 1 as real,
{
    assert(0 as real / 1 as real == 0 as real && 1 as real / 1 as real == 1 as real)
        by (nonlinear_arith);
}

/// The sign of a fraction's value is the sign of its numerator, and `lt`
/// is the order of the values.
pub proof fn lemma_order(x: Ratio, y: Ratio)
    requires
        x.den > 0,
        y.den > 0,
    ensures
        x.is_zero() <==> x.value() == 0 as real,
        x.is_positive() <==> x.value() > 0 as real,
        x.is_negative() <==> x.value() < 0 as real,
        x.lt(y) <==> x.value() < y.value(),
{
    let xn = x.num as real;
    let xd = x.den as real;
    let yn = y.num as real;
    let yd = y.den as real;
    assert((xn == 0 as real <==> xn / xd == 0 as real) && (xn > 0 as real <==> xn / xd > 0 as real)
        && (xn < 0 as real <==> xn / xd < 0 as real)) by (nonlinear_arith)
        requires
            xd > 0 as real,
    ;
    assert((x.num * y.den) as real == xn * yd && (y.num * x.den) as real == yn * xd)
        by (nonlinear_arith)
        requires
            xn == x.num as real,
            xd == x.den as real,
            yn == y.num as real,
            yd == y.den as real,
    ;
    assert(xn * yd < yn * xd <==> xn / xd < yn / yd) by (nonlinear_arith)
        requires
            xd > 0 as real,
            yd > 0 as real,
    ;
}

// ---------------------------------------------------------------------------
// The executable number
// ---------------------------------------------------------------------------

/// An exact rational number whose numerator and denominator, in lowest
/// terms, are at most [`LIMIT`] in magnitude.
#[derive(Clone, Copy, Debug, PartialEq, Eq, Structural)]
pub struct Rational {
    num: i64,
    den: i64,
}

impl View for Rational {
    type V = Ratio;

    closed spec fn view(&self) -> Ratio {
        Ratio { num: self.num as int, den: self.den as int }
    }
}

fn gcd_u128(a: u128, b: u128) -> (g: u128)
    ensures
        g == gcd(a as nat, b as nat),
{
    let mut x: u128 = a;
    let mut y: u128 = b;
    while y != 0
        invariant
            gcd(x as nat, y as nat) == gcd(a as nat, b as nat),
        decreases y,
    {
        let r: u128 = x % y;
        x = y;
        y = r;
    }
    x
}

impl Rational {
    /// The number is in lowest terms and within the limits.
    pub open spec fn wf(&self) -> bool {
        self@.wf() && self@.fits()
    }

    /// Brings `n / d` to lowest terms, if the result can be held.
    fn reduce(n: i128, d: i128) -> (r: Option<Rational>)
        requires
            d > 0,
            n > i128::MIN,
        ensures
            match r {
                Some(q) => q.wf() && q@ == Ratio::reduced(n as int, d as int),
                None => !Ratio::reduced(n as int, d as int).fits(),
            },
    {
        let m: u128 = if n < 0 {
            (-n) as u128
        } else {
            n as u128
        };
        let g: u128 = gcd_u128(m, d as u128);
        proof {
            lemma_gcd_divides(m as nat, d as nat);
            lemma_reduced(n as int, d as int);
            lemma_exact_quotient(m as int, g as int);
            lemma_exact_quotient(d as int, g as int);
        }
        let mq: u128 = m / g;
        let dq: u128 = d as u128 / g;
        if mq > LIMIT as u128 || dq > LIMIT as u128 {
            None
        } else {
            let num: i64 = if n < 0 {
                -(mq as i64)
            } else {
                mq as i64
            };
            Some(Rational { num, den: dq as i64 })
        }
    }

    /// The fraction `num / den` in lowest terms. There is none where `den`
    /// is zero, and none that can be held where a part is out of range.
    pub fn new(num: i64, den: i64) -> (r: Option<Rational>)
        ensures
            match r {
                Some(q) => den != 0 && q.wf() && q@ == Ratio::from_parts(num as int, den as int),
                None => den == 0 || !Ratio::from_parts(num as int, den as int).fits(),
            },
    {
        if den == 0 {
            None
        } else if den > 0 {
            Rational::reduce(num as i128, den as i128)
        } else {
            Rational::reduce(-(num as i128), -(den as i128))
        }
    }

    /// The whole number `n`.
    pub fn from_int(n: i64) -> (r: Option<Rational>)
        ensures
            match r {
                Some(q) => q.wf() && q@ == (Ratio { num: n as int, den: 1 }),
                None => n < -LIMIT,
            },
    {
        if n < -LIMIT {
            None
        } else {
            proof {
                assert(gcd(magnitude(n as int), 1) == 1) by {
                    reveal_with_fuel(gcd, 3);
                }
            }
            Some(Rational { num: n, den: 1 })
        }
    }

    /// The number zero.
    pub fn zero() -> (r: Rational)
        ensures
            r.wf(),
            r@ == Ratio::zero(),
    {
        proof {
            assert(gcd(0, 1) == 1) by {
                reveal_with_fuel(gcd, 3);
            }
        }
        Rational { num: 0, den: 1 }
    }

    /// The number one.
    pub fn one() -> (r: Rational)
        ensures
            r.wf(),
            r@ == Ratio::one(),
    {
        proof {
            assert(gcd(1, 1) == 1) by {
                reveal_with_fuel(gcd, 3);
            }
        }
        Rational { num: 1, den: 1 }
    }

    /// The numerator, in lowest terms; it carries the sign.
    pub fn numerator(&self) -> (n: i64)
        ensures
            n == self@.num,
    {
        self.num
    }

    /// The denominator, in lowest terms; it is positive.
    pub fn denominator(&self) -> (d: i64)
        ensures
            d == self@.den,
    {
        self.den
    }

    /// Whether the number is zero.
    pub fn is_zero(&self) -> (b: bool)
        ensures
            b == self@.is_zero(),
    {
        self.num == 0
    }

    /// Whether the number is above zero.
    pub fn is_positive(&self) -> (b: bool)
        ensures
            b == self@.is_positive(),
    {
        self.num > 0
    }

    /// Whether the number is below zero.
    pub fn is_negative(&self) -> (b: bool)
        ensures
            b == self@.is_negative(),
    {
        self.num < 0
    }

    /// Whether the two numbers are the same.
    pub fn same(&self, other: &Rational) -> (b: bool)
        ensures
            b == (self@ == other@),
    {
        self.num == other.num && self.den == other.den
    }

    /// `self < other`.
    pub fn less_than(&self, other: &Rational) -> (b: bool)
        requires
            self.wf(),
            other.wf(),
        ensures
            b == self@.lt(other@),
    {
        proof {
            lemma_product_bound(self.num as int, other.den as int);
            lemma_product_bound(other.num as int, self.den as int);
        }
        (self.num as i128) * (other.den as i128) < (other.num as i128) * (self.den as i128)
    }

    /// The number with the opposite sign.
    pub fn negate(&self) -> (r: Rational)
        requires
            self.wf(),
        ensures
            r.wf(),
            r@ == self@.neg(),
    {
        proof {
            lemma_neg(self@);
        }
        Rational { num: -self.num, den: self.den }
    }

    /// The exact sum, if it can be held.
    pub fn checked_add(&self, other: &Rational) -> (r: Option<Rational>)
        requires
            self.wf(),
            other.wf(),
        ensures
            match r {
                Some(q) => q.wf() && q@ == self@.plus(other@),
                None => !self@.plus(other@).fits(),
            },
    {
        proof {
            lemma_product_bound(self.num as int, other.den as int);
            lemma_product_bound(other.num as int, self.den as int);
            lemma_product_bound(self.den as int, other.den as int);
        }
        let n: i128 = (self.num as i128) * (other.den as i128) + (other.num as i128) * (
        self.den as i128);
        let d: i128 = (self.den as i128) * (other.den as i128);
        Rational::reduce(n, d)
    }

    /// The exact difference, if it can be held.
    pub fn checked_sub(&self, other: &Rational) -> (r: Option<Rational>)
        requires
            self.wf(),
            other.wf(),
        ensures
            match r {
                Some(q) => q.wf() && q@ == self@.minus(other@),
                None => !self@.minus(other@).fits(),
            },
    {
        let m = other.negate();
        self.checked_add(&m)
    }

    /// The exact product, if it can be held.
    pub fn checked_mul(&self, other: &Rational) -> (r: Option<Rational>)
        requires
            self.wf(),
            other.wf(),
        ensures
            match r {
                Some(q) => q.wf() && q@ == self@.times(other@),
                None => !self@.times(other@).fits(),
            },
    {
        proof {
            lemma_product_bound(self.num as int, other.num as int);
            lemma_product_bound(self.den as int, other.den as int);
        }
        let n: i128 = (self.num as i128) * (other.num as i128);
        let d: i128 = (self.den as i128) * (other.den as i128);
        Rational::reduce(n, d)
    }

    /// The reciprocal; zero has none.
    pub fn recip(&self) -> (r: Option<Rational>)
        requires
            self.wf(),
        ensures
            match r {
                Some(q) => !self@.is_zero() && q.wf() && q@ == self@.recip(),
                None => self@.is_zero(),
            },
    {
        if self.num == 0 {
            None
        } else {
            proof {
                lemma_recip(self@);
            }
            if self.num > 0 {
                Some(Rational { num: self.den, den: self.num })
            } else {
                Some(Rational { num: -self.den, den: -self.num })
            }
        }
    }
}

proof fn lemma_product_bound(a: int, b: int)
    requires
        -LIMIT <= a <= LIMIT,
        -LIMIT <= b <= LIMIT,
    ensures
        -0x3fff_ffff_ffff_ffff_0000_0000_0000_0001 <= a * b <= 0x3fff_ffff_ffff_ffff_0000_0000_0000_0001,
        (a > 0 && b > 0) ==> a * b > 0,
{
    assert(-(LIMIT * LIMIT) <= a * b <= LIMIT * LIMIT && ((a > 0 && b > 0) ==> a * b > 0))
        by (nonlinear_arith)
        requires
            -LIMIT <= a <= LIMIT,
            -LIMIT <= b <= LIMIT,
    ;
    assert(LIMIT * LIMIT == 0x3fff_ffff_ffff_ffff_0000_0000_0000_0001) by (nonlinear_arith);
}

} // verus!
