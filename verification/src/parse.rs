//! Linear expressions, constraints and tableaux from text.
//!
//! A constraint is written as two expressions with one of `=`, `<`, `>`,
//! `<=`, `>=` between them. A tableau is written as one constraint on each
//! line; blank lines do not count.

use crate::constraint::{Constraint, Constraints, Operator, Row, Tableau};
use crate::error::SimplexError;
use crate::linear::{lemma_zero_wf, Linear};
use crate::linear_function::LinearFunction;
use crate::program::Program;
use crate::solver::{Simplex, Stepper};
use crate::rational::{lemma_reduced, Ratio, Rational, LIMIT};
use crate::scan::{
    chars_of, digit_value, is_digit, lemma_scan_term, part_of, pieces_of, read_terms, run_end,
    scan_term, scan_terms, skip, Class, Piece, PieceAt,
};
use vstd::prelude::*;

verus! {

/// The number that a row of decimal digits stands for.
pub open spec fn decimal_value(digits: Seq<char>) -> nat
    decreases digits.len(),
{
    if digits.len() == 0 {
        0
    } else {
        decimal_value(digits.drop_last()) * 10 + digit_value(digits.last())
    }
}

/// Ten to the power of `n`.
pub open spec fn pow10(n: nat) -> nat
    decreases n,
{
    if n == 0 {
        1
    } else {
        10 * pow10((n - 1) as nat)
    }
}

/// The digits of a term's number, those behind the point included.
pub open spec fn piece_digits(s: Seq<char>, p: Piece) -> Seq<char> {
    s.subrange(p.number.0, p.number.1) + s.subrange(p.fraction.0, p.fraction.1)
}

/// What the digits of a term's number are to be divided by: ten to the
/// number of digits behind the point.
pub open spec fn piece_scale(p: Piece) -> nat {
    pow10((p.fraction.1 - p.fraction.0) as nat)
}

/// The term's number can be read within the limits.
pub open spec fn piece_fits(s: Seq<char>, p: Piece) -> bool {
    decimal_value(piece_digits(s, p)) <= LIMIT && piece_scale(p) <= LIMIT
}

/// The coefficient that a term stands for: its number with its sign; one
/// where no number is written.
pub open spec fn piece_coefficient(s: Seq<char>, p: Piece) -> Ratio {
    let size = if p.number.0 == p.number.1 {
        Ratio::one()
    } else {
        Ratio::reduced(decimal_value(piece_digits(s, p)) as int, piece_scale(p) as int)
    };
    if p.negative {
        size.neg()
    } else {
        size
    }
}

/// The expression that a term stands for.
pub open spec fn piece_linear(s: Seq<char>, p: Piece) -> Linear {
    if p.name.0 == p.name.1 {
        Linear::constant_of(piece_coefficient(s, p))
    } else {
        Linear::variable(s.subrange(p.name.0, p.name.1)).scale(piece_coefficient(s, p))
    }
}

/// The sum of the terms.
pub open spec fn pieces_linear(s: Seq<char>, pieces: Seq<Piece>) -> Linear
    decreases pieces.len(),
{
    if pieces.len() == 0 {
        Linear::zero()
    } else {
        pieces_linear(s, pieces.drop_last()).plus(piece_linear(s, pieces.last()))
    }
}

/// Every number of the terms, and of their sums from the first term on,
/// can be held.
pub open spec fn pieces_fit(s: Seq<char>, pieces: Seq<Piece>) -> bool
    decreases pieces.len(),
{
    pieces.len() == 0 || {
        &&& pieces_fit(s, pieces.drop_last())
        &&& piece_fits(s, pieces.last())
        &&& piece_linear(s, pieces.last()).fits()
        &&& pieces_linear(s, pieces).fits()
    }
}

/// What reading an expression gives: the sum of its terms; a parse error
/// where the text is no expression; an overflow where a number is out of
/// range.
pub open spec fn expression_outcome(s: Seq<char>) -> Result<Linear, SimplexError> {
    match scan_terms(s, 0, true) {
        None => Err(SimplexError::ParseError),
        Some(pieces) => if pieces_fit(s, pieces) {
            Ok(pieces_linear(s, pieces))
        } else {
            Err(SimplexError::Overflow)
        },
    }
}

/// What reading a constraint gives: the constraint in canonical form.
pub open spec fn constraint_outcome(s: Seq<char>) -> Result<Row, SimplexError> {
    let at = run_end(s, 0, Class::Side);
    if at >= s.len() {
        Err(SimplexError::ParseError)
    } else {
        let two = at + 1 < s.len() && s[at] != '=' && s[at + 1] == '=';
        let operator = if s[at] == '=' {
            Operator::Equal
        } else if s[at] == '<' {
            if two {
                Operator::LessEqual
            } else {
                Operator::Less
            }
        } else {
            if two {
                Operator::GreaterEqual
            } else {
                Operator::Greater
            }
        };
        let after = if two {
            at + 2
        } else {
            at + 1
        };
        match expression_outcome(s.subrange(0, at)) {
            Err(e) => Err(e),
            Ok(left) => match expression_outcome(s.subrange(after, s.len() as int)) {
                Err(e) => Err(e),
                Ok(right) => if operator == Operator::Equal && !left.minus(right).fits() {
                    Err(SimplexError::Overflow)
                } else {
                    Ok(Row::canonical(left, operator, right))
                },
            },
        }
    }
}

/// What reading the lines from `from` on gives, added to a tableau.
pub open spec fn compile_from(t: Tableau, s: Seq<char>, from: int) -> Result<Tableau, SimplexError>
    decreases s.len() - from,
{
    if from < 0 || from >= s.len() {
        Ok(t)
    } else {
        let end = run_end(s, from, Class::Line);
        let line = s.subrange(from, end);
        let added = if run_end(line, 0, Class::Space) >= line.len() {
            Ok(t)
        } else {
            match constraint_outcome(line) {
                Err(e) => Err(e),
                Ok(row) => t.add_outcome(row),
            }
        };
        match added {
            Err(e) => Err(e),
            Ok(next) => if from <= end < s.len() {
                compile_from(next, s, end + 1)
            } else {
                Ok(next)
            },
        }
    }
}

/// What reading a tableau gives: a row for each line that is not blank.
pub open spec fn compile_outcome(s: Seq<char>) -> Result<Tableau, SimplexError> {
    compile_from(Tableau { rows: Seq::empty() }, s, 0)
}

/// What the two texts of a program give: the text of the objective, which
/// starts with the word `max` or the word `min`, and the text of the
/// constraints. None where the first word is neither, or where the rest is
/// no expression, or where the constraints are no tableau.
pub open spec fn input_outcome(objective: Seq<char>, constraints: Seq<char>) -> Option<Stepper> {
    let from = run_end(objective, 0, Class::Space);
    let to = run_end(objective, from, Class::Word);
    let command = objective.subrange(from, to);
    let rest = objective.subrange(to, objective.len() as int);
    if command != seq!['m', 'a', 'x'] && command != seq!['m', 'i', 'n'] {
        None
    } else {
        match (expression_outcome(rest), compile_outcome(constraints)) {
            (Ok(function), Ok(tableau)) => Some(
                Stepper::start(
                    Program {
                        objective: if command == seq!['m', 'a', 'x'] {
                            function
                        } else {
                            function.neg()
                        },
                        tableau,
                    },
                ),
            ),
            _ => None,
        }
    }
}

proof fn lemma_decimal_monotone(a: Seq<char>, b: Seq<char>)
    ensures
        decimal_value(a) <= decimal_value(a + b),
    decreases b.len(),
{
    if b.len() == 0 {
        assert(a + b =~= a);
    } else {
        lemma_decimal_monotone(a, b.drop_last());
        assert((a + b).drop_last() =~= a + b.drop_last());
    }
}

proof fn lemma_pow10_monotone(a: nat, b: nat)
    requires
        a <= b,
    ensures
        1 <= pow10(a) <= pow10(b),
    decreases b,
{
    if b > 0 {
        if a < b {
            lemma_pow10_monotone(a, (b - 1) as nat);
        } else {
            lemma_pow10_monotone((a - 1) as nat, (b - 1) as nat);
        }
    }
}

proof fn lemma_pieces_fit_prefix(s: Seq<char>, pieces: Seq<Piece>, k: int)
    requires
        0 <= k <= pieces.len(),
        pieces_fit(s, pieces),
    ensures
        pieces_fit(s, pieces.take(k)),
    decreases pieces.len(),
{
    if k == pieces.len() {
        assert(pieces.take(k) =~= pieces);
    } else {
        lemma_pieces_fit_prefix(s, pieces.drop_last(), k);
        assert(pieces.drop_last().take(k) =~= pieces.take(k));
    }
}

/// The number that a row of digits stands for, where it is within the limits.
fn digits_value(digits: &Vec<char>) -> (r: Option<u64>)
    requires
        forall|i: int| 0 <= i < digits@.len() ==> is_digit(#[trigger] digits@[i]),
    ensures
        match r {
            Some(v) => v == decimal_value(digits@) && v <= LIMIT,
            None => decimal_value(digits@) > LIMIT,
        },
{
    let mut value: u64 = 0;
    let mut i: usize = 0;
    while i < digits.len()
        invariant
            i <= digits.len(),
            value == decimal_value(digits@.take(i as int)),
            value <= LIMIT,
            forall|k: int| 0 <= k < digits@.len() ==> is_digit(#[trigger] digits@[k]),
        decreases digits.len() - i,
    {
        let c = digits[i];
        assert(is_digit(digits@[i as int]));
        let d: u64 = (c as u32 - 48) as u64;
        proof {
            assert(digits@.take(i + 1).drop_last() =~= digits@.take(i as int));
            assert(digits@.take(i + 1).last() == c);
            assert(digits@ =~= digits@.take(i + 1) + digits@.skip(i + 1));
            lemma_decimal_monotone(digits@.take(i + 1), digits@.skip(i + 1));
        }
        if value > (LIMIT as u64 - d) / 10 {
            return None;
        }
        value = value * 10 + d;
        i += 1;
    }
    proof {
        assert(digits@.take(i as int) =~= digits@);
    }
    Some(value)
}

/// Ten to the power of `n`, where it is within the limits.
fn power_of_ten(n: usize) -> (r: Option<u64>)
    ensures
        match r {
            Some(v) => v == pow10(n as nat) && 1 <= v <= LIMIT,
            None => pow10(n as nat) > LIMIT,
        },
{
    let mut value: u64 = 1;
    let mut i: usize = 0;
    while i < n
        invariant
            i <= n,
            value == pow10(i as nat),
            1 <= value <= LIMIT,
        decreases n - i,
    {
        if value > LIMIT as u64 / 10 {
            proof {
                lemma_pow10_monotone((i + 1) as nat, n as nat);
            }
            return None;
        }
        value = value * 10;
        i += 1;
    }
    Some(value)
}

/// The piece lies in the text, its parts in order, its number made of digits.
pub open spec fn piece_in(s: Seq<char>, p: Piece) -> bool {
    &&& 0 <= p.number.0 <= p.number.1 <= p.fraction.0 <= p.fraction.1 <= p.name.0 <= p.name.1
        <= s.len()
    &&& p.number.0 == p.number.1 ==> p.fraction.0 == p.fraction.1
    &&& forall|i: int| p.number.0 <= i < p.number.1 ==> is_digit(#[trigger] s[i])
    &&& forall|i: int| p.fraction.0 <= i < p.fraction.1 ==> is_digit(#[trigger] s[i])
}

/// The coefficient that the term stands for, where its number is within
/// the limits.
fn read_coefficient(chars: &Vec<char>, piece: &PieceAt) -> (r: Option<Rational>)
    requires
        piece_in(chars@, piece@),
    ensures
        match r {
            Some(c) => c.wf() && c@ == piece_coefficient(chars@, piece@) && piece_fits(
                chars@,
                piece@,
            ),
            None => !piece_fits(chars@, piece@),
        },
{
    let size = if piece.number_from == piece.number_to {
        proof {
            assert(piece_digits(chars@, piece@) =~= Seq::empty());
            lemma_zero_wf();
        }
        Rational::one()
    } else {
        let mut digits = part_of(chars, piece.number_from, piece.number_to);
        let mut i: usize = piece.fraction_from;
        while i < piece.fraction_to
            invariant
                piece.fraction_from <= i <= piece.fraction_to <= chars.len(),
                digits@ == chars@.subrange(piece.number_from as int, piece.number_to as int)
                    + chars@.subrange(piece.fraction_from as int, i as int),
            decreases piece.fraction_to - i,
        {
            digits.push(chars[i]);
            proof {
                assert(digits@ =~= chars@.subrange(piece.number_from as int, piece.number_to as int)
                    + chars@.subrange(piece.fraction_from as int, i + 1));
            }
            i += 1;
        }
        let top = match digits_value(&digits) {
            Some(top) => top,
            None => {
                return None;
            },
        };
        let bottom = match power_of_ten(piece.fraction_to - piece.fraction_from) {
            Some(bottom) => bottom,
            None => {
                return None;
            },
        };
        proof {
            lemma_reduced(top as int, bottom as int);
        }
        match Rational::new(top as i64, bottom as i64) {
            Some(size) => size,
            None => {
                // In lowest terms the number is no larger than as written.
                assert(false);
                return None;
            },
        }
    };
    if piece.negative {
        Some(size.negate())
    } else {
        Some(size)
    }
}

/// The characters from `from` up to `to`, as a string.
fn text_of(chars: &Vec<char>, from: usize, to: usize) -> (r: String)
    requires
        from <= to <= chars.len(),
    ensures
        r@ == chars@.subrange(from as int, to as int),
{
    let mut text = String::new();
    let mut i: usize = from;
    while i < to
        invariant
            from <= i <= to <= chars.len(),
            text@ == chars@.subrange(from as int, i as int),
        decreases to - i,
    {
        text.push(chars[i]);
        proof {
            assert(text@ =~= chars@.subrange(from as int, i + 1));
        }
        i += 1;
    }
    text
}

/// The expression that the term stands for, where its numbers are within
/// the limits.
fn read_piece(chars: &Vec<char>, piece: &PieceAt) -> (r: Option<LinearFunction>)
    requires
        piece_in(chars@, piece@),
    ensures
        match r {
            Some(f) => f.wf() && f@ == piece_linear(chars@, piece@) && piece_fits(chars@, piece@),
            None => !(piece_fits(chars@, piece@) && piece_linear(chars@, piece@).fits()),
        },
{
    let coefficient = match read_coefficient(chars, piece) {
        Some(coefficient) => coefficient,
        None => {
            return None;
        },
    };
    if piece.name_from == piece.name_to {
        Some(LinearFunction::from_constant(coefficient))
    } else {
        let name = text_of(chars, piece.name_from, piece.name_to);
        match LinearFunction::variable(name.as_str()).scale(&coefficient) {
            Ok(f) => Some(f),
            Err(_) => None,
        }
    }
}

/// The pieces that `scan_terms` finds lie in the text.
proof fn lemma_scan_terms(s: Seq<char>, start: int, first: bool)
    requires
        0 <= start <= s.len(),
    ensures
        match scan_terms(s, start, first) {
            None => true,
            Some(pieces) => forall|i: int| 0 <= i < pieces.len() ==> piece_in(s, #[trigger] pieces[i]),
        },
    decreases s.len() - start,
{
    lemma_scan_term(s, start, first);
    match scan_term(s, start, first) {
        None => {},
        Some(piece) => {
            if piece.end <= start || piece.end > s.len() {
            } else if run_end(s, piece.end, Class::Space) >= s.len() {
            } else {
                lemma_scan_terms(s, piece.end, false);
            }
        },
    }
}

/// Reads a linear expression.
pub(crate) fn parse_expression(chars: &Vec<char>) -> (r: Result<LinearFunction, SimplexError>)
    ensures
        match r {
            Ok(f) => f.wf() && expression_outcome(chars@) == Ok::<Linear, SimplexError>(f@),
            Err(e) => expression_outcome(chars@) == Err::<Linear, SimplexError>(e),
        },
{
    let list = match read_terms(chars) {
        Some(list) => list,
        None => {
            return Err(SimplexError::ParseError);
        },
    };
    let ghost pieces = pieces_of(list@);
    proof {
        lemma_scan_terms(chars@, 0, true);
    }
    let mut sum = LinearFunction::zero();
    let mut i: usize = 0;
    proof {
        assert(pieces.take(0) =~= Seq::empty());
    }
    while i < list.len()
        invariant
            i <= list.len(),
            pieces == pieces_of(list@),
            scan_terms(chars@, 0, true) == Some(pieces),
            forall|k: int| 0 <= k < pieces.len() ==> piece_in(chars@, #[trigger] pieces[k]),
            sum.wf(),
            sum@ == pieces_linear(chars@, pieces.take(i as int)),
            pieces_fit(chars@, pieces.take(i as int)),
        decreases list.len() - i,
    {
        proof {
            assert(pieces[i as int] == list@[i as int]@);
            assert(pieces.take(i + 1).drop_last() =~= pieces.take(i as int));
            assert(pieces.take(i + 1).last() == pieces[i as int]);
            if pieces_fit(chars@, pieces) {
                lemma_pieces_fit_prefix(chars@, pieces, i + 1);
            }
        }
        let term = match read_piece(chars, &list[i]) {
            Some(term) => term,
            None => {
                return Err(SimplexError::Overflow);
            },
        };
        sum = match sum.add(&term) {
            Ok(sum) => sum,
            Err(e) => {
                return Err(e);
            },
        };
        i += 1;
    }
    proof {
        assert(pieces.take(i as int) =~= pieces);
    }
    Ok(sum)
}

/// Reads a constraint: two expressions with a relation between them.
pub(crate) fn parse_constraint(chars: &Vec<char>) -> (r: Result<Constraint, SimplexError>)
    ensures
        match r {
            Ok(c) => c.wf() && constraint_outcome(chars@) == Ok::<Row, SimplexError>(c@),
            Err(e) => constraint_outcome(chars@) == Err::<Row, SimplexError>(e),
        },
{
    let n = chars.len();
    let at = skip(chars, 0, Class::Side);
    if at >= n {
        return Err(SimplexError::ParseError);
    }
    let two = at + 1 < n && chars[at] != '=' && chars[at + 1] == '=';
    let operator = if chars[at] == '=' {
        Operator::Equal
    } else if chars[at] == '<' {
        if two {
            Operator::LessEqual
        } else {
            Operator::Less
        }
    } else {
        if two {
            Operator::GreaterEqual
        } else {
            Operator::Greater
        }
    };
    let after = if two {
        at + 2
    } else {
        at + 1
    };
    let left = match parse_expression(&part_of(chars, 0, at)) {
        Ok(left) => left,
        Err(e) => {
            return Err(e);
        },
    };
    let right = match parse_expression(&part_of(chars, after, n)) {
        Ok(right) => right,
        Err(e) => {
            return Err(e);
        },
    };
    Constraint::new(left, operator, right)
}

impl LinearFunction {
    /// The expression that the text stands for.
    pub fn from_str(text: &str) -> (r: Result<LinearFunction, SimplexError>)
        ensures
            match r {
                Ok(f) => f.wf() && expression_outcome(text@) == Ok::<Linear, SimplexError>(f@),
                Err(e) => expression_outcome(text@) == Err::<Linear, SimplexError>(e),
            },
    {
        let chars = chars_of(text);
        parse_expression(&chars)
    }
}

impl Constraint {
    /// The constraint that the text stands for, in canonical form.
    pub fn from_str(text: &str) -> (r: Result<Constraint, SimplexError>)
        ensures
            match r {
                Ok(c) => c.wf() && constraint_outcome(text@) == Ok::<Row, SimplexError>(c@),
                Err(e) => constraint_outcome(text@) == Err::<Row, SimplexError>(e),
            },
    {
        let chars = chars_of(text);
        parse_constraint(&chars)
    }
}

impl Simplex {
    /// The simplex method at its start, on the program that the two texts
    /// stand for: the objective behind the word `max` or `min`, and the
    /// constraints, one on a line.
    pub fn from_input(objective: &str, constraints: &str) -> (r: Option<Simplex>)
        ensures
            match r {
                Some(s) => s.wf() && input_outcome(objective@, constraints@) == Some(s@),
                None => input_outcome(objective@, constraints@).is_none(),
            },
    {
        let chars = chars_of(objective);
        let from = skip(&chars, 0, Class::Space);
        let to = skip(&chars, from, Class::Word);
        let command = part_of(&chars, from, to);
        let is_max = command.len() == 3 && command[0] == 'm' && command[1] == 'a' && command[2]
            == 'x';
        let is_min = command.len() == 3 && command[0] == 'm' && command[1] == 'i' && command[2]
            == 'n';
        proof {
            if is_max {
                assert(command@ =~= seq!['m', 'a', 'x']);
            }
            if is_min {
                assert(command@ =~= seq!['m', 'i', 'n']);
            }
            if command@ == seq!['m', 'a', 'x'] {
                assert(command@.len() == 3 && command@[0] == 'm' && command@[1] == 'a'
                    && command@[2] == 'x');
            }
            if command@ == seq!['m', 'i', 'n'] {
                assert(command@.len() == 3 && command@[0] == 'm' && command@[1] == 'i'
                    && command@[2] == 'n');
            }
        }
        if !is_max && !is_min {
            return None;
        }
        let function = match parse_expression(&part_of(&chars, to, chars.len())) {
            Ok(function) => function,
            Err(_) => {
                return None;
            },
        };
        let rows = match Constraints::compile(constraints) {
            Ok(rows) => rows,
            Err(_) => {
                return None;
            },
        };
        if is_max {
            Some(rows.maximize(&function))
        } else {
            Some(rows.minimize(&function))
        }
    }
}

impl Constraints {
    /// The tableau that the text stands for: a row for each line that is
    /// not blank, in the order of the lines.
    pub fn compile(text: &str) -> (r: Result<Constraints, SimplexError>)
        ensures
            match r {
                Ok(c) => c.wf() && compile_outcome(text@) == Ok::<Tableau, SimplexError>(c@),
                Err(e) => compile_outcome(text@) == Err::<Tableau, SimplexError>(e),
            },
    {
        let chars = chars_of(text);
        let n = chars.len();
        let mut rows = Constraints::default();
        let mut from: usize = 0;
        proof {
            assert(rows@.rows =~= Seq::empty());
        }
        while from < n
            invariant
                n == chars.len(),
                chars@ == text@,
                rows.wf(),
                rows@.rows.len() <= from,
                compile_outcome(text@) == compile_from(rows@, chars@, from as int),
            decreases n - from,
        {
            let end = skip(&chars, from, Class::Line);
            let line = part_of(&chars, from, end);
            if skip(&line, 0, Class::Space) < line.len() {
                let constraint = match parse_constraint(&line) {
                    Ok(constraint) => constraint,
                    Err(e) => {
                        return Err(e);
                    },
                };
                match rows.add_constraint(constraint) {
                    Ok(()) => {},
                    Err(e) => {
                        return Err(e);
                    },
                }
            }
            if end >= n {
                return Ok(rows);
            }
            from = end + 1;
        }
        Ok(rows)
    }
}

} // verus!
