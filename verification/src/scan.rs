//! Reading the terms of a linear expression from text.
//!
//! An expression is written as terms with a sign before each; the sign of
//! the first term may be left out. A term is a number, a variable, or a
//! number before a variable. A number is written with decimal digits, and
//! may have a point and more digits behind it. A variable starts with a
//! letter and goes on with letters, digits and underscores. Blanks may stand
//! between signs, numbers and variables.

use vstd::prelude::*;

verus! {

/// The kinds of character that a piece of text is made of.
#[derive(Clone, Copy, Debug, PartialEq, Eq, Structural)]
pub enum Class {
    /// Blanks, tabs and line ends.
    Space,
    /// The decimal digits.
    Digit,
    /// What a variable's name may hold: letters, digits and the underscore.
    Name,
    /// Everything but the line end.
    Line,
    /// Everything but `<`, `>` and `=`.
    Side,
    /// Everything but blanks, tabs and line ends.
    Word,
}

/// A blank, a tab or a line end.
pub open spec fn is_space(c: char) -> bool {
    c == ' ' || c == '\t' || c == '\r' || c == '\n'
}

/// One of the decimal digits `0` to `9`.
pub open spec fn is_digit(c: char) -> bool {
    48 <= c as u32 <= 57
}

/// One of the letters `A` to `Z` and `a` to `z`.
pub open spec fn is_letter(c: char) -> bool {
    65 <= c as u32 <= 90 || 97 <= c as u32 <= 122
}

/// The number that a decimal digit stands for.
pub open spec fn digit_value(c: char) -> nat {
    (c as u32 - 48) as nat
}

/// The character is of the class.
pub open spec fn in_class(class: Class, c: char) -> bool {
    match class {
        Class::Space => is_space(c),
        Class::Digit => is_digit(c),
        Class::Name => is_letter(c) || is_digit(c) || c == '_',
        Class::Line => c != '\n',
        Class::Side => c != '<' && c != '>' && c != '=',
        Class::Word => !is_space(c),
    }
}

/// The place behind the longest run of characters of the class that
/// starts at `from`.
pub open spec fn run_end(s: Seq<char>, from: int, class: Class) -> int
    decreases s.len() - from,
{
    if 0 <= from < s.len() && in_class(class, s[from]) {
        run_end(s, from + 1, class)
    } else {
        from
    }
}

/// A run ends in the text, holds characters of its class only, and is
/// not followed by one.
pub proof fn lemma_run_end(s: Seq<char>, from: int, class: Class)
    requires
        0 <= from <= s.len(),
    ensures
        from <= run_end(s, from, class) <= s.len(),
        run_end(s, from, class) < s.len() ==> !in_class(class, s[run_end(s, from, class)]),
        forall|i: int| from <= i < run_end(s, from, class) ==> in_class(class, #[trigger] s[i]),
    decreases s.len() - from,
{
    if from < s.len() && in_class(class, s[from]) {
        lemma_run_end(s, from + 1, class);
    }
}

/// One term as it stands in the text: its sign, and where its number, the
/// digits behind the point, and its variable begin and end.
pub struct Piece {
    pub negative: bool,
    pub number: (int, int),
    pub fraction: (int, int),
    pub name: (int, int),
    pub end: int,
}

/// The term that starts at `start`; the first term of an expression needs
/// no sign.
pub open spec fn scan_term(s: Seq<char>, start: int, first: bool) -> Option<Piece> {
    let p0 = run_end(s, start, Class::Space);
    let signed = p0 < s.len() && (s[p0] == '+' || s[p0] == '-');
    if !signed && !first {
        None
    } else {
        let negative = signed && s[p0] == '-';
        let p1 = run_end(
            s,
            if signed {
                p0 + 1
            } else {
                p0
            },
            Class::Space,
        );
        let d1 = run_end(s, p1, Class::Digit);
        let dotted = d1 > p1 && d1 < s.len() && s[d1] == '.';
        let d2 = if dotted {
            run_end(s, d1 + 1, Class::Digit)
        } else {
            d1
        };
        if dotted && d2 == d1 + 1 {
            None
        } else {
            let p2 = run_end(s, d2, Class::Space);
            let named = p2 < s.len() && is_letter(s[p2]);
            let end = if named {
                run_end(s, p2, Class::Name)
            } else {
                d2
            };
            if d1 == p1 && !named {
                None
            } else {
                Some(
                    Piece {
                        negative,
                        number: (p1, d1),
                        fraction: (
                            if dotted {
                                d1 + 1
                            } else {
                                d1
                            },
                            d2,
                        ),
                        name: (
                            if named {
                                p2
                            } else {
                                end
                            },
                            end,
                        ),
                        end,
                    },
                )
            }
        }
    }
}

/// The terms of the expression that starts at `start` and goes to the end
/// of the text; none where the text is no expression.
pub open spec fn scan_terms(s: Seq<char>, start: int, first: bool) -> Option<Seq<Piece>>
    decreases s.len() - start,
{
    match scan_term(s, start, first) {
        None => None,
        Some(piece) => if piece.end <= start || piece.end > s.len() {
            None
        } else if run_end(s, piece.end, Class::Space) >= s.len() {
            Some(seq![piece])
        } else {
            match scan_terms(s, piece.end, false) {
                None => None,
                Some(rest) => Some(seq![piece] + rest),
            }
        },
    }
}

/// A term that `scan_term` finds lies in the text behind `start`, its
/// parts in order.
pub proof fn lemma_scan_term(s: Seq<char>, start: int, first: bool)
    requires
        0 <= start <= s.len(),
    ensures
        match scan_term(s, start, first) {
            None => true,
            Some(p) => {
                &&& start <= p.number.0 <= p.number.1 <= p.fraction.0 <= p.fraction.1 <= p.name.0
                    <= p.name.1 == p.end <= s.len()
                &&& start < p.end
                &&& p.number.0 == p.number.1 ==> p.fraction.0 == p.fraction.1 && p.name.0 < p.name.1
                &&& forall|i: int| p.number.0 <= i < p.number.1 ==> is_digit(#[trigger] s[i])
                &&& forall|i: int| p.fraction.0 <= i < p.fraction.1 ==> is_digit(#[trigger] s[i])
            },
        },
{
    let p0 = run_end(s, start, Class::Space);
    lemma_run_end(s, start, Class::Space);
    let signed = p0 < s.len() && (s[p0] == '+' || s[p0] == '-');
    let after = if signed {
        p0 + 1
    } else {
        p0
    };
    let p1 = run_end(s, after, Class::Space);
    lemma_run_end(s, after, Class::Space);
    let d1 = run_end(s, p1, Class::Digit);
    lemma_run_end(s, p1, Class::Digit);
    let dotted = d1 > p1 && d1 < s.len() && s[d1] == '.';
    if dotted {
        lemma_run_end(s, d1 + 1, Class::Digit);
    }
    let d2 = if dotted {
        run_end(s, d1 + 1, Class::Digit)
    } else {
        d1
    };
    let p2 = run_end(s, d2, Class::Space);
    lemma_run_end(s, d2, Class::Space);
    if p2 < s.len() {
        lemma_run_end(s, p2, Class::Name);
        if is_letter(s[p2]) {
            assert(in_class(Class::Name, s[p2]));
            assert(run_end(s, p2, Class::Name) == run_end(s, p2 + 1, Class::Name));
            lemma_run_end(s, p2 + 1, Class::Name);
        }
    }
}

/// A term in the text, with places as machine integers.
#[derive(Clone, Copy, Debug)]
pub struct PieceAt {
    pub negative: bool,
    pub number_from: usize,
    pub number_to: usize,
    pub fraction_from: usize,
    pub fraction_to: usize,
    pub name_from: usize,
    pub name_to: usize,
}

impl View for PieceAt {
    type V = Piece;

    open spec fn view(&self) -> Piece {
        Piece {
            negative: self.negative,
            number: (self.number_from as int, self.number_to as int),
            fraction: (self.fraction_from as int, self.fraction_to as int),
            name: (self.name_from as int, self.name_to as int),
            end: self.name_to as int,
        }
    }
}

/// The terms that a list of pieces holds.
pub open spec fn pieces_of(list: Seq<PieceAt>) -> Seq<Piece> {
    list.map_values(|p: PieceAt| p@)
}

/// The characters of the text.
pub(crate) fn chars_of(text: &str) -> (r: Vec<char>)
    ensures
        r@ == text@,
{
    let n = text.unicode_len();
    let mut chars: Vec<char> = Vec::new();
    let mut i: usize = 0;
    while i < n
        invariant
            i <= n,
            n == text@.len(),
            chars@ == text@.subrange(0, i as int),
        decreases n - i,
    {
        chars.push(text.get_char(i));
        proof {
            assert(chars@ =~= text@.subrange(0, i + 1));
        }
        i += 1;
    }
    proof {
        assert(chars@ =~= text@);
    }
    chars
}

/// The characters from `from` up to `to`.
pub(crate) fn part_of(chars: &Vec<char>, from: usize, to: usize) -> (r: Vec<char>)
    requires
        from <= to <= chars.len(),
    ensures
        r@ == chars@.subrange(from as int, to as int),
{
    let mut part: Vec<char> = Vec::new();
    let mut i: usize = from;
    while i < to
        invariant
            from <= i <= to <= chars.len(),
            part@ == chars@.subrange(from as int, i as int),
        decreases to - i,
    {
        part.push(chars[i]);
        proof {
            assert(part@ =~= chars@.subrange(from as int, i + 1));
        }
        i += 1;
    }
    part
}

/// Whether the character is of the class.
pub(crate) fn is_of(class: Class, c: char) -> (b: bool)
    ensures
        b == in_class(class, c),
{
    let code: u32 = c as u32;
    let digit = 48 <= code && code <= 57;
    let letter = (65 <= code && code <= 90) || (97 <= code && code <= 122);
    match class {
        Class::Space => c == ' ' || c == '\t' || c == '\r' || c == '\n',
        Class::Digit => digit,
        Class::Name => letter || digit || c == '_',
        Class::Line => c != '\n',
        Class::Side => c != '<' && c != '>' && c != '=',
        Class::Word => !(c == ' ' || c == '\t' || c == '\r' || c == '\n'),
    }
}

/// The place behind the longest run of characters of the class that
/// starts at `from`.
pub(crate) fn skip(chars: &Vec<char>, from: usize, class: Class) -> (r: usize)
    requires
        from <= chars.len(),
    ensures
        r == run_end(chars@, from as int, class),
        from <= r <= chars.len(),
{
    let mut i: usize = from;
    while i < chars.len() && is_of(class, chars[i])
        invariant
            from <= i <= chars.len(),
            run_end(chars@, from as int, class) == run_end(chars@, i as int, class),
        decreases chars.len() - i,
    {
        i += 1;
    }
    i
}

/// The term that starts at `start`.
pub(crate) fn read_term(chars: &Vec<char>, start: usize, first: bool) -> (r: Option<PieceAt>)
    requires
        start <= chars.len(),
    ensures
        match r {
            Some(p) => scan_term(chars@, start as int, first) == Some(p@),
            None => scan_term(chars@, start as int, first).is_none(),
        },
{
    let n = chars.len();
    let p0 = skip(chars, start, Class::Space);
    let signed = p0 < n && (chars[p0] == '+' || chars[p0] == '-');
    if !signed && !first {
        return None;
    }
    let negative = signed && chars[p0] == '-';
    let after = if signed {
        p0 + 1
    } else {
        p0
    };
    let p1 = skip(chars, after, Class::Space);
    let d1 = skip(chars, p1, Class::Digit);
    let dotted = d1 > p1 && d1 < n && chars[d1] == '.';
    let d2 = if dotted {
        skip(chars, d1 + 1, Class::Digit)
    } else {
        d1
    };
    if dotted && d2 == d1 + 1 {
        return None;
    }
    let p2 = skip(chars, d2, Class::Space);
    let named = p2 < n && is_of(Class::Name, chars[p2]) && !is_of(Class::Digit, chars[p2])
        && chars[p2] != '_';
    let end = if named {
        skip(chars, p2, Class::Name)
    } else {
        d2
    };
    if d1 == p1 && !named {
        return None;
    }
    Some(
        PieceAt {
            negative,
            number_from: p1,
            number_to: d1,
            fraction_from: if dotted {
                d1 + 1
            } else {
                d1
            },
            fraction_to: d2,
            name_from: if named {
                p2
            } else {
                end
            },
            name_to: end,
        },
    )
}

/// The terms of the expression that the text is; none where it is no
/// expression.
pub(crate) fn read_terms(chars: &Vec<char>) -> (r: Option<Vec<PieceAt>>)
    ensures
        match r {
            Some(list) => scan_terms(chars@, 0, true) == Some(pieces_of(list@)),
            None => scan_terms(chars@, 0, true).is_none(),
        },
{
    let n = chars.len();
    let mut list: Vec<PieceAt> = Vec::new();
    let mut at: usize = 0;
    let mut first = true;
    loop
        invariant
            at <= n,
            n == chars.len(),
            scan_terms(chars@, 0, true) == match scan_terms(chars@, at as int, first) {
                None => None::<Seq<Piece>>,
                Some(rest) => Some(pieces_of(list@) + rest),
            },
        decreases n - at,
    {
        let ghost done = pieces_of(list@);
        proof {
            lemma_scan_term(chars@, at as int, first);
        }
        match read_term(chars, at, first) {
            None => {
                return None;
            },
            Some(piece) => {
                list.push(piece);
                proof {
                    assert(pieces_of(list@) =~= done + seq![piece@]);
                }
                if skip(chars, piece.name_to, Class::Space) >= n {
                    return Some(list);
                }
                proof {
                    let rest = scan_terms(chars@, piece.name_to as int, false);
                    if rest.is_some() {
                        assert(done + (seq![piece@] + rest.unwrap()) =~= pieces_of(list@)
                            + rest.unwrap());
                    }
                }
                at = piece.name_to;
                first = false;
            },
        }
    }
}

} // verus!
