//! The grammar of expressions, as functions on the characters of a text.
//!
//! ```text
//! digit      = [0-9]
//! number     = "-"? digit+ ("." digit+)? (("e" | "E") digit+)?
//! value      = "-"? "(" expression ")" | number
//! power      = value ("^" value)?
//! quotient   = power (("/" | "÷") power)*
//! product    = quotient (("*" | "×") quotient)*
//! difference = product ("-" product)*
//! sum        = difference ("+" difference)*
//! expression = sum
//! ```
//!
//! Addition binds loosest, then subtraction, multiplication, division and
//! exponentiation. Whitespace may stand before every value and every
//! operator. A number with a point or an exponent is a decimal, any other an
//! integer.
//!
//! Every function here reads the characters `rest` from the index `k` on.
//! `rest` is the text from the position `origin`, so that the character at
//! index `k` stands at the position that consuming the first `k` characters
//! leads to from `origin`. A function that succeeds gives the index after
//! what it has read.

use vstd::prelude::*;
use crate::expression::error::ParsingError;
use crate::expression::node::{ChainKind, NodeView};
use crate::expression::numeral::{decimal_of, integer_of};
use crate::expression::position::ParsePosition;
use crate::expression::value::SignType;
use crate::scan::context::ScanPosition;

verus! {

/// The classes of characters that the grammar scans runs of.
#[derive(Debug, Clone, Copy, PartialEq, Eq, Structural)]
pub enum CharClass {
    /// Space, tab, line feed, form feed and carriage return.
    Space,
    /// The ten digits.
    Digit,
    /// Every character.
    Any,
}

impl CharClass {
    /// The character `c` belongs to the class.
    pub open spec fn accepts(self, c: char) -> bool {
        match self {
            CharClass::Space => c == ' ' || c == '\t' || c == '\n' || c == '\x0C' || c == '\r',
            CharClass::Digit => '0' <= c <= '9',
            CharClass::Any => true,
        }
    }
}

impl ChainKind {
    /// How loosely the operator of the chain binds: the operands of a chain
    /// are chains of the next lower level, or powers at level one.
    pub open spec fn level(self) -> int {
        match self {
            ChainKind::Quotient => 1,
            ChainKind::Product => 2,
            ChainKind::Difference => 3,
            ChainKind::Sum => 4,
        }
    }

    /// The character `c` is an operator of the chain.
    pub open spec fn operator(self, c: char) -> bool {
        match self {
            ChainKind::Sum => c == '+',
            ChainKind::Difference => c == '-',
            ChainKind::Product => c == '*' || c == '×',
            ChainKind::Quotient => c == '/' || c == '÷',
        }
    }
}

/// What reading an expression gives: the index after it and its tree, or an
/// error.
pub type Parsed = Result<(int, NodeView), ParsingError>;

/// The position of the character at index `k`.
pub open spec fn place(rest: Seq<char>, origin: ScanPosition, k: int) -> ScanPosition {
    origin.advance(rest.take(k))
}

/// The span from the character at index `from` up to the one at index `to`.
pub open spec fn span(rest: Seq<char>, origin: ScanPosition, from: int, to: int) -> ParsePosition {
    ParsePosition::span(place(rest, origin, from), place(rest, origin, to))
}

/// The character at index `k` is `c`.
pub open spec fn at(rest: Seq<char>, k: int, c: char) -> bool {
    0 <= k < rest.len() && rest[k] == c
}

/// The character at index `k` is an operator of a chain of the given kind.
pub open spec fn operator_at(kind: ChainKind, rest: Seq<char>, k: int) -> bool {
    0 <= k < rest.len() && kind.operator(rest[k])
}

/// The index after the run of characters of the given class that starts at
/// index `k`.
pub open spec fn run_end(rest: Seq<char>, k: int, class: CharClass) -> int
    decreases rest.len() - k,
{
    if 0 <= k < rest.len() && class.accepts(rest[k]) {
        run_end(rest, k + 1, class)
    } else {
        k
    }
}

/// The index after the whitespace that starts at index `k`.
pub open spec fn spaces(rest: Seq<char>, k: int) -> int {
    run_end(rest, k, CharClass::Space)
}

/// A run ends at or after its start and within the text, and consists of
/// characters of its class up to a character that is not, or the end.
pub proof fn lemma_run_end(rest: Seq<char>, k: int, class: CharClass)
    requires
        0 <= k <= rest.len(),
    ensures
        k <= run_end(rest, k, class) <= rest.len(),
        forall|i: int| k <= i < run_end(rest, k, class) ==> class.accepts(#[trigger] rest[i]),
        run_end(rest, k, class) < rest.len() ==> !class.accepts(rest[run_end(rest, k, class)]),
    decreases rest.len() - k,
{
    if k < rest.len() && class.accepts(rest[k]) {
        lemma_run_end(rest, k + 1, class);
    }
}

/// A stretch of characters of a class that is followed by a character that
/// is not of it, or by the end, is the run that starts where it starts.
pub proof fn lemma_run_end_unique(rest: Seq<char>, k: int, class: CharClass, end: int)
    requires
        0 <= k <= end <= rest.len(),
        forall|i: int| k <= i < end ==> class.accepts(#[trigger] rest[i]),
        end < rest.len() ==> !class.accepts(rest[end]),
    ensures
        run_end(rest, k, class) == end,
    decreases end - k,
{
    if k < end {
        lemma_run_end_unique(rest, k + 1, class, end);
    }
}

/// The error for something that is missing at index `at`, in an expression
/// that starts at index `start`: the end of the input where the text ends
/// there, else a number that cannot be read.
pub open spec fn missing(
    rest: Seq<char>,
    origin: ScanPosition,
    start: int,
    at: int,
) -> ParsingError {
    if at >= rest.len() {
        ParsingError::EndOfInput(span(rest, origin, start, at))
    } else {
        ParsingError::Number(span(rest, origin, start, at))
    }
}

/// The result `parsed` of reading from index `from` on, where it ends at or
/// after `from` and within the text; an unknown error where it does not.
pub open spec fn bounded(
    rest: Seq<char>,
    origin: ScanPosition,
    from: int,
    parsed: Parsed,
) -> Parsed {
    match parsed {
        Ok((end, node)) => if from <= end <= rest.len() {
            parsed
        } else {
            Err(ParsingError::Unknown(span(rest, origin, from, from)))
        },
        Err(error) => parsed,
    }
}

/// Reads a number: whitespace, an optional minus sign, digits, optionally a
/// point and digits, optionally `e` or `E` and digits.
pub open spec fn number(rest: Seq<char>, origin: ScanPosition, k: int) -> Parsed {
    let start = spaces(rest, k);
    let negative = at(rest, start, '-');
    let whole_start = if negative {
        start + 1
    } else {
        start
    };
    let whole_end = run_end(rest, whole_start, CharClass::Digit);
    let point = at(rest, whole_end, '.');
    let fraction_start = if point {
        whole_end + 1
    } else {
        whole_end
    };
    let fraction_end = if point {
        run_end(rest, fraction_start, CharClass::Digit)
    } else {
        fraction_start
    };
    let mark = at(rest, fraction_end, 'e') || at(rest, fraction_end, 'E');
    let power_start = if mark {
        fraction_end + 1
    } else {
        fraction_end
    };
    let power_end = if mark {
        run_end(rest, power_start, CharClass::Digit)
    } else {
        power_start
    };
    let position = span(rest, origin, start, power_end);
    if whole_end == whole_start {
        Err(missing(rest, origin, start, whole_start))
    } else if point && fraction_end == fraction_start {
        Err(missing(rest, origin, start, fraction_start))
    } else if mark && power_end == power_start {
        Err(missing(rest, origin, start, power_start))
    } else if point || mark {
        match decimal_of(
            negative,
            rest.subrange(whole_start, whole_end),
            rest.subrange(fraction_start, fraction_end),
            rest.subrange(power_start, power_end),
        ) {
            Some(value) => Ok((power_end, NodeView::Decimal { position, value })),
            None => Err(ParsingError::Number(position)),
        }
    } else {
        match integer_of(negative, rest.subrange(whole_start, whole_end)) {
            Some(value) => Ok((power_end, NodeView::Integer { position, value })),
            None => Err(ParsingError::Number(position)),
        }
    }
}

/// Reads a value: a parenthesis with an optional minus sign in front of it,
/// or a number.
pub open spec fn value(rest: Seq<char>, origin: ScanPosition, k: int) -> Parsed
    decreases rest.len() - k, 0int,
    when 0 <= k <= rest.len()
{
    let start = spaces(rest, k);
    let negative = at(rest, start, '-');
    let open = if negative {
        start + 1
    } else {
        start
    };
    if at(rest, open, '(') {
        proof {
            lemma_run_end(rest, k, CharClass::Space);
        }
        match bounded(rest, origin, open + 1, chain(ChainKind::Sum, rest, origin, open + 1)) {
            Err(error) => Err(error),
            Ok((end, inner)) => {
                let close = spaces(rest, end);
                if at(rest, close, ')') {
                    Ok(
                        (
                            close + 1,
                            NodeView::Parenthesis {
                                position: span(rest, origin, start, close + 1),
                                sign: if negative {
                                    SignType::Negative
                                } else {
                                    SignType::Positive
                                },
                                inner: Box::new(inner),
                            },
                        ),
                    )
                } else {
                    Err(missing(rest, origin, start, close))
                }
            },
        }
    } else {
        number(rest, origin, start)
    }
}

/// Reads a power: a value, optionally followed by `^` and a value.
pub open spec fn power(rest: Seq<char>, origin: ScanPosition, k: int) -> Parsed
    decreases rest.len() - k, 1int,
    when 0 <= k <= rest.len()
{
    let start = spaces(rest, k);
    proof {
        lemma_run_end(rest, k, CharClass::Space);
    }
    match bounded(rest, origin, start, value(rest, origin, start)) {
        Err(error) => Err(error),
        Ok((end, base)) => {
            let hat = spaces(rest, end);
            proof {
                lemma_run_end(rest, end, CharClass::Space);
            }
            if at(rest, hat, '^') {
                match bounded(rest, origin, hat + 1, value(rest, origin, hat + 1)) {
                    Err(error) => Err(error),
                    Ok((last, exponent)) => Ok(
                        (
                            last,
                            NodeView::Power {
                                position: span(rest, origin, start, last),
                                base: Box::new(base),
                                exponent: Box::new(exponent),
                            },
                        ),
                    ),
                }
            } else {
                Ok((end, base))
            }
        },
    }
}

/// Reads an operand of a chain of the given kind: a chain of the next lower
/// level, or a power.
pub open spec fn operand(kind: ChainKind, rest: Seq<char>, origin: ScanPosition, k: int) -> Parsed
    decreases rest.len() - k, 2 * kind.level(),
    when 0 <= k <= rest.len()
{
    match kind {
        ChainKind::Sum => chain(ChainKind::Difference, rest, origin, k),
        ChainKind::Difference => chain(ChainKind::Product, rest, origin, k),
        ChainKind::Product => chain(ChainKind::Quotient, rest, origin, k),
        ChainKind::Quotient => power(rest, origin, k),
    }
}

/// Reads a chain of the given kind: an operand, followed by any number of
/// operators of the chain, each with an operand. One operand alone is not
/// wrapped in a chain.
pub open spec fn chain(kind: ChainKind, rest: Seq<char>, origin: ScanPosition, k: int) -> Parsed
    decreases rest.len() - k, 2 * kind.level() + 1,
    when 0 <= k <= rest.len()
{
    let start = spaces(rest, k);
    proof {
        lemma_run_end(rest, k, CharClass::Space);
    }
    match bounded(rest, origin, start, operand(kind, rest, origin, start)) {
        Err(error) => Err(error),
        Ok((end, first)) => {
            let sign = spaces(rest, end);
            proof {
                lemma_run_end(rest, end, CharClass::Space);
            }
            if operator_at(kind, rest, sign) {
                match more(kind, rest, origin, sign + 1, seq![first]) {
                    Err(error) => Err(error),
                    Ok((last, operands)) => Ok(
                        (
                            last,
                            NodeView::Chain {
                                kind,
                                position: span(rest, origin, start, last),
                                operands,
                            },
                        ),
                    ),
                }
            } else {
                Ok((end, first))
            }
        },
    }
}

/// Reads the operands of a chain that follow an operator at index `k - 1`,
/// and appends them to `operands`.
pub open spec fn more(
    kind: ChainKind,
    rest: Seq<char>,
    origin: ScanPosition,
    k: int,
    operands: Seq<NodeView>,
) -> Result<(int, Seq<NodeView>), ParsingError>
    decreases rest.len() - k, 2 * kind.level() + 1,
    when 0 <= k <= rest.len()
{
    match bounded(rest, origin, k, operand(kind, rest, origin, k)) {
        Err(error) => Err(error),
        Ok((end, next)) => {
            let sign = spaces(rest, end);
            proof {
                lemma_run_end(rest, end, CharClass::Space);
            }
            if operator_at(kind, rest, sign) {
                more(kind, rest, origin, sign + 1, operands.push(next))
            } else {
                Ok((end, operands.push(next)))
            }
        },
    }
}

/// Reads an expression.
pub open spec fn expression(rest: Seq<char>, origin: ScanPosition, k: int) -> Parsed {
    chain(ChainKind::Sum, rest, origin, k)
}

/// Reads an expression that nothing but whitespace may follow.
pub open spec fn whole(rest: Seq<char>, origin: ScanPosition, k: int) -> Parsed {
    match expression(rest, origin, k) {
        Err(error) => Err(error),
        Ok((end, node)) => {
            let extra = spaces(rest, end);
            if extra < rest.len() {
                Err(ParsingError::ExtraInput(span(rest, origin, extra, rest.len() as int)))
            } else {
                Ok((end, node))
            }
        },
    }
}

} // verus!
