//! The parser: reads an expression from a text by recursive descent, with
//! the scanners of [`crate::scan::context`], and builds its syntax tree.
//!
//! What each function reads is laid down by the function of the same
//! purpose in [`crate::expression::grammar`]. A function that fails returns
//! the kind of the error and the span of the text that is at fault.

use vstd::prelude::*;
use crate::expression::error::ParsingError;
use crate::expression::grammar::{
    at, chain, expression, lemma_run_end, lemma_run_end_unique, missing, more, number, operand, operator_at, place, power, run_end, span, spaces, value, whole, CharClass, Parsed,
};
use crate::expression::node::{
    lemma_node_views, lemma_node_views_push, node_views, ChainKind, ExpressionNode, NodeView,
};
use crate::expression::numeral::{integer_from_digits, DecimalLiteral};
use crate::expression::position::ParsePosition;
use crate::expression::value::SignType;
use crate::scan::context::{
    accepted_run, collect_chars, common_prefix_len, lemma_advance_concat, lemma_advance_counts,
    lemma_advance_fits, live, scan_literal, scan_one_or_more_chars, scan_zero_or_more_chars,
    ScanContext, ScanPosition,
};
use crate::scan::text::{lemma_text_join, lemma_width_bounds, text_from, text_width};

verus! {

/// The text of `s` from the position `origin` on.
pub open spec fn text_at(s: Seq<char>, origin: ScanPosition) -> Seq<char> {
    text_from(s, origin.byte_index as int)
}

/// `position` is the position of the character at index `k` of the text of
/// `s` from `origin` on.
pub open spec fn anchored(s: Seq<char>, origin: ScanPosition, k: int, position: ScanPosition) -> bool {
    &&& origin.fits(s)
    &&& origin.byte_index <= text_width(s) <= usize::MAX
    &&& 0 <= k <= text_at(s, origin).len()
    &&& position == place(text_at(s, origin), origin, k)
}

/// The position of a character of the text from `origin` fits the text, the
/// text from it is what follows the characters before it, and it lies at
/// the end of the text only after the last character.
pub proof fn lemma_anchored(s: Seq<char>, origin: ScanPosition, k: int)
    requires
        origin.fits(s),
        origin.byte_index <= text_width(s) <= usize::MAX,
        0 <= k <= text_at(s, origin).len(),
    ensures
        place(text_at(s, origin), origin, k).fits(s),
        origin.byte_index <= place(text_at(s, origin), origin, k).byte_index <= text_width(s),
        text_at(s, place(text_at(s, origin), origin, k)) == text_at(s, origin).skip(k),
        place(text_at(s, origin), origin, k).byte_index >= text_width(s) <==> k == text_at(
            s,
            origin,
        ).len(),
{
    let rest = text_at(s, origin);
    lemma_advance_fits(s, origin, k);
    lemma_advance_fits(s, origin, rest.len() as int);
    lemma_text_join(s, origin.byte_index as int);
    assert(rest.take(rest.len() as int) =~= rest);
    assert(rest =~= rest.take(k) + rest.skip(k));
    crate::scan::text::lemma_encode_concat(rest.take(k), rest.skip(k));
    crate::scan::text::lemma_encode_concat(text_before_origin(s, origin), rest);
    lemma_width_bounds(rest.skip(k));
}

/// The text of `s` before the position `origin`.
pub open spec fn text_before_origin(s: Seq<char>, origin: ScanPosition) -> Seq<char> {
    crate::scan::text::text_before(s, origin.byte_index as int)
}

/// Consuming `n` more characters from the position of the character at
/// index `k` leads to the position of the character at index `k + n`.
pub proof fn lemma_anchored_step(s: Seq<char>, origin: ScanPosition, k: int, n: int)
    requires
        origin.fits(s),
        origin.byte_index <= text_width(s) <= usize::MAX,
        0 <= k,
        0 <= n,
        k + n <= text_at(s, origin).len(),
    ensures
        place(text_at(s, origin), origin, k).advance(text_at(s, origin).skip(k).take(n)) == place(
            text_at(s, origin),
            origin,
            k + n,
        ),
{
    let rest = text_at(s, origin);
    lemma_advance_concat(origin, rest.take(k), rest.skip(k).take(n));
    assert(rest.take(k) + rest.skip(k).take(n) =~= rest.take(k + n));
}

/// `c` is a whitespace character.
pub fn is_space(c: char) -> (b: bool)
    ensures
        b == CharClass::Space.accepts(c),
{
    c == ' ' || c == '\t' || c == '\n' || c == '\x0C' || c == '\r'
}

/// `c` is a digit.
pub fn is_digit(c: char) -> (b: bool)
    ensures
        b == CharClass::Digit.accepts(c),
{
    '0' <= c && c <= '9'
}

/// Accepts every character.
pub fn is_any(c: char) -> (b: bool)
    ensures
        b == CharClass::Any.accepts(c),
{
    true
}

/// The run that a test for the characters of a class accepts is the run of
/// that class.
proof fn lemma_accepted_run<P: Fn(char) -> bool>(
    test: P,
    class: CharClass,
    rest: Seq<char>,
    k: int,
    n: int,
)
    requires
        0 <= k <= rest.len(),
        accepted_run(test, rest.skip(k), n),
        forall|c: char, b: bool| test.ensures((c,), b) ==> b == class.accepts(c),
    ensures
        run_end(rest, k, class) == k + n,
{
    let tail = rest.skip(k);
    assert forall|i: int| k <= i < k + n implies class.accepts(#[trigger] rest[i]) by {
        assert(tail[i - k] == rest[i]);
    }
    if k + n < rest.len() {
        assert(tail[n] == rest[k + n]);
    }
    lemma_run_end_unique(rest, k, class, k + n);
}

/// What scanning a run of a class gives in `context`: a failure at the same
/// position where the context is not live; else a match, unless the run is
/// empty and `required` is set, at the end of the run.
pub open spec fn scanned_run(
    s: Seq<char>,
    context: ScanContext,
    class: CharClass,
    required: bool,
) -> ScanContext {
    if !live(s, context) {
        (false, context.1)
    } else {
        let end = run_end(text_at(s, context.1), 0, class);
        (!required || end > 0, place(text_at(s, context.1), context.1, end))
    }
}

/// Scans over whitespace, of which there may be none.
pub fn scan_whitespace(s: &str, context: ScanContext) -> (result: ScanContext)
    requires
        context.1.fits(s@),
    ensures
        result == scanned_run(s@, context, CharClass::Space, false),
        result.1.fits(s@),
{
    let result = scan_zero_or_more_chars(s, context, is_space);
    proof {
        if live(s@, context) {
            let rest = text_at(s@, context.1);
            let n = choose|n: int|
                {
                    &&& #[trigger] accepted_run(is_space, rest, n)
                    &&& result.1 == context.1.advance(rest.take(n))
                };
            assert(rest.skip(0) =~= rest);
            lemma_accepted_run(is_space, CharClass::Space, rest, 0, n);
        }
    }
    result
}

/// Scans over digits, of which there must be one at least.
pub fn scan_digits(s: &str, context: ScanContext) -> (result: ScanContext)
    requires
        context.1.fits(s@),
    ensures
        result == scanned_run(s@, context, CharClass::Digit, true),
        result.1.fits(s@),
{
    let result = scan_one_or_more_chars(s, context, is_digit);
    proof {
        if live(s@, context) {
            let rest = text_at(s@, context.1);
            let n = choose|n: int|
                {
                    &&& #[trigger] accepted_run(is_digit, rest, n)
                    &&& result.0 == (n > 0)
                    &&& result.1 == context.1.advance(rest.take(n))
                };
            assert(rest.skip(0) =~= rest);
            lemma_accepted_run(is_digit, CharClass::Digit, rest, 0, n);
        }
    }
    result
}

/// Scans to the end of the text.
pub fn scan_to_end(s: &str, context: ScanContext) -> (result: ScanContext)
    requires
        context.1.fits(s@),
    ensures
        result == scanned_run(s@, context, CharClass::Any, false),
        result.1.fits(s@),
{
    let result = scan_zero_or_more_chars(s, context, is_any);
    proof {
        if live(s@, context) {
            let rest = text_at(s@, context.1);
            let n = choose|n: int|
                {
                    &&& #[trigger] accepted_run(is_any, rest, n)
                    &&& result.1 == context.1.advance(rest.take(n))
                };
            assert(rest.skip(0) =~= rest);
            lemma_accepted_run(is_any, CharClass::Any, rest, 0, n);
        }
    }
    result
}

/// What a scan that has to match gives: the context where it matched; else
/// the end of the input where the scan stopped there, or a number that
/// cannot be read, with the span from `start` to where the scan stopped.
pub open spec fn expected(
    s: Seq<char>,
    start: ScanPosition,
    context: ScanContext,
) -> Result<ScanContext, ParsingError> {
    if context.0 {
        Ok(context)
    } else if context.1.byte_index >= text_width(s) {
        Err(ParsingError::EndOfInput(ParsePosition::span(start, context.1)))
    } else {
        Err(ParsingError::Number(ParsePosition::span(start, context.1)))
    }
}

/// Passes on a context that matched, and turns one that did not into the
/// error that fits it.
pub fn expect_match(s: &str, start_position: ScanPosition, context: ScanContext) -> (result: Result<
    ScanContext,
    ParsingError,
>)
    ensures
        result == expected(s@, start_position, context),
{
    let (matched, position) = context;
    if !matched {
        if position.byte_index >= s.as_bytes().len() {
            Err(ParsingError::EndOfInput(ParsePosition::new(&start_position, &position)))
        } else {
            Err(ParsingError::Number(ParsePosition::new(&start_position, &position)))
        }
    } else {
        Ok(context)
    }
}

/// Skips whitespace; fails only in a context that is not live.
pub fn parse_whitespace(s: &str, context: ScanContext) -> (result: Result<ScanContext, ParsingError>)
    requires
        context.1.fits(s@),
    ensures
        result == expected(s@, context.1, scanned_run(s@, context, CharClass::Space, false)),
        result matches Ok(skipped) ==> skipped.1.fits(s@),
{
    expect_match(s, context.1, scan_whitespace(s, context))
}

/// Skips the whitespace at index `k`.
fn spaces_at(s: &str, position: ScanPosition, Ghost(origin): Ghost<ScanPosition>, Ghost(k): Ghost<int>) -> (end:
    ScanPosition)
    requires
        anchored(s@, origin, k, position),
    ensures
        anchored(s@, origin, spaces(text_at(s@, origin), k), end),
        k <= spaces(text_at(s@, origin), k),
{
    proof {
        lemma_anchored(s@, origin, k);
    }
    let result = scan_whitespace(s, (true, position));
    proof {
        let rest = text_at(s@, origin);
        lemma_run_end(rest, k, CharClass::Space);
        lemma_run_end(rest.skip(k), 0, CharClass::Space);
        let n = run_end(rest.skip(k), 0, CharClass::Space);
        assert forall|i: int| k <= i < k + n implies CharClass::Space.accepts(#[trigger] rest[i]) by {
            assert(rest.skip(k)[i - k] == rest[i]);
        }
        if k + n < rest.len() {
            assert(rest.skip(k)[n] == rest[k + n]);
        }
        lemma_run_end_unique(rest, k, CharClass::Space, k + n);
        lemma_anchored_step(s@, origin, k, n);
        assert(rest.skip(k).take(n) =~= rest.skip(k).take(n));
    }
    result.1
}

/// Scans for the single character `c`, which `literal` holds, at index `k`.
fn char_at(
    s: &str,
    position: ScanPosition,
    literal: &str,
    Ghost(c): Ghost<char>,
    Ghost(origin): Ghost<ScanPosition>,
    Ghost(k): Ghost<int>,
) -> (result: (bool, ScanPosition))
    requires
        anchored(s@, origin, k, position),
        literal@ == seq![c],
    ensures
        result.0 == at(text_at(s@, origin), k, c),
        anchored(s@, origin, if result.0 {
            k + 1
        } else {
            k
        }, result.1),
{
    proof {
        lemma_anchored(s@, origin, k);
    }
    let result = scan_literal(s, (true, position), literal);
    proof {
        let rest = text_at(s@, origin);
        let tail = rest.skip(k);
        reveal_with_fuel(common_prefix_len, 2);
        assert(literal@.drop_first().len() == 0);
        if k < rest.len() {
            assert(tail[0] == rest[k]);
        }
        if result.0 {
            lemma_anchored_step(s@, origin, k, 1);
        } else {
            assert(tail.take(0) =~= Seq::<char>::empty());
        }
    }
    result
}

/// Scans the run of digits at index `k` and returns it.
fn digits_at(s: &str, position: ScanPosition, Ghost(origin): Ghost<ScanPosition>, Ghost(k): Ghost<int>) -> (result:
    (Vec<char>, ScanPosition))
    requires
        anchored(s@, origin, k, position),
    ensures
        anchored(s@, origin, run_end(text_at(s@, origin), k, CharClass::Digit), result.1),
        result.0@ == text_at(s@, origin).subrange(
            k,
            run_end(text_at(s@, origin), k, CharClass::Digit),
        ),
        forall|i: int| 0 <= i < result.0.len() ==> crate::expression::numeral::is_digit(#[trigger] result.0[i]),
        k <= run_end(text_at(s@, origin), k, CharClass::Digit),
{
    proof {
        lemma_anchored(s@, origin, k);
    }
    let scanned = scan_digits(s, (true, position));
    proof {
        let rest = text_at(s@, origin);
        lemma_run_end(rest, k, CharClass::Digit);
        lemma_run_end(rest.skip(k), 0, CharClass::Digit);
        let n = run_end(rest.skip(k), 0, CharClass::Digit);
        assert forall|i: int| k <= i < k + n implies CharClass::Digit.accepts(#[trigger] rest[i]) by {
            assert(rest.skip(k)[i - k] == rest[i]);
        }
        if k + n < rest.len() {
            assert(rest.skip(k)[n] == rest[k + n]);
        }
        lemma_run_end_unique(rest, k, CharClass::Digit, k + n);
        lemma_anchored_step(s@, origin, k, n);
        lemma_anchored(s@, origin, k + n);
        lemma_advance_fits(s@, position, n);
        lemma_advance_counts(position, rest.skip(k).take(n));
        assert(rest.skip(k).take(n) =~= rest.subrange(k, k + n));
    }
    let count = scanned.1.char_index - position.char_index;
    let digits = collect_chars(s, position, count);
    (digits, scanned.1)
}

/// The error for something that is missing at index `k`, in an expression
/// that starts at index `start_k`.
fn missing_at(
    s: &str,
    start: ScanPosition,
    position: ScanPosition,
    Ghost(origin): Ghost<ScanPosition>,
    Ghost(start_k): Ghost<int>,
    Ghost(k): Ghost<int>,
) -> (error: ParsingError)
    requires
        anchored(s@, origin, start_k, start),
        anchored(s@, origin, k, position),
    ensures
        error == missing(text_at(s@, origin), origin, start_k, k),
{
    proof {
        lemma_anchored(s@, origin, k);
    }
    if position.byte_index >= s.as_bytes().len() {
        ParsingError::EndOfInput(ParsePosition::new(&start, &position))
    } else {
        ParsingError::Number(ParsePosition::new(&start, &position))
    }
}

/// What a parser returns agrees with what the grammar reads: the same
/// error, or the position of the index after the expression and a tree with
/// the same value, which keeps the rules of the syntax.
pub open spec fn reads(
    s: Seq<char>,
    origin: ScanPosition,
    k: int,
    parsed: Parsed,
    result: Result<(ScanPosition, ExpressionNode), ParsingError>,
) -> bool {
    match parsed {
        Ok((end, view)) => {
            &&& result matches Ok((position, node))
            &&& node@ == view
            &&& view.well_formed()
            &&& k <= end
            &&& anchored(s, origin, end, position)
        },
        Err(error) => result matches Err(found) && found == error,
    }
}

/// Reads a number at index `k`.
fn number_at(s: &str, position: ScanPosition, Ghost(origin): Ghost<ScanPosition>, Ghost(k): Ghost<int>) -> (result:
    Result<(ScanPosition, ExpressionNode), ParsingError>)
    requires
        anchored(s@, origin, k, position),
    ensures
        reads(s@, origin, k, number(text_at(s@, origin), origin, k), result),
{
    let ghost rest = text_at(s@, origin);
    let start = spaces_at(s, position, Ghost(origin), Ghost(k));
    let ghost start_k = spaces(rest, k);
    proof {
        reveal_strlit("-");
        reveal_strlit(".");
        reveal_strlit("e");
        reveal_strlit("E");
        assert("-"@ =~= seq!['-']);
        assert("."@ =~= seq!['.']);
        assert("e"@ =~= seq!['e']);
        assert("E"@ =~= seq!['E']);
        lemma_anchored(s@, origin, k);
        lemma_anchored(s@, origin, start_k);
    }
    let (negative, whole_start) = char_at(s, start, "-", Ghost('-'), Ghost(origin), Ghost(start_k));
    let ghost whole_k = if negative {
        start_k + 1
    } else {
        start_k
    };
    let (whole, whole_end) = digits_at(s, whole_start, Ghost(origin), Ghost(whole_k));
    let ghost whole_end_k = run_end(rest, whole_k, CharClass::Digit);
    if whole.len() == 0 {
        return Err(missing_at(s, start, whole_start, Ghost(origin), Ghost(start_k), Ghost(whole_k)));
    }
    let (point, fraction_start) = char_at(s, whole_end, ".", Ghost('.'), Ghost(origin), Ghost(whole_end_k));
    let ghost fraction_k = if point {
        whole_end_k + 1
    } else {
        whole_end_k
    };
    let mut fraction: Vec<char> = Vec::new();
    let mut fraction_end = fraction_start;
    let ghost mut fraction_end_k = fraction_k;
    if point {
        let (digits, end) = digits_at(s, fraction_start, Ghost(origin), Ghost(fraction_k));
        if digits.len() == 0 {
            return Err(
                missing_at(s, start, fraction_start, Ghost(origin), Ghost(start_k), Ghost(fraction_k)),
            );
        }
        fraction = digits;
        fraction_end = end;
        proof {
            fraction_end_k = run_end(rest, fraction_k, CharClass::Digit);
        }
    }
    let (lower, after_lower) = char_at(s, fraction_end, "e", Ghost('e'), Ghost(origin), Ghost(fraction_end_k));
    let (mark, power_start) = if lower {
        (true, after_lower)
    } else {
        char_at(s, fraction_end, "E", Ghost('E'), Ghost(origin), Ghost(fraction_end_k))
    };
    let ghost power_k = if mark {
        fraction_end_k + 1
    } else {
        fraction_end_k
    };
    let mut power_digits: Vec<char> = Vec::new();
    let mut power_end = power_start;
    let ghost mut power_end_k = power_k;
    if mark {
        let (digits, end) = digits_at(s, power_start, Ghost(origin), Ghost(power_k));
        if digits.len() == 0 {
            return Err(missing_at(s, start, power_start, Ghost(origin), Ghost(start_k), Ghost(power_k)));
        }
        power_digits = digits;
        power_end = end;
        proof {
            power_end_k = run_end(rest, power_k, CharClass::Digit);
        }
    }
    proof {
        assert(fraction@ =~= rest.subrange(fraction_k, fraction_end_k));
        assert(power_digits@ =~= rest.subrange(power_k, power_end_k));
        lemma_anchored(s@, origin, power_end_k);
    }
    let span = ParsePosition::new(&start, &power_end);
    if point || mark {
        match DecimalLiteral::from_digits(negative, &whole, &fraction, &power_digits) {
            Some(value) => Ok((power_end, ExpressionNode::Decimal { position: span, value })),
            None => Err(ParsingError::Number(span)),
        }
    } else {
        match integer_from_digits(negative, &whole) {
            Some(value) => Ok((power_end, ExpressionNode::Integer { position: span, value })),
            None => Err(ParsingError::Number(span)),
        }
    }
}

/// Scans for an operator of a chain of the given kind at index `k`.
fn operator_here(
    kind: ChainKind,
    s: &str,
    position: ScanPosition,
    Ghost(origin): Ghost<ScanPosition>,
    Ghost(k): Ghost<int>,
) -> (result: (bool, ScanPosition))
    requires
        anchored(s@, origin, k, position),
    ensures
        result.0 == operator_at(kind, text_at(s@, origin), k),
        anchored(s@, origin, if result.0 {
            k + 1
        } else {
            k
        }, result.1),
{
    proof {
        reveal_strlit("+");
        reveal_strlit("-");
        reveal_strlit("*");
        reveal_strlit("×");
        reveal_strlit("/");
        reveal_strlit("÷");
        assert("+"@ =~= seq!['+']);
        assert("-"@ =~= seq!['-']);
        assert("*"@ =~= seq!['*']);
        assert("×"@ =~= seq!['×']);
        assert("/"@ =~= seq!['/']);
        assert("÷"@ =~= seq!['÷']);
    }
    match kind {
        ChainKind::Sum => char_at(s, position, "+", Ghost('+'), Ghost(origin), Ghost(k)),
        ChainKind::Difference => char_at(s, position, "-", Ghost('-'), Ghost(origin), Ghost(k)),
        ChainKind::Product => {
            let plain = char_at(s, position, "*", Ghost('*'), Ghost(origin), Ghost(k));
            if plain.0 {
                plain
            } else {
                char_at(s, position, "×", Ghost('×'), Ghost(origin), Ghost(k))
            }
        },
        ChainKind::Quotient => {
            let plain = char_at(s, position, "/", Ghost('/'), Ghost(origin), Ghost(k));
            if plain.0 {
                plain
            } else {
                char_at(s, position, "÷", Ghost('÷'), Ghost(origin), Ghost(k))
            }
        },
    }
}

/// The chain node of the given kind.
fn chain_node(kind: ChainKind, position: ParsePosition, operands: Vec<ExpressionNode>) -> (node:
    ExpressionNode)
    ensures
        node@ == (NodeView::Chain {
            kind,
            position,
            operands: node_views(operands@, operands.len() as int),
        }),
{
    match kind {
        ChainKind::Sum => ExpressionNode::Sum { position, operands },
        ChainKind::Difference => ExpressionNode::Difference { position, operands },
        ChainKind::Product => ExpressionNode::Product { position, operands },
        ChainKind::Quotient => ExpressionNode::Quotient { position, operands },
    }
}

/// Reads a value at index `k`.
fn value_at(s: &str, position: ScanPosition, Ghost(origin): Ghost<ScanPosition>, Ghost(k): Ghost<int>) -> (result:
    Result<(ScanPosition, ExpressionNode), ParsingError>)
    requires
        anchored(s@, origin, k, position),
    ensures
        reads(s@, origin, k, value(text_at(s@, origin), origin, k), result),
    decreases text_at(s@, origin).len() - k, 0int,
{
    let ghost rest = text_at(s@, origin);
    let start = spaces_at(s, position, Ghost(origin), Ghost(k));
    let ghost start_k = spaces(rest, k);
    proof {
        reveal_strlit("-");
        reveal_strlit("(");
        reveal_strlit(")");
        assert("-"@ =~= seq!['-']);
        assert("("@ =~= seq!['(']);
        assert(")"@ =~= seq![')']);
    }
    let (negative, open) = char_at(s, start, "-", Ghost('-'), Ghost(origin), Ghost(start_k));
    let ghost open_k = if negative {
        start_k + 1
    } else {
        start_k
    };
    let (bracket, inner_start) = char_at(s, open, "(", Ghost('('), Ghost(origin), Ghost(open_k));
    if bracket {
        let ghost inner_parsed = chain(ChainKind::Sum, rest, origin, open_k + 1);
        let (inner_end, inner) = match chain_at(
            ChainKind::Sum,
            s,
            inner_start,
            Ghost(origin),
            Ghost(open_k + 1),
        ) {
            Ok(read) => read,
            Err(error) => {
                return Err(error);
            },
        };
        let ghost end_k = match inner_parsed {
            Ok((end, _)) => end,
            Err(_) => 0,
        };
        let close = spaces_at(s, inner_end, Ghost(origin), Ghost(end_k));
        let ghost close_k = spaces(rest, end_k);
        let (closed, after) = char_at(s, close, ")", Ghost(')'), Ghost(origin), Ghost(close_k));
        if closed {
            let sign = if negative {
                SignType::Negative
            } else {
                SignType::Positive
            };
            Ok(
                (
                    after,
                    ExpressionNode::Parenthesis {
                        position: ParsePosition::new(&start, &after),
                        sign,
                        inner: Box::new(inner),
                    },
                ),
            )
        } else {
            Err(missing_at(s, start, close, Ghost(origin), Ghost(start_k), Ghost(close_k)))
        }
    } else {
        number_at(s, start, Ghost(origin), Ghost(start_k))
    }
}

/// Reads a power at index `k`.
fn power_at(s: &str, position: ScanPosition, Ghost(origin): Ghost<ScanPosition>, Ghost(k): Ghost<int>) -> (result:
    Result<(ScanPosition, ExpressionNode), ParsingError>)
    requires
        anchored(s@, origin, k, position),
    ensures
        reads(s@, origin, k, power(text_at(s@, origin), origin, k), result),
    decreases text_at(s@, origin).len() - k, 1int,
{
    let ghost rest = text_at(s@, origin);
    let start = spaces_at(s, position, Ghost(origin), Ghost(k));
    let ghost start_k = spaces(rest, k);
    let ghost base_parsed = value(rest, origin, start_k);
    let (base_end, base) = match value_at(s, start, Ghost(origin), Ghost(start_k)) {
        Ok(read) => read,
        Err(error) => {
            return Err(error);
        },
    };
    let ghost end_k = match base_parsed {
        Ok((end, _)) => end,
        Err(_) => 0,
    };
    let hat = spaces_at(s, base_end, Ghost(origin), Ghost(end_k));
    let ghost hat_k = spaces(rest, end_k);
    proof {
        reveal_strlit("^");
        assert("^"@ =~= seq!['^']);
    }
    let (raised, exponent_start) = char_at(s, hat, "^", Ghost('^'), Ghost(origin), Ghost(hat_k));
    if raised {
        let (last, exponent) = match value_at(s, exponent_start, Ghost(origin), Ghost(hat_k + 1)) {
            Ok(read) => read,
            Err(error) => {
                return Err(error);
            },
        };
        Ok(
            (
                last,
                ExpressionNode::Power {
                    position: ParsePosition::new(&start, &last),
                    base: Box::new(base),
                    exponent: Box::new(exponent),
                },
            ),
        )
    } else {
        Ok((base_end, base))
    }
}

/// Reads an operand of a chain of the given kind at index `k`.
fn operand_at(
    kind: ChainKind,
    s: &str,
    position: ScanPosition,
    Ghost(origin): Ghost<ScanPosition>,
    Ghost(k): Ghost<int>,
) -> (result: Result<(ScanPosition, ExpressionNode), ParsingError>)
    requires
        anchored(s@, origin, k, position),
    ensures
        reads(s@, origin, k, operand(kind, text_at(s@, origin), origin, k), result),
    decreases text_at(s@, origin).len() - k, 2 * kind.level(),
{
    match kind {
        ChainKind::Sum => chain_at(ChainKind::Difference, s, position, Ghost(origin), Ghost(k)),
        ChainKind::Difference => chain_at(ChainKind::Product, s, position, Ghost(origin), Ghost(k)),
        ChainKind::Product => chain_at(ChainKind::Quotient, s, position, Ghost(origin), Ghost(k)),
        ChainKind::Quotient => power_at(s, position, Ghost(origin), Ghost(k)),
    }
}

/// Reads a chain of the given kind at index `k`.
fn chain_at(
    kind: ChainKind,
    s: &str,
    position: ScanPosition,
    Ghost(origin): Ghost<ScanPosition>,
    Ghost(k): Ghost<int>,
) -> (result: Result<(ScanPosition, ExpressionNode), ParsingError>)
    requires
        anchored(s@, origin, k, position),
    ensures
        reads(s@, origin, k, chain(kind, text_at(s@, origin), origin, k), result),
    decreases text_at(s@, origin).len() - k, 2 * kind.level() + 1,
{
    let ghost rest = text_at(s@, origin);
    let start = spaces_at(s, position, Ghost(origin), Ghost(k));
    let ghost start_k = spaces(rest, k);
    let ghost first_parsed = operand(kind, rest, origin, start_k);
    let (first_end, first) = match operand_at(kind, s, start, Ghost(origin), Ghost(start_k)) {
        Ok(read) => read,
        Err(error) => {
            return Err(error);
        },
    };
    let ghost first_k = match first_parsed {
        Ok((end, _)) => end,
        Err(_) => 0,
    };
    let sign = spaces_at(s, first_end, Ghost(origin), Ghost(first_k));
    let ghost sign_k = spaces(rest, first_k);
    let (found, after) = operator_here(kind, s, sign, Ghost(origin), Ghost(sign_k));
    if !found {
        return Ok((first_end, first));
    }
    let ghost views = seq![first@];
    let mut operands: Vec<ExpressionNode> = Vec::new();
    proof {
        lemma_node_views_push(operands@, first);
        assert(node_views(operands@, 0) =~= Seq::<NodeView>::empty());
        assert(Seq::<NodeView>::empty().push(first@) =~= seq![first@]);
    }
    operands.push(first);
    let mut next_start = after;
    let ghost mut next_k = sign_k + 1;
    let ghost mut views = views;
    let ghost wanted = more(kind, rest, origin, sign_k + 1, seq![first@]);
    loop
        invariant
            rest == text_at(s@, origin),
            anchored(s@, origin, start_k, start),
            anchored(s@, origin, next_k, next_start),
            k <= start_k < next_k,
            operands.len() >= 1,
            views == node_views(operands@, operands.len() as int),
            views.len() == operands.len(),
            forall|i: int| 0 <= i < views.len() ==> (#[trigger] views[i]).well_formed(),
            wanted == more(kind, rest, origin, next_k, views),
            0 <= k <= rest.len(),
            chain(kind, rest, origin, k) == match wanted {
                Err(error) => Err::<(int, NodeView), ParsingError>(error),
                Ok((last, operands)) => Ok(
                    (
                        last,
                        NodeView::Chain {
                            kind,
                            position: span(rest, origin, start_k, last),
                            operands,
                        },
                    ),
                ),
            },
        decreases rest.len() - next_k,
    {
        let ghost next_parsed = operand(kind, rest, origin, next_k);
        let (end, next) = match operand_at(kind, s, next_start, Ghost(origin), Ghost(next_k)) {
            Ok(read) => read,
            Err(error) => {
                return Err(error);
            },
        };
        let ghost end_k = match next_parsed {
            Ok((end, _)) => end,
            Err(_) => 0,
        };
        proof {
            lemma_node_views_push(operands@, next);
            lemma_node_views(operands@.push(next), operands.len() + 1);
            views = views.push(next@);
        }
        operands.push(next);
        let sign = spaces_at(s, end, Ghost(origin), Ghost(end_k));
        let ghost sign_k = spaces(rest, end_k);
        let (found, after) = operator_here(kind, s, sign, Ghost(origin), Ghost(sign_k));
        if !found {
            let node = chain_node(kind, ParsePosition::new(&start, &end), operands);
            return Ok((end, node));
        }
        next_start = after;
        proof {
            next_k = sign_k + 1;
        }
    }
}

/// The error that every parser returns in a context that is not live: the
/// end of the input where the position lies at or beyond the end of the
/// text, else a number that cannot be read, with the empty span at the
/// position.
pub open spec fn refused(s: Seq<char>, context: ScanContext) -> ParsingError {
    if context.1.byte_index >= text_width(s) {
        ParsingError::EndOfInput(ParsePosition::span(context.1, context.1))
    } else {
        ParsingError::Number(ParsePosition::span(context.1, context.1))
    }
}

/// What a parser returns in `context` agrees with what the grammar reads in
/// the text from the position of the context: the same error, or a context
/// that matches at the position after the expression, and a tree with the
/// same value, which keeps the rules of the syntax.
pub open spec fn parses(
    s: Seq<char>,
    context: ScanContext,
    parsed: Parsed,
    result: Result<(ScanContext, ExpressionNode), ParsingError>,
) -> bool {
    if !live(s, context) {
        result matches Err(found) && found == refused(s, context)
    } else {
        match parsed {
            Ok((end, view)) => {
                &&& result matches Ok((reached, node))
                &&& node@ == view
                &&& view.well_formed()
                &&& 0 <= end <= text_at(s, context.1).len()
                &&& reached == (true, place(text_at(s, context.1), context.1, end))
                &&& reached.1.fits(s)
                &&& context.1.byte_index <= reached.1.byte_index <= text_width(s)
            },
            Err(error) => result matches Err(found) && found == error,
        }
    }
}

/// The position at which reading starts in `context`, or the error for a
/// context that is not live.
fn enter(s: &str, context: ScanContext) -> (entered: Result<ScanPosition, ParsingError>)
    requires
        context.1.fits(s@),
    ensures
        live(s@, context) ==> entered == Ok::<ScanPosition, ParsingError>(context.1) && anchored(
            s@,
            context.1,
            0,
            context.1,
        ),
        !live(s@, context) ==> entered == Err::<ScanPosition, ParsingError>(refused(s@, context)),
{
    let (matched, position) = context;
    let length = s.as_bytes().len();
    if !matched || position.byte_index > length {
        if position.byte_index >= length {
            Err(ParsingError::EndOfInput(ParsePosition::new(&position, &position)))
        } else {
            Err(ParsingError::Number(ParsePosition::new(&position, &position)))
        }
    } else {
        proof {
            assert(text_at(s@, position).take(0) =~= Seq::<char>::empty());
        }
        Ok(position)
    }
}

/// Turns what was read from `origin` on into the result of a parser.
fn leave(
    s: &str,
    origin: ScanPosition,
    read: Result<(ScanPosition, ExpressionNode), ParsingError>,
    Ghost(parsed): Ghost<Parsed>,
) -> (result: Result<(ScanContext, ExpressionNode), ParsingError>)
    requires
        anchored(s@, origin, 0, origin),
        reads(s@, origin, 0, parsed, read),
    ensures
        parses(s@, (true, origin), parsed, result),
{
    match read {
        Ok((end, node)) => {
            proof {
                let reached = match parsed {
                    Ok((reached, _)) => reached,
                    Err(_) => 0,
                };
                lemma_anchored(s@, origin, reached);
            }
            Ok(((true, end), node))
        },
        Err(error) => Err(error),
    }
}

/// Reads a number: whitespace, an optional minus sign, digits, optionally
/// a point and digits, optionally `e` or `E` and digits. A number with a
/// point or an exponent is a decimal, any other an integer; a number that
/// is out of range is an error.
pub fn parse_number(s: &str, context: ScanContext) -> (result: Result<
    (ScanContext, ExpressionNode),
    ParsingError,
>)
    requires
        context.1.fits(s@),
    ensures
        parses(s@, context, number(text_at(s@, context.1), context.1, 0), result),
{
    match enter(s, context) {
        Err(error) => Err(error),
        Ok(origin) => {
            let read = number_at(s, origin, Ghost(origin), Ghost(0));
            leave(s, origin, read, Ghost(number(text_at(s@, origin), origin, 0)))
        },
    }
}

/// Reads a value: a parenthesis with an optional minus sign in front of it,
/// or a number.
pub fn parse_value(s: &str, context: ScanContext) -> (result: Result<
    (ScanContext, ExpressionNode),
    ParsingError,
>)
    requires
        context.1.fits(s@),
    ensures
        parses(s@, context, value(text_at(s@, context.1), context.1, 0), result),
{
    match enter(s, context) {
        Err(error) => Err(error),
        Ok(origin) => {
            let read = value_at(s, origin, Ghost(origin), Ghost(0));
            leave(s, origin, read, Ghost(value(text_at(s@, origin), origin, 0)))
        },
    }
}

/// Reads a power: a value, optionally followed by `^` and a value.
pub fn parse_power(s: &str, context: ScanContext) -> (result: Result<
    (ScanContext, ExpressionNode),
    ParsingError,
>)
    requires
        context.1.fits(s@),
    ensures
        parses(s@, context, power(text_at(s@, context.1), context.1, 0), result),
{
    match enter(s, context) {
        Err(error) => Err(error),
        Ok(origin) => {
            let read = power_at(s, origin, Ghost(origin), Ghost(0));
            leave(s, origin, read, Ghost(power(text_at(s@, origin), origin, 0)))
        },
    }
}

/// Reads a chain of the given kind: an operand, followed by any number of
/// operators of the chain, each with an operand.
fn parse_chain(kind: ChainKind, s: &str, context: ScanContext) -> (result: Result<
    (ScanContext, ExpressionNode),
    ParsingError,
>)
    requires
        context.1.fits(s@),
    ensures
        parses(s@, context, chain(kind, text_at(s@, context.1), context.1, 0), result),
{
    match enter(s, context) {
        Err(error) => Err(error),
        Ok(origin) => {
            let read = chain_at(kind, s, origin, Ghost(origin), Ghost(0));
            leave(s, origin, read, Ghost(chain(kind, text_at(s@, origin), origin, 0)))
        },
    }
}

/// Reads a series of additions: differences with `+` between them.
pub fn parse_sum(s: &str, context: ScanContext) -> (result: Result<
    (ScanContext, ExpressionNode),
    ParsingError,
>)
    requires
        context.1.fits(s@),
    ensures
        parses(s@, context, chain(ChainKind::Sum, text_at(s@, context.1), context.1, 0), result),
{
    parse_chain(ChainKind::Sum, s, context)
}

/// Reads a series of subtractions: products with `-` between them.
pub fn parse_difference(s: &str, context: ScanContext) -> (result: Result<
    (ScanContext, ExpressionNode),
    ParsingError,
>)
    requires
        context.1.fits(s@),
    ensures
        parses(
            s@,
            context,
            chain(ChainKind::Difference, text_at(s@, context.1), context.1, 0),
            result,
        ),
{
    parse_chain(ChainKind::Difference, s, context)
}

/// Reads a series of multiplications: quotients with `*` or `×` between
/// them.
pub fn parse_product(s: &str, context: ScanContext) -> (result: Result<
    (ScanContext, ExpressionNode),
    ParsingError,
>)
    requires
        context.1.fits(s@),
    ensures
        parses(s@, context, chain(ChainKind::Product, text_at(s@, context.1), context.1, 0), result),
{
    parse_chain(ChainKind::Product, s, context)
}

/// Reads a series of divisions: powers with `/` or `÷` between them.
pub fn parse_quotient(s: &str, context: ScanContext) -> (result: Result<
    (ScanContext, ExpressionNode),
    ParsingError,
>)
    requires
        context.1.fits(s@),
    ensures
        parses(s@, context, chain(ChainKind::Quotient, text_at(s@, context.1), context.1, 0), result),
{
    parse_chain(ChainKind::Quotient, s, context)
}

/// Reads an expression and returns where it ends.
pub fn parse_expression(s: &str, context: ScanContext) -> (result: Result<
    (ScanContext, ExpressionNode),
    ParsingError,
>)
    requires
        context.1.fits(s@),
    ensures
        parses(s@, context, expression(text_at(s@, context.1), context.1, 0), result),
{
    parse_sum(s, context)
}

/// Reads an expression that takes up the whole text: whatever follows it
/// but whitespace is an error, whose span runs from the first such
/// character to the end of the text. The context that is returned is the
/// one after the expression, before the whitespace that follows it.
pub fn parse(s: &str, context: ScanContext) -> (result: Result<
    (ScanContext, ExpressionNode),
    ParsingError,
>)
    requires
        context.1.fits(s@),
    ensures
        parses(s@, context, whole(text_at(s@, context.1), context.1, 0), result),
        !(result matches Err(ParsingError::Unknown(_))),
{
    proof {
        crate::expression::laws::lemma_known(5, text_at(s@, context.1), context.1, 0);
    }
    let origin = match enter(s, context) {
        Err(error) => {
            return Err(error);
        },
        Ok(origin) => origin,
    };
    let ghost rest = text_at(s@, origin);
    let ghost parsed = expression(rest, origin, 0);
    let (end, node) = match chain_at(ChainKind::Sum, s, origin, Ghost(origin), Ghost(0)) {
        Err(error) => {
            return Err(error);
        },
        Ok(read) => read,
    };
    let ghost end_k = match parsed {
        Ok((end, _)) => end,
        Err(_) => 0,
    };
    let extra = spaces_at(s, end, Ghost(origin), Ghost(end_k));
    let ghost extra_k = spaces(rest, end_k);
    proof {
        lemma_anchored(s@, origin, end_k);
        lemma_anchored(s@, origin, extra_k);
    }
    if extra.byte_index < s.as_bytes().len() {
        let finish = scan_to_end(s, (true, extra));
        proof {
            let tail = rest.skip(extra_k);
            lemma_run_end(tail, 0, CharClass::Any);
            lemma_anchored_step(s@, origin, extra_k, tail.len() as int);
            assert(tail.take(tail.len() as int) =~= tail);
        }
        Err(ParsingError::ExtraInput(ParsePosition { start: extra, end: finish.1 }))
    } else {
        Ok(((true, end), node))
    }
}

} // verus!
