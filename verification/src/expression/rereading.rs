//! What the grammar reads in the text of a syntax tree.
//!
//! The text of a tree reads as the tree again, but for the positions of its
//! nodes: in the plain form where every operand of a chain is a chain that
//! binds tighter, a power, or a value, as in every tree that the parser
//! gives; in the fully parenthesized form for every tree, and then every
//! bracket that the text has gained is a parenthesis of the tree that is
//! read.

use vstd::prelude::*;
use crate::expression::error::ParsingError;
use crate::expression::format::spaced;
use crate::expression::grammar::{
    at, bounded, chain, lemma_run_end, more, operand, power, span, spaces, value, CharClass, Parsed,
};
use crate::expression::node::{ChainKind, NodeView};
use crate::expression::position::ParsePosition;
use crate::expression::reading::{
    holds, lemma_decimal_reads, lemma_holds, lemma_holds_split, lemma_integer_reads,
    lemma_natural_text, lemma_no_spaces, stops,
};
use crate::expression::numeral::{digit_chars, integer_text, is_digit, natural_text};
use crate::expression::value::SignType;
use crate::scan::context::ScanPosition;

verus! {

/// The empty span at the start of a text.
pub open spec fn nowhere() -> ParsePosition {
    ParsePosition::span(ScanPosition::origin(), ScanPosition::origin())
}

/// The tree with the position of every node replaced by the empty span at
/// the start: what two trees have in common that differ in nothing but
/// where they were read.
pub open spec fn shape(t: NodeView) -> NodeView
    decreases t, 0int,
{
    match t {
        NodeView::NaN => NodeView::NaN,
        NodeView::Integer { value, .. } => NodeView::Integer { position: nowhere(), value },
        NodeView::Decimal { value, .. } => NodeView::Decimal { position: nowhere(), value },
        NodeView::Parenthesis { sign, inner, .. } => NodeView::Parenthesis {
            position: nowhere(),
            sign,
            inner: Box::new(shape(*inner)),
        },
        NodeView::Chain { kind, operands, .. } => NodeView::Chain {
            kind,
            position: nowhere(),
            operands: shapes(operands, operands.len() as int),
        },
        NodeView::Power { base, exponent, .. } => NodeView::Power {
            position: nowhere(),
            base: Box::new(shape(*base)),
            exponent: Box::new(shape(*exponent)),
        },
    }
}

/// The shapes of the first `n` of `operands`.
pub open spec fn shapes(operands: Seq<NodeView>, n: int) -> Seq<NodeView>
    decreases operands, n,
{
    if n <= 0 || n > operands.len() {
        Seq::empty()
    } else {
        shapes(operands, n - 1).push(shape(operands[n - 1]))
    }
}

/// The shapes of operands are the shapes of each, in order.
pub proof fn lemma_shapes(operands: Seq<NodeView>, n: int)
    requires
        0 <= n <= operands.len(),
    ensures
        shapes(operands, n).len() == n,
        forall|i: int| 0 <= i < n ==> #[trigger] shapes(operands, n)[i] == shape(operands[i]),
    decreases n,
{
    if n > 0 {
        lemma_shapes(operands, n - 1);
    }
}

/// Operands of the same shapes, one by one, have the same shapes.
pub proof fn lemma_shapes_equal(a: Seq<NodeView>, b: Seq<NodeView>)
    requires
        a.len() == b.len(),
        forall|i: int| 0 <= i < a.len() ==> shape(#[trigger] a[i]) == shape(b[i]),
    ensures
        shapes(a, a.len() as int) == shapes(b, b.len() as int),
{
    lemma_shapes(a, a.len() as int);
    lemma_shapes(b, b.len() as int);
    assert(shapes(a, a.len() as int) =~= shapes(b, b.len() as int));
}

/// The kind of the chains that are read at `rank`.
pub open spec fn kind_at(rank: int) -> ChainKind {
    if rank <= 2 {
        ChainKind::Quotient
    } else if rank == 3 {
        ChainKind::Product
    } else if rank == 4 {
        ChainKind::Difference
    } else {
        ChainKind::Sum
    }
}

/// What the grammar reads at `rank`: a value at rank 0, a power at rank 1,
/// and a quotient, a product, a difference and a sum at the ranks from 2 to
/// 5.
pub open spec fn read_at(rank: int, rest: Seq<char>, origin: ScanPosition, k: int) -> Parsed {
    if rank <= 0 {
        value(rest, origin, k)
    } else if rank == 1 {
        power(rest, origin, k)
    } else {
        chain(kind_at(rank), rest, origin, k)
    }
}

/// The character `c` is an operator that is read at `rank`.
pub open spec fn operator_of(c: char, rank: int) -> bool {
    if rank == 1 {
        c == '^'
    } else if 2 <= rank <= 5 {
        kind_at(rank).operator(c)
    } else {
        false
    }
}

/// After the whitespace at index `j`, no operator follows that is read at
/// `rank` or below.
pub open spec fn quiet(rest: Seq<char>, j: int, rank: int) -> bool {
    let c = spaces(rest, j);
    c < rest.len() ==> forall|r: int| 1 <= r <= rank ==> !operator_of(rest[c], r)
}

/// The node is a chain or a power.
pub open spec fn compound(t: NodeView) -> bool {
    t is Chain || t is Power
}

/// The rank at which the text of `t` without brackets of its own is read,
/// where the text of `t` is read at `rank`: in the fully parenthesized form
/// a chain and a power stand in brackets, where every rank is read.
pub open spec fn bare_rank(t: NodeView, rank: int, full: bool) -> int {
    if full && compound(t) {
        5
    } else {
        rank
    }
}

/// The text of `t` without brackets of its own can be read at `rank`:
/// there is no node in it that is no expression, every decimal in it is
/// reduced, every chain in it has two operands or more, and, in the plain
/// form, every operand of a chain is read at the rank below the chain, base
/// and exponent of a power are values, and the chain itself, or the power,
/// is read at `rank` or below.
pub open spec fn readable_bare(t: NodeView, rank: int, full: bool) -> bool
    decreases t,
{
    match t {
        NodeView::NaN => false,
        NodeView::Integer { .. } => true,
        NodeView::Decimal { value, .. } => value.reduced(),
        NodeView::Parenthesis { inner, .. } => readable_bare(*inner, 5, full),
        NodeView::Chain { kind, operands, .. } => {
            &&& rank >= kind.level() + 1
            &&& operands.len() >= 2
            &&& forall|i: int|
                0 <= i < operands.len() ==> readable_bare(
                    #[trigger] operands[i],
                    bare_rank(operands[i], kind.level(), full),
                    full,
                )
        },
        NodeView::Power { base, exponent, .. } => {
            &&& rank >= 1
            &&& readable_bare(*base, bare_rank(*base, 0, full), full)
            &&& readable_bare(*exponent, bare_rank(*exponent, 0, full), full)
        },
    }
}

/// The text of `t` can be read at `rank`.
pub open spec fn readable(t: NodeView, rank: int, full: bool) -> bool {
    readable_bare(t, bare_rank(t, rank, full), full)
}

/// The tree that the text of `t` without brackets of its own reads as.
pub open spec fn reread_bare(t: NodeView, full: bool) -> NodeView
    decreases t, 0int,
{
    match t {
        NodeView::Parenthesis { position, sign, inner } => NodeView::Parenthesis {
            position,
            sign,
            inner: Box::new(reread_bare(*inner, full)),
        },
        NodeView::Chain { kind, position, operands } => NodeView::Chain {
            kind,
            position,
            operands: rereads(operands, operands.len() as int, full),
        },
        NodeView::Power { position, base, exponent } => NodeView::Power {
            position,
            base: Box::new(reread(*base, full)),
            exponent: Box::new(reread(*exponent, full)),
        },
        _ => t,
    }
}

/// The tree that the text of `t` reads as: in the fully parenthesized form
/// every chain and every power that no parenthesis holds is held by a
/// parenthesis of its own.
pub open spec fn reread(t: NodeView, full: bool) -> NodeView
    decreases t, 1int,
{
    if full && compound(t) {
        NodeView::Parenthesis {
            position: t.span(),
            sign: SignType::Positive,
            inner: Box::new(reread_bare(t, full)),
        }
    } else {
        reread_bare(t, full)
    }
}

/// The trees that the texts of the first `n` of `operands` read as.
pub open spec fn rereads(operands: Seq<NodeView>, n: int, full: bool) -> Seq<NodeView>
    decreases operands, n,
{
    if n <= 0 || n > operands.len() {
        Seq::empty()
    } else {
        rereads(operands, n - 1, full).push(reread(operands[n - 1], full))
    }
}

/// The trees that the texts of operands read as are those of each, in
/// order.
pub proof fn lemma_rereads(operands: Seq<NodeView>, n: int, full: bool)
    requires
        0 <= n <= operands.len(),
    ensures
        rereads(operands, n, full).len() == n,
        forall|i: int|
            0 <= i < n ==> #[trigger] rereads(operands, n, full)[i] == reread(operands[i], full),
    decreases n,
{
    if n > 0 {
        lemma_rereads(operands, n - 1, full);
    }
}

/// A text that stands in `rest` stands there with each of its prefixes.
pub proof fn lemma_holds_prefix(rest: Seq<char>, k: int, x: Seq<char>, m: int)
    requires
        holds(rest, k, x),
        0 <= m <= x.len(),
    ensures
        holds(rest, k, x.take(m)),
{
    assert(x =~= x.take(m) + x.skip(m));
    lemma_holds_split(rest, k, x.take(m), x.skip(m));
}

/// The joined texts of operands start with the joined texts of fewer of
/// them.
pub proof fn lemma_joined_prefix(
    symbol: char,
    operands: Seq<NodeView>,
    i: int,
    n: int,
    full: bool,
)
    requires
        1 <= i <= n <= operands.len(),
    ensures
        NodeView::joined(symbol, operands, i, full).len() <= NodeView::joined(
            symbol,
            operands,
            n,
            full,
        ).len(),
        NodeView::joined(symbol, operands, n, full).take(
            NodeView::joined(symbol, operands, i, full).len() as int,
        ) == NodeView::joined(symbol, operands, i, full),
    decreases n - i,
{
    let whole = NodeView::joined(symbol, operands, n, full);
    let part = NodeView::joined(symbol, operands, i, full);
    if i == n {
        assert(whole.take(part.len() as int) =~= part);
    } else {
        lemma_joined_prefix(symbol, operands, i, n - 1, full);
        let before = NodeView::joined(symbol, operands, n - 1, full);
        assert(whole == before + spaced(symbol) + operands[n - 1].text(full));
        assert(whole.take(part.len() as int) =~= before.take(part.len() as int));
    }
}

/// The numeral of an integer starts with a digit, or with a minus sign and
/// a digit.
pub proof fn lemma_integer_starts(v: int)
    ensures
        integer_text(v).len() >= 1,
        is_digit(integer_text(v)[0]) || (integer_text(v)[0] == '-' && integer_text(v).len() >= 2
            && is_digit(integer_text(v)[1])),
{
    if v < 0 {
        lemma_natural_text((-v) as nat);
        assert(integer_text(v)[1] == natural_text((-v) as nat)[0]);
    } else {
        lemma_natural_text(v as nat);
    }
}

/// The numeral of a decimal literal starts with a digit, or with a minus
/// sign and a digit.
pub proof fn lemma_decimal_starts(d: crate::expression::numeral::DecimalView)
    requires
        d.reduced(),
    ensures
        d.text().len() >= 1,
        is_digit(d.text()[0]) || (d.text()[0] == '-' && d.text().len() >= 2 && is_digit(
            d.text()[1],
        )),
{
    let u = d.unsigned_text();
    let count = d.digits.len() as int;
    crate::expression::reading::lemma_digit_chars(d.digits);
    assert(u.len() >= 1 && is_digit(u[0])) by {
        if count == 0 {
        } else if d.exponent >= 0 {
            assert(u[0] == digit_chars(d.digits)[0]);
        } else if count > -d.exponent {
            let front = d.digits.take(count + d.exponent);
            crate::expression::reading::lemma_digit_chars(front);
            assert(u[0] == digit_chars(front)[0]);
        } else {
        }
    }
    if d.negative {
        assert(d.text()[1] == u[0]);
    }
}

/// The text of a tree that can be read is not empty and starts with no
/// blank.
pub proof fn lemma_starts(t: NodeView, rank: int, full: bool)
    requires
        readable_bare(t, rank, full),
    ensures
        t.bare(full).len() >= 1,
        !CharClass::Space.accepts(t.bare(full)[0]),
        t.text(full).len() >= 1,
        !CharClass::Space.accepts(t.text(full)[0]),
    decreases t,
{
    match t {
        NodeView::NaN => {},
        NodeView::Integer { value, .. } => {
            lemma_integer_starts(value as int);
        },
        NodeView::Decimal { value, .. } => {
            lemma_decimal_starts(value);
        },
        NodeView::Parenthesis { sign, inner, .. } => {},
        NodeView::Chain { kind, operands, .. } => {
            let first = operands[0];
            lemma_starts(first, bare_rank(first, kind.level(), full), full);
            lemma_joined_prefix(kind.symbol(), operands, 1, operands.len() as int, full);
            let whole = NodeView::joined(kind.symbol(), operands, operands.len() as int, full);
            let part = NodeView::joined(kind.symbol(), operands, 1, full);
            assert(part == first.text(full));
            assert(whole.take(part.len() as int)[0] == whole[0]);
        },
        NodeView::Power { base, exponent, .. } => {
            lemma_starts(*base, bare_rank(*base, 0, full), full);
            assert(t.bare(full)[0] == base.text(full)[0]);
        },
    }
}

/// At index `j` a character stands that is no whitespace.
pub open spec fn begins(rest: Seq<char>, j: int) -> bool {
    0 <= j < rest.len() && !CharClass::Space.accepts(rest[j])
}

/// Read at `rank` from index `k` on, the grammar gives the tree `node` and
/// the index `end` after it.
#[verifier::opaque]
pub open spec fn reads_to(
    rank: int,
    rest: Seq<char>,
    origin: ScanPosition,
    k: int,
    end: int,
    node: NodeView,
) -> bool {
    &&& 0 <= k <= end <= rest.len()
    &&& read_at(rank, rest, origin, k) == Ok::<(int, NodeView), ParsingError>((end, node))
}

/// Reading more operands of a chain from index `k` on, after the operands
/// `acc`, gives the operands `nodes` and the index `end` after them.
#[verifier::opaque]
pub open spec fn more_to(
    kind: ChainKind,
    rest: Seq<char>,
    origin: ScanPosition,
    k: int,
    acc: Seq<NodeView>,
    end: int,
    nodes: Seq<NodeView>,
) -> bool {
    &&& 0 <= k <= rest.len()
    &&& more(kind, rest, origin, k, acc) == Ok::<(int, Seq<NodeView>), ParsingError>((end, nodes))
}

/// Skipping whitespace twice skips no more than skipping it once.
pub proof fn lemma_spaces_once(rest: Seq<char>, k: int)
    requires
        0 <= k <= rest.len(),
    ensures
        k <= spaces(rest, k) <= rest.len(),
        spaces(rest, spaces(rest, k)) == spaces(rest, k),
{
    lemma_run_end(rest, k, CharClass::Space);
    lemma_no_spaces(rest, spaces(rest, k));
}

/// A text that starts with no whitespace stands where a character stands
/// that is none.
pub proof fn lemma_begins(rest: Seq<char>, k: int, x: Seq<char>)
    requires
        holds(rest, k, x),
        x.len() >= 1,
        !CharClass::Space.accepts(x[0]),
    ensures
        begins(rest, k),
        spaces(rest, k) == k,
{
    lemma_holds(rest, k, x);
    assert(rest[k + 0] == x[0]);
    lemma_no_spaces(rest, k);
}

/// The blank before an operator: it ends what stands before it, and only
/// the operator follows it.
pub proof fn lemma_spaced(rest: Seq<char>, j: int, symbol: char)
    requires
        holds(rest, j, spaced(symbol)),
        !CharClass::Space.accepts(symbol),
        begins(rest, j + 3),
    ensures
        stops(rest, j),
        0 <= j,
        j + 3 < rest.len(),
        spaces(rest, j) == j + 1,
        rest[j + 1] == symbol,
        spaces(rest, j + 2) == j + 3,
{
    lemma_holds(rest, j, spaced(symbol));
    assert(rest[j + 0] == spaced(symbol)[0]);
    assert(rest[j + 1] == spaced(symbol)[1]);
    assert(rest[j + 2] == spaced(symbol)[2]);
    crate::expression::grammar::lemma_run_end_unique(rest, j, CharClass::Space, j + 1);
    crate::expression::grammar::lemma_run_end_unique(rest, j + 2, CharClass::Space, j + 3);
}

/// The blank before the operator of a chain is followed by no operator
/// that is read below the chain.
pub proof fn lemma_quiet_operator(rest: Seq<char>, j: int, kind: ChainKind)
    requires
        holds(rest, j, spaced(kind.symbol())),
        begins(rest, j + 3),
    ensures
        stops(rest, j),
        quiet(rest, j, kind.level()),
{
    lemma_spaced(rest, j, kind.symbol());
    assert forall|r: int| 1 <= r <= kind.level() implies !operator_of(kind.symbol(), r) by {}
}

/// A closing bracket is followed by no operator.
pub proof fn lemma_quiet_bracket(rest: Seq<char>, j: int, rank: int)
    requires
        holds(rest, j, seq![')']),
    ensures
        stops(rest, j),
        quiet(rest, j, rank),
{
    lemma_holds(rest, j, seq![')']);
    assert(rest[j + 0] == seq![')'][0]);
    lemma_no_spaces(rest, j);
}

/// What no operator up to a rank follows, no operator up to a lower rank
/// follows.
pub proof fn lemma_quiet_below(rest: Seq<char>, j: int, high: int, low: int)
    requires
        quiet(rest, j, high),
        low <= high,
    ensures
        quiet(rest, j, low),
{
}

/// What is read at a rank, and is followed by no operator of the next
/// rank, is what is read at the next rank.
proof fn lemma_pass(
    rank: int,
    rest: Seq<char>,
    origin: ScanPosition,
    k: int,
    end: int,
    node: NodeView,
)
    requires
        1 <= rank <= 5,
        begins(rest, k),
        reads_to(rank - 1, rest, origin, k, end, node),
        spaces(rest, end) < rest.len() ==> !operator_of(rest[spaces(rest, end)], rank),
    ensures
        reads_to(rank, rest, origin, k, end, node),
{
    reveal(reads_to);
    lemma_no_spaces(rest, k);
    lemma_spaces_once(rest, end);
    if rank == 1 {
        assert(bounded(rest, origin, k, value(rest, origin, k)) == value(rest, origin, k));
    } else {
        let kind = kind_at(rank);
        assert(operand(kind, rest, origin, k) == read_at(rank - 1, rest, origin, k));
        assert(bounded(rest, origin, k, operand(kind, rest, origin, k)) == operand(
            kind,
            rest,
            origin,
            k,
        ));
    }
}

/// What is read at a rank, and is followed by no operator up to a higher
/// rank, is what is read at the higher rank.
pub proof fn lemma_lift(
    low: int,
    high: int,
    rest: Seq<char>,
    origin: ScanPosition,
    k: int,
    end: int,
    node: NodeView,
)
    requires
        0 <= low <= high <= 5,
        begins(rest, k),
        reads_to(low, rest, origin, k, end, node),
        quiet(rest, end, high),
    ensures
        reads_to(high, rest, origin, k, end, node),
    decreases high - low,
{
    if low < high {
        lemma_lift(low, high - 1, rest, origin, k, end, node);
        lemma_pass(high, rest, origin, k, end, node);
    }
}

/// The numeral of an integer reads as a value.
pub proof fn lemma_read_integer(v: i32, rest: Seq<char>, origin: ScanPosition, k: int)
    requires
        holds(rest, k, integer_text(v as int)),
        stops(rest, k + integer_text(v as int).len()),
    ensures
        begins(rest, k),
        reads_to(
            0,
            rest,
            origin,
            k,
            k + integer_text(v as int).len(),
            NodeView::Integer {
                position: span(rest, origin, k, k + integer_text(v as int).len()),
                value: v,
            },
        ),
{
    reveal(reads_to);
    let x = integer_text(v as int);
    lemma_integer_starts(v as int);
    lemma_holds(rest, k, x);
    assert(rest[k + 0] == x[0]);
    if x[0] == '-' {
        assert(rest[k + 1] == x[1]);
    }
    lemma_no_spaces(rest, k);
    lemma_integer_reads(v, rest, origin, k);
}

/// The numeral of a decimal literal reads as a value.
pub proof fn lemma_read_decimal(
    d: crate::expression::numeral::DecimalView,
    rest: Seq<char>,
    origin: ScanPosition,
    k: int,
)
    requires
        d.reduced(),
        holds(rest, k, d.text()),
        stops(rest, k + d.text().len()),
    ensures
        begins(rest, k),
        reads_to(
            0,
            rest,
            origin,
            k,
            k + d.text().len(),
            NodeView::Decimal { position: span(rest, origin, k, k + d.text().len()), value: d },
        ),
{
    reveal(reads_to);
    let x = d.text();
    lemma_decimal_starts(d);
    lemma_holds(rest, k, x);
    assert(rest[k + 0] == x[0]);
    if x[0] == '-' {
        assert(rest[k + 1] == x[1]);
    }
    lemma_no_spaces(rest, k);
    lemma_decimal_reads(d, rest, origin, k);
}

/// The opening of a parenthesis: a bracket, with a minus sign before it for
/// a negative sign.
pub open spec fn opening(sign: SignType) -> Seq<char> {
    match sign {
        SignType::Negative => seq!['-', '('],
        SignType::Positive => seq!['('],
    }
}

/// A parenthesis is read where a bracket stands, with or without a minus
/// sign before it, an expression is read after the bracket, and a closing
/// bracket follows the expression.
proof fn lemma_value_brackets(
    rest: Seq<char>,
    origin: ScanPosition,
    k: int,
    negative: bool,
    close: int,
    inner: NodeView,
)
    requires
        0 <= k,
        spaces(rest, k) == k,
        at(rest, k, '-') == negative,
        at(rest, if negative {
            k + 1
        } else {
            k
        }, '('),
        chain(ChainKind::Sum, rest, origin, if negative {
            k + 2
        } else {
            k + 1
        }) == Ok::<(int, NodeView), ParsingError>((close, inner)),
        (if negative {
            k + 2
        } else {
            k + 1
        }) <= close < rest.len(),
        spaces(rest, close) == close,
        rest[close] == ')',
    ensures
        value(rest, origin, k) == Ok::<(int, NodeView), ParsingError>(
            (
                close + 1,
                NodeView::Parenthesis {
                    position: span(rest, origin, k, close + 1),
                    sign: if negative {
                        SignType::Negative
                    } else {
                        SignType::Positive
                    },
                    inner: Box::new(inner),
                },
            ),
        ),
{
}

/// A parenthesis is read where its opening stands, an expression is read
/// after that, and a closing bracket follows the expression.
pub proof fn lemma_read_brackets(
    sign: SignType,
    rest: Seq<char>,
    origin: ScanPosition,
    k: int,
    close: int,
    inner: NodeView,
)
    requires
        holds(rest, k, opening(sign)),
        reads_to(5, rest, origin, k + opening(sign).len(), close, inner),
        holds(rest, close, seq![')']),
    ensures
        begins(rest, k),
        reads_to(
            0,
            rest,
            origin,
            k,
            close + 1,
            NodeView::Parenthesis {
                position: span(rest, origin, k, close + 1),
                sign,
                inner: Box::new(inner),
            },
        ),
{
    lemma_holds(rest, k, opening(sign));
    lemma_holds(rest, close, seq![')']);
    assert(rest[close + 0] == seq![')'][0]);
    assert(rest[k + 0] == opening(sign)[0]);
    if sign == SignType::Negative {
        assert(rest[k + 1] == opening(sign)[1]);
    }
    lemma_no_spaces(rest, k);
    lemma_no_spaces(rest, close);
    assert(chain(ChainKind::Sum, rest, origin, k + opening(sign).len()) == Ok::<
        (int, NodeView),
        ParsingError,
    >((close, inner)) && k + opening(sign).len() <= close) by {
        reveal(reads_to);
    }
    lemma_value_brackets(rest, origin, k, sign == SignType::Negative, close, inner);
    assert(reads_to(
        0,
        rest,
        origin,
        k,
        close + 1,
        NodeView::Parenthesis {
            position: span(rest, origin, k, close + 1),
            sign,
            inner: Box::new(inner),
        },
    )) by {
        reveal(reads_to);
    }
}

/// A power is read where a value is read, `^` between blanks follows it,
/// and a value is read after that.
pub proof fn lemma_read_power(
    rest: Seq<char>,
    origin: ScanPosition,
    k: int,
    first_end: int,
    base: NodeView,
    end: int,
    exponent: NodeView,
)
    requires
        begins(rest, k),
        reads_to(0, rest, origin, k, first_end, base),
        holds(rest, first_end, spaced('^')),
        begins(rest, first_end + 3),
        reads_to(0, rest, origin, first_end + 3, end, exponent),
    ensures
        reads_to(
            1,
            rest,
            origin,
            k,
            end,
            NodeView::Power {
                position: span(rest, origin, k, end),
                base: Box::new(base),
                exponent: Box::new(exponent),
            },
        ),
{
    reveal(reads_to);
    lemma_no_spaces(rest, k);
    lemma_spaced(rest, first_end, '^');
    lemma_no_spaces(rest, first_end + 3);
    // the value after the operator is read from the blank on
    assert(value(rest, origin, first_end + 2) == value(rest, origin, first_end + 3));
}

/// The operand of a chain that is read from a blank on is the one that is
/// read after the blank.
proof fn lemma_operand_after_blank(
    kind: ChainKind,
    rest: Seq<char>,
    origin: ScanPosition,
    j: int,
    end: int,
    node: NodeView,
)
    requires
        0 <= j,
        spaces(rest, j) == j + 1,
        begins(rest, j + 1),
        reads_to(kind.level(), rest, origin, j + 1, end, node),
    ensures
        operand(kind, rest, origin, j) == Ok::<(int, NodeView), ParsingError>((end, node)),
        kind_at(kind.level() + 1) == kind,
{
    reveal(reads_to);
    lemma_no_spaces(rest, j + 1);
    let r = kind.level();
    assert(read_at(r, rest, origin, j) == read_at(r, rest, origin, j + 1));
}

/// A chain is read where an operand is read, the operator of the chain
/// between blanks follows it, and more operands are read after that.
pub proof fn lemma_read_chain(
    kind: ChainKind,
    rest: Seq<char>,
    origin: ScanPosition,
    k: int,
    first_end: int,
    first: NodeView,
    end: int,
    nodes: Seq<NodeView>,
)
    requires
        begins(rest, k),
        reads_to(kind.level(), rest, origin, k, first_end, first),
        holds(rest, first_end, spaced(kind.symbol())),
        begins(rest, first_end + 3),
        more_to(kind, rest, origin, first_end + 2, seq![first], end, nodes),
        first_end <= end <= rest.len(),
    ensures
        reads_to(
            kind.level() + 1,
            rest,
            origin,
            k,
            end,
            NodeView::Chain { kind, position: span(rest, origin, k, end), operands: nodes },
        ),
{
    reveal(reads_to);
    reveal(more_to);
    lemma_no_spaces(rest, k);
    lemma_spaced(rest, first_end, kind.symbol());
    assert(operand(kind, rest, origin, k) == read_at(kind.level(), rest, origin, k));
    assert(kind_at(kind.level() + 1) == kind);
}

/// Reading more operands goes on after an operand that the operator of the
/// chain follows.
pub proof fn lemma_more_goes_on(
    kind: ChainKind,
    rest: Seq<char>,
    origin: ScanPosition,
    gap: int,
    acc: Seq<NodeView>,
    this_end: int,
    this: NodeView,
    end: int,
    nodes: Seq<NodeView>,
)
    requires
        holds(rest, gap, spaced(kind.symbol())),
        begins(rest, gap + 3),
        reads_to(kind.level(), rest, origin, gap + 3, this_end, this),
        holds(rest, this_end, spaced(kind.symbol())),
        begins(rest, this_end + 3),
        more_to(kind, rest, origin, this_end + 2, acc.push(this), end, nodes),
    ensures
        more_to(kind, rest, origin, gap + 2, acc, end, nodes),
{
    lemma_spaced(rest, gap, kind.symbol());
    lemma_spaced(rest, this_end, kind.symbol());
    lemma_operand_after_blank(kind, rest, origin, gap + 2, this_end, this);
    reveal(reads_to);
    reveal(more_to);
}

/// Reading more operands ends after an operand that no operator of the
/// chain follows.
pub proof fn lemma_more_ends(
    kind: ChainKind,
    rest: Seq<char>,
    origin: ScanPosition,
    gap: int,
    acc: Seq<NodeView>,
    this_end: int,
    this: NodeView,
)
    requires
        holds(rest, gap, spaced(kind.symbol())),
        begins(rest, gap + 3),
        reads_to(kind.level(), rest, origin, gap + 3, this_end, this),
        quiet(rest, this_end, kind.level() + 1),
    ensures
        more_to(kind, rest, origin, gap + 2, acc, this_end, acc.push(this)),
{
    lemma_spaced(rest, gap, kind.symbol());
    lemma_operand_after_blank(kind, rest, origin, gap + 2, this_end, this);
    reveal(reads_to);
    reveal(more_to);
    lemma_spaces_once(rest, this_end);
    let c = spaces(rest, this_end);
    if c < rest.len() {
        assert(!operator_of(rest[c], kind.level() + 1));
    }
}

/// The first `i` of `nodes` are, but for their positions, what the texts
/// of the first `i` of `operands` read as.
pub open spec fn echo(nodes: Seq<NodeView>, operands: Seq<NodeView>, i: int, full: bool) -> bool {
    &&& nodes.len() == i
    &&& i <= operands.len()
    &&& forall|j: int| 0 <= j < i ==> shape(#[trigger] nodes[j]) == shape(reread(operands[j], full))
}

/// One more node that echoes the next operand.
proof fn lemma_echo_push(
    nodes: Seq<NodeView>,
    operands: Seq<NodeView>,
    i: int,
    full: bool,
    node: NodeView,
)
    requires
        echo(nodes, operands, i, full),
        i < operands.len(),
        shape(node) == shape(reread(operands[i], full)),
    ensures
        echo(nodes.push(node), operands, i + 1, full),
{
    let longer = nodes.push(node);
    assert forall|j: int| 0 <= j < i + 1 implies shape(#[trigger] longer[j]) == shape(
        reread(operands[j], full),
    ) by {
        if j < i {
            assert(longer[j] == nodes[j]);
        }
    }
}

/// Nodes that echo all operands of a chain make a chain that echoes the
/// chain.
proof fn lemma_echo_chain(
    kind: ChainKind,
    position: ParsePosition,
    nodes: Seq<NodeView>,
    t: NodeView,
    full: bool,
)
    requires
        t is Chain,
        t->kind == kind,
        echo(nodes, t->operands, t->operands.len() as int, full),
    ensures
        shape(NodeView::Chain { kind, position, operands: nodes }) == shape(reread_bare(t, full)),
{
    let operands = t->operands;
    let n = operands.len() as int;
    lemma_rereads(operands, n, full);
    lemma_shapes_equal(nodes, rereads(operands, n, full));
}

/// The operand at index `i` of a chain stands in the text of the chain
/// after the first `i` operands and the operator.
proof fn lemma_operand_stands(
    t: NodeView,
    full: bool,
    rest: Seq<char>,
    k: int,
    i: int,
)
    requires
        t is Chain,
        readable_bare(t, t->kind.level() + 1, full),
        holds(rest, k, t.bare(full)),
        1 <= i < t->operands.len(),
    ensures
        holds(
            rest,
            k + NodeView::joined(t->kind.symbol(), t->operands, i, full).len(),
            spaced(t->kind.symbol()),
        ),
        holds(
            rest,
            k + NodeView::joined(t->kind.symbol(), t->operands, i, full).len() + 3,
            t->operands[i].text(full),
        ),
        NodeView::joined(t->kind.symbol(), t->operands, i + 1, full).len() == NodeView::joined(
            t->kind.symbol(),
            t->operands,
            i,
            full,
        ).len() + 3 + t->operands[i].text(full).len(),
        begins(rest, k + NodeView::joined(t->kind.symbol(), t->operands, i, full).len() + 3),
        i + 1 == t->operands.len() ==> NodeView::joined(
            t->kind.symbol(),
            t->operands,
            i + 1,
            full,
        ) == t.bare(full),
{
    let kind = t->kind;
    let operands = t->operands;
    let n = operands.len() as int;
    let symbol = kind.symbol();
    let x = t.bare(full);
    let before = NodeView::joined(symbol, operands, i, full);
    let upto = NodeView::joined(symbol, operands, i + 1, full);
    let this_text = operands[i].text(full);
    lemma_starts(operands[i], bare_rank(operands[i], kind.level(), full), full);
    lemma_joined_prefix(symbol, operands, i + 1, n, full);
    lemma_holds_prefix(rest, k, x, upto.len() as int);
    assert(upto =~= before + (spaced(symbol) + this_text));
    lemma_holds_split(rest, k, before, spaced(symbol) + this_text);
    lemma_holds_split(rest, k + before.len(), spaced(symbol), this_text);
    lemma_begins(rest, k + before.len() + 3, this_text);
}

/// The first operand of a chain stands where the text of the chain stands.
proof fn lemma_first_stands(t: NodeView, full: bool, rest: Seq<char>, k: int)
    requires
        t is Chain,
        readable_bare(t, t->kind.level() + 1, full),
        holds(rest, k, t.bare(full)),
    ensures
        holds(rest, k, t->operands[0].text(full)),
        NodeView::joined(t->kind.symbol(), t->operands, 1, full) == t->operands[0].text(full),
        t->operands[0].text(full).len() <= t.bare(full).len(),
        k + t.bare(full).len() <= rest.len(),
        begins(rest, k),
{
    lemma_holds(rest, k, t.bare(full));
    let kind = t->kind;
    let operands = t->operands;
    let n = operands.len() as int;
    let symbol = kind.symbol();
    let x = t.bare(full);
    lemma_starts(operands[0], bare_rank(operands[0], kind.level(), full), full);
    lemma_joined_prefix(symbol, operands, 1, n, full);
    lemma_holds_prefix(rest, k, x, NodeView::joined(symbol, operands, 1, full).len() as int);
    lemma_begins(rest, k, operands[0].text(full));
}

/// The text of a tree that can be read reads as the tree, but for the
/// positions of its nodes, wherever it stands in a text before a blank, a
/// closing bracket or the end, with no operator up to the rank at which it
/// is read behind it.
pub proof fn lemma_reads(
    t: NodeView,
    rank: int,
    full: bool,
    rest: Seq<char>,
    origin: ScanPosition,
    k: int,
)
    requires
        0 <= rank <= 5,
        readable(t, rank, full),
        holds(rest, k, t.text(full)),
        stops(rest, k + t.text(full).len()),
        quiet(rest, k + t.text(full).len(), rank),
    ensures
        begins(rest, k),
        exists|node: NodeView|
            #[trigger] reads_to(rank, rest, origin, k, k + t.text(full).len(), node) && shape(node)
                == shape(reread(t, full)),
    decreases t, 2int, 0int,
{
    if full && compound(t) {
        let inside = t.bare(full);
        let x = t.text(full);
        assert(x =~= opening(SignType::Positive) + (inside + seq![')']));
        lemma_holds_split(rest, k, opening(SignType::Positive), inside + seq![')']);
        lemma_holds_split(rest, k + 1, inside, seq![')']);
        let close = k + 1 + inside.len();
        lemma_quiet_bracket(rest, close, 5);
        lemma_reads_bare(t, 5, full, rest, origin, k + 1);
        let inner = choose|node: NodeView|
            #[trigger] reads_to(5, rest, origin, k + 1, close, node) && shape(node) == shape(
                reread_bare(t, full),
            );
        lemma_read_brackets(SignType::Positive, rest, origin, k, close, inner);
        let node = NodeView::Parenthesis {
            position: span(rest, origin, k, close + 1),
            sign: SignType::Positive,
            inner: Box::new(inner),
        };
        lemma_lift(0, rank, rest, origin, k, close + 1, node);
        assert(reads_to(rank, rest, origin, k, k + x.len(), node));
    } else {
        lemma_reads_bare(t, rank, full, rest, origin, k);
    }
}

/// The text of a tree without brackets of its own reads as the tree, but
/// for the positions of its nodes.
pub proof fn lemma_reads_bare(
    t: NodeView,
    rank: int,
    full: bool,
    rest: Seq<char>,
    origin: ScanPosition,
    k: int,
)
    requires
        0 <= rank <= 5,
        readable_bare(t, rank, full),
        holds(rest, k, t.bare(full)),
        stops(rest, k + t.bare(full).len()),
        quiet(rest, k + t.bare(full).len(), rank),
    ensures
        begins(rest, k),
        exists|node: NodeView|
            #[trigger] reads_to(rank, rest, origin, k, k + t.bare(full).len(), node) && shape(node)
                == shape(reread_bare(t, full)),
    decreases t, 1int, 0int,
{
    let x = t.bare(full);
    let end = k + x.len();
    match t {
        NodeView::NaN => {},
        NodeView::Integer { value, .. } => {
            lemma_read_integer(value, rest, origin, k);
            let node = NodeView::Integer { position: span(rest, origin, k, end), value };
            lemma_lift(0, rank, rest, origin, k, end, node);
            assert(reads_to(rank, rest, origin, k, end, node));
        },
        NodeView::Decimal { value, .. } => {
            lemma_read_decimal(value, rest, origin, k);
            let node = NodeView::Decimal { position: span(rest, origin, k, end), value };
            lemma_lift(0, rank, rest, origin, k, end, node);
            assert(reads_to(rank, rest, origin, k, end, node));
        },
        NodeView::Parenthesis { sign, inner, .. } => {
            let inside = inner.bare(full);
            assert(x =~= opening(sign) + (inside + seq![')']));
            lemma_holds_split(rest, k, opening(sign), inside + seq![')']);
            let start = k + opening(sign).len();
            lemma_holds_split(rest, start, inside, seq![')']);
            let close = start + inside.len();
            lemma_quiet_bracket(rest, close, 5);
            lemma_reads_bare(*inner, 5, full, rest, origin, start);
            let read = choose|node: NodeView|
                #[trigger] reads_to(5, rest, origin, start, close, node) && shape(node) == shape(
                    reread_bare(*inner, full),
                );
            lemma_read_brackets(sign, rest, origin, k, close, read);
            let node = NodeView::Parenthesis {
                position: span(rest, origin, k, close + 1),
                sign,
                inner: Box::new(read),
            };
            lemma_lift(0, rank, rest, origin, k, close + 1, node);
            assert(reads_to(rank, rest, origin, k, end, node));
        },
        NodeView::Chain { kind, operands, .. } => {
            let below = kind.level();
            let first = operands[0];
            lemma_first_stands(t, full, rest, k);
            lemma_operand_stands(t, full, rest, k, 1);
            let first_end = k + first.text(full).len();
            lemma_quiet_operator(rest, first_end, kind);
            lemma_reads(first, below, full, rest, origin, k);
            let read = choose|node: NodeView|
                #[trigger] reads_to(below, rest, origin, k, first_end, node) && shape(node)
                    == shape(reread(first, full));
            lemma_quiet_below(rest, end, rank, below + 1);
            assert(echo(seq![read], operands, 1, full));
            lemma_operands(t, full, rest, origin, k, 1, seq![read]);
            let nodes = choose|nodes: Seq<NodeView>|
                #[trigger] more_to(kind, rest, origin, first_end + 2, seq![read], end, nodes)
                    && echo(nodes, operands, operands.len() as int, full);
            lemma_holds(rest, k, x);
            lemma_read_chain(kind, rest, origin, k, first_end, read, end, nodes);
            let node = NodeView::Chain { kind, position: span(rest, origin, k, end), operands: nodes };
            lemma_echo_chain(kind, span(rest, origin, k, end), nodes, t, full);
            lemma_lift(below + 1, rank, rest, origin, k, end, node);
            assert(reads_to(rank, rest, origin, k, end, node));
        },
        NodeView::Power { base, exponent, .. } => {
            let base_text = base.text(full);
            let exponent_text = exponent.text(full);
            lemma_starts(*base, bare_rank(*base, 0, full), full);
            lemma_starts(*exponent, bare_rank(*exponent, 0, full), full);
            assert(x =~= base_text + (spaced('^') + exponent_text));
            lemma_holds_split(rest, k, base_text, spaced('^') + exponent_text);
            let first_end = k + base_text.len();
            lemma_holds_split(rest, first_end, spaced('^'), exponent_text);
            lemma_begins(rest, k, base_text);
            lemma_begins(rest, first_end + 3, exponent_text);
            lemma_spaced(rest, first_end, '^');
            lemma_reads(*base, 0, full, rest, origin, k);
            let read_base = choose|node: NodeView|
                #[trigger] reads_to(0, rest, origin, k, first_end, node) && shape(node) == shape(
                    reread(*base, full),
                );
            lemma_quiet_below(rest, end, rank, 0);
            lemma_reads(*exponent, 0, full, rest, origin, first_end + 3);
            let read_exponent = choose|node: NodeView|
                #[trigger] reads_to(0, rest, origin, first_end + 3, end, node) && shape(node)
                    == shape(reread(*exponent, full));
            lemma_read_power(rest, origin, k, first_end, read_base, end, read_exponent);
            let node = NodeView::Power {
                position: span(rest, origin, k, end),
                base: Box::new(read_base),
                exponent: Box::new(read_exponent),
            };
            lemma_lift(1, rank, rest, origin, k, end, node);
            assert(reads_to(rank, rest, origin, k, end, node));
        },
    }
}

/// The operands of a chain from the one at index `i` on read as the
/// operands of the chain, where the text of the chain stands in a text and
/// the operands before them were read as `acc`.
pub proof fn lemma_operands(
    t: NodeView,
    full: bool,
    rest: Seq<char>,
    origin: ScanPosition,
    k: int,
    i: int,
    acc: Seq<NodeView>,
)
    requires
        t is Chain,
        readable_bare(t, t->kind.level() + 1, full),
        holds(rest, k, t.bare(full)),
        stops(rest, k + t.bare(full).len()),
        quiet(rest, k + t.bare(full).len(), t->kind.level() + 1),
        1 <= i < t->operands.len(),
        echo(acc, t->operands, i, full),
    ensures
        exists|nodes: Seq<NodeView>|
            #[trigger] more_to(
                t->kind,
                rest,
                origin,
                k + NodeView::joined(t->kind.symbol(), t->operands, i, full).len() + 2,
                acc,
                k + t.bare(full).len(),
                nodes,
            ) && echo(nodes, t->operands, t->operands.len() as int, full),
    decreases t, 0int, t->operands.len() - i,
{
    let kind = t->kind;
    let operands = t->operands;
    let n = operands.len() as int;
    let symbol = kind.symbol();
    let below = kind.level();
    let x = t.bare(full);
    let end = k + x.len();
    let gap = k + NodeView::joined(symbol, operands, i, full).len();
    let this = operands[i];
    let start = gap + 3;
    let this_end = start + this.text(full).len();
    lemma_operand_stands(t, full, rest, k, i);
    if i + 1 < n {
        lemma_operand_stands(t, full, rest, k, i + 1);
        lemma_quiet_operator(rest, this_end, kind);
        lemma_reads(this, below, full, rest, origin, start);
        let read = choose|node: NodeView|
            #[trigger] reads_to(below, rest, origin, start, this_end, node) && shape(node) == shape(
                reread(this, full),
            );
        lemma_echo_push(acc, operands, i, full, read);
        lemma_operands(t, full, rest, origin, k, i + 1, acc.push(read));
        let nodes = choose|nodes: Seq<NodeView>|
            #[trigger] more_to(kind, rest, origin, this_end + 2, acc.push(read), end, nodes)
                && echo(nodes, operands, n, full);
        lemma_more_goes_on(kind, rest, origin, gap, acc, this_end, read, end, nodes);
        assert(more_to(kind, rest, origin, gap + 2, acc, end, nodes));
    } else {
        lemma_quiet_below(rest, end, below + 1, below);
        lemma_reads(this, below, full, rest, origin, start);
        let read = choose|node: NodeView|
            #[trigger] reads_to(below, rest, origin, start, this_end, node) && shape(node) == shape(
                reread(this, full),
            );
        lemma_echo_push(acc, operands, i, full, read);
        lemma_more_ends(kind, rest, origin, gap, acc, this_end, read);
        assert(more_to(kind, rest, origin, gap + 2, acc, end, acc.push(read)));
    }
}

} // verus!
