//! What holds of reading, rendering and evaluating together.

use vstd::prelude::*;
use crate::expression::error::ParsingError;
use crate::expression::grammar::{
    at, bounded, chain, expression, lemma_run_end, more, number, operand, operator_at, power,
    run_end, spaces, value, whole, CharClass,
};
use crate::expression::numeral::lemma_decimal_of_reduced;
use crate::expression::node::{ChainKind, NodeView};
use crate::expression::reading::{holds, lemma_no_spaces};
use crate::expression::rereading::{
    lemma_reads, lemma_rereads, lemma_shapes, lemma_shapes_equal, read_at, readable, readable_bare, reads_to, reread, reread_bare, rereads, shape, shapes,
};
use crate::expression::value::DecimalModel;
use crate::scan::context::ScanPosition;

verus! {

/// The tree of the expression that takes up the whole of `text`, or the
/// error that reading it gives.
pub open spec fn read(text: Seq<char>) -> Result<NodeView, ParsingError> {
    match whole(text, ScanPosition::origin(), 0) {
        Ok((_, node)) => Ok(node),
        Err(error) => Err(error),
    }
}

/// The text of a tree that can be read, taken by itself, reads as the
/// tree, but for the positions of its nodes.
pub proof fn lemma_text_reads(t: NodeView, full: bool)
    requires
        readable(t, 5, full),
    ensures
        read(t.text(full)) matches Ok(node) && shape(node) == shape(reread(t, full)),
{
    let x = t.text(full);
    let origin = ScanPosition::origin();
    assert(holds(x, 0, x)) by {
        reveal(holds);
        assert(x.subrange(0, 0 + x.len() as int) =~= x);
    }
    lemma_no_spaces(x, x.len() as int);
    lemma_reads(t, 5, full, x, origin, 0);
    let node = choose|node: NodeView|
        #[trigger] reads_to(5, x, origin, 0, 0 + x.len() as int, node) && shape(node) == shape(
            reread(t, full),
        );
    assert(read_at(5, x, origin, 0) == Ok::<(int, NodeView), ParsingError>((x.len() as int, node)))
        by {
        reveal(reads_to);
    }
}

/// The value of a tree does not depend on the positions of its nodes.
pub proof fn lemma_value_shape(t: NodeView, model: DecimalModel)
    ensures
        shape(t).value(model) == t.value(model),
    decreases t, 1int,
{
    match t {
        NodeView::Parenthesis { inner, .. } => {
            lemma_value_shape(*inner, model);
        },
        NodeView::Chain { kind, operands, .. } => {
            lemma_folded_shape(kind, operands, operands.len() as int, model);
            lemma_shapes(operands, operands.len() as int);
        },
        NodeView::Power { base, exponent, .. } => {
            lemma_value_shape(*base, model);
            lemma_value_shape(*exponent, model);
        },
        _ => {},
    }
}

/// The value of the operands of a chain does not depend on the positions
/// of the nodes of the operands.
pub proof fn lemma_folded_shape(
    kind: ChainKind,
    operands: Seq<NodeView>,
    n: int,
    model: DecimalModel,
)
    requires
        0 <= n <= operands.len(),
    ensures
        NodeView::folded(kind, shapes(operands, operands.len() as int), n, model)
            == NodeView::folded(kind, operands, n, model),
    decreases operands, n,
{
    lemma_shapes(operands, operands.len() as int);
    if n >= 1 {
        lemma_value_shape(operands[n - 1], model);
        if n > 1 {
            lemma_folded_shape(kind, operands, n - 1, model);
        }
    }
}

/// The tree that the text of a tree reads as has the value of the tree:
/// the parentheses that the fully parenthesized form adds change no value.
pub proof fn lemma_reread_value(t: NodeView, full: bool, model: DecimalModel)
    ensures
        reread(t, full).value(model) == t.value(model),
        reread_bare(t, full).value(model) == t.value(model),
    decreases t, 1int,
{
    match t {
        NodeView::Parenthesis { inner, .. } => {
            lemma_reread_value(*inner, full, model);
        },
        NodeView::Chain { kind, operands, .. } => {
            lemma_reread_folded(kind, operands, operands.len() as int, full, model);
            lemma_rereads(operands, operands.len() as int, full);
        },
        NodeView::Power { base, exponent, .. } => {
            lemma_reread_value(*base, full, model);
            lemma_reread_value(*exponent, full, model);
        },
        _ => {},
    }
}

/// The trees that the texts of the operands of a chain read as have the
/// value of the operands.
pub proof fn lemma_reread_folded(
    kind: ChainKind,
    operands: Seq<NodeView>,
    n: int,
    full: bool,
    model: DecimalModel,
)
    requires
        0 <= n <= operands.len(),
    ensures
        NodeView::folded(kind, rereads(operands, operands.len() as int, full), n, model)
            == NodeView::folded(kind, operands, n, model),
    decreases operands, n,
{
    lemma_rereads(operands, operands.len() as int, full);
    if n >= 1 {
        lemma_reread_value(operands[n - 1], full, model);
        if n > 1 {
            lemma_reread_folded(kind, operands, n - 1, full, model);
        }
    }
}

/// The fully parenthesized text of an expression reads as an expression of
/// the same value: for every tree without a node that is no expression, in
/// which every chain has two operands or more and every decimal is
/// reduced, and under every arithmetic on decimals.
pub proof fn law_full_text_keeps_value(t: NodeView, model: DecimalModel)
    requires
        readable(t, 5, true),
    ensures
        read(t.text(true)) matches Ok(node) && node.value(model) == t.value(model),
{
    lemma_text_reads(t, true);
    let node = read(t.text(true))->Ok_0;
    lemma_value_shape(node, model);
    lemma_value_shape(reread(t, true), model);
    lemma_reread_value(t, true, model);
}

/// The text of an expression reads as an expression of the same value:
/// for every tree that can be read in the plain form, and under every
/// arithmetic on decimals.
pub proof fn law_text_keeps_value(t: NodeView, model: DecimalModel)
    requires
        readable(t, 5, false),
    ensures
        read(t.text(false)) matches Ok(node) && node.value(model) == t.value(model),
{
    lemma_text_reads(t, false);
    let node = read(t.text(false))->Ok_0;
    lemma_value_shape(node, model);
    lemma_value_shape(reread(t, false), model);
    lemma_reread_value(t, false, model);
}

/// What can be read at a rank can be read at every higher rank.
pub proof fn lemma_readable_above(t: NodeView, low: int, high: int)
    requires
        readable_bare(t, low, false),
        low <= high,
    ensures
        readable_bare(t, high, false),
{
}

/// What is read as a number is an integer or a reduced decimal.
pub proof fn lemma_number_readable(rest: Seq<char>, origin: ScanPosition, k: int)
    requires
        0 <= k <= rest.len(),
    ensures
        number(rest, origin, k) matches Ok((end, node)) ==> readable_bare(node, 0, false) && (
        node is Integer || node is Decimal) && k <= end <= rest.len(),
{
    let start = spaces(rest, k);
    lemma_run_end(rest, k, CharClass::Space);
    let negative = at(rest, start, '-');
    let whole_start = if negative {
        start + 1
    } else {
        start
    };
    let whole_end = run_end(rest, whole_start, CharClass::Digit);
    lemma_run_end(rest, whole_start, CharClass::Digit);
    let point = at(rest, whole_end, '.');
    let fraction_start = if point {
        whole_end + 1
    } else {
        whole_end
    };
    let fraction_end = if point {
        run_end(rest, fraction_start, CharClass::Digit)
    } else {
        fraction_start
    };
    if point {
        lemma_run_end(rest, fraction_start, CharClass::Digit);
    }
    let mark = at(rest, fraction_end, 'e') || at(rest, fraction_end, 'E');
    let power_start = if mark {
        fraction_end + 1
    } else {
        fraction_end
    };
    let power_end = if mark {
        run_end(rest, power_start, CharClass::Digit)
    } else {
        power_start
    };
    if mark {
        lemma_run_end(rest, power_start, CharClass::Digit);
    }
    let whole_digits = rest.subrange(whole_start, whole_end);
    let fraction_digits = rest.subrange(fraction_start, fraction_end);
    let power_digits = rest.subrange(power_start, power_end);
    assert forall|i: int| 0 <= i < whole_digits.len() implies crate::expression::numeral::is_digit(
        #[trigger] whole_digits[i],
    ) by {
        assert(whole_digits[i] == rest[whole_start + i]);
    }
    assert forall|i: int|
        0 <= i < fraction_digits.len() implies crate::expression::numeral::is_digit(
        #[trigger] fraction_digits[i],
    ) by {
        assert(fraction_digits[i] == rest[fraction_start + i]);
    }
    lemma_decimal_of_reduced(negative, whole_digits, fraction_digits, power_digits);
}

/// What is read as a value can be read as a value again.
pub proof fn lemma_value_readable(rest: Seq<char>, origin: ScanPosition, k: int)
    requires
        0 <= k <= rest.len(),
    ensures
        value(rest, origin, k) matches Ok((end, node)) ==> readable_bare(node, 0, false),
    decreases rest.len() - k, 0int,
{
    let start = spaces(rest, k);
    lemma_run_end(rest, k, CharClass::Space);
    let negative = at(rest, start, '-');
    let open = if negative {
        start + 1
    } else {
        start
    };
    if at(rest, open, '(') {
        lemma_chain_readable(ChainKind::Sum, rest, origin, open + 1);
    } else {
        lemma_number_readable(rest, origin, start);
    }
}

/// What is read as a power can be read as a power again.
pub proof fn lemma_power_readable(rest: Seq<char>, origin: ScanPosition, k: int)
    requires
        0 <= k <= rest.len(),
    ensures
        power(rest, origin, k) matches Ok((end, node)) ==> readable_bare(node, 1, false),
    decreases rest.len() - k, 1int,
{
    let start = spaces(rest, k);
    lemma_run_end(rest, k, CharClass::Space);
    lemma_value_readable(rest, origin, start);
    match bounded(rest, origin, start, value(rest, origin, start)) {
        Err(_) => {},
        Ok((end, base)) => {
            let hat = spaces(rest, end);
            lemma_run_end(rest, end, CharClass::Space);
            if at(rest, hat, '^') {
                lemma_value_readable(rest, origin, hat + 1);
            }
        },
    }
}

/// What is read as an operand of a chain can be read as one again.
pub proof fn lemma_operand_readable(
    kind: ChainKind,
    rest: Seq<char>,
    origin: ScanPosition,
    k: int,
)
    requires
        0 <= k <= rest.len(),
    ensures
        operand(kind, rest, origin, k) matches Ok((end, node)) ==> readable_bare(
            node,
            kind.level(),
            false,
        ),
    decreases rest.len() - k, 2 * kind.level(),
{
    match kind {
        ChainKind::Sum => lemma_chain_readable(ChainKind::Difference, rest, origin, k),
        ChainKind::Difference => lemma_chain_readable(ChainKind::Product, rest, origin, k),
        ChainKind::Product => lemma_chain_readable(ChainKind::Quotient, rest, origin, k),
        ChainKind::Quotient => lemma_power_readable(rest, origin, k),
    }
}

/// What is read as a chain can be read as a chain again.
pub proof fn lemma_chain_readable(kind: ChainKind, rest: Seq<char>, origin: ScanPosition, k: int)
    requires
        0 <= k <= rest.len(),
    ensures
        chain(kind, rest, origin, k) matches Ok((end, node)) ==> readable_bare(
            node,
            kind.level() + 1,
            false,
        ),
    decreases rest.len() - k, 2 * kind.level() + 1,
{
    let start = spaces(rest, k);
    lemma_run_end(rest, k, CharClass::Space);
    lemma_operand_readable(kind, rest, origin, start);
    match bounded(rest, origin, start, operand(kind, rest, origin, start)) {
        Err(_) => {},
        Ok((end, first)) => {
            let sign = spaces(rest, end);
            lemma_run_end(rest, end, CharClass::Space);
            if operator_at(kind, rest, sign) {
                lemma_more_readable(kind, rest, origin, sign + 1, seq![first]);
            }
        },
    }
}

/// The operands that are read after an operator of a chain can be read as
/// operands of the chain again, and there is one of them at least.
pub proof fn lemma_more_readable(
    kind: ChainKind,
    rest: Seq<char>,
    origin: ScanPosition,
    k: int,
    acc: Seq<NodeView>,
)
    requires
        0 <= k <= rest.len(),
        forall|j: int| 0 <= j < acc.len() ==> readable_bare(#[trigger] acc[j], kind.level(), false),
    ensures
        more(kind, rest, origin, k, acc) matches Ok((end, nodes)) ==> nodes.len() > acc.len()
            && forall|j: int|
            0 <= j < nodes.len() ==> readable_bare(#[trigger] nodes[j], kind.level(), false),
    decreases rest.len() - k, 2 * kind.level() + 1,
{
    lemma_operand_readable(kind, rest, origin, k);
    match bounded(rest, origin, k, operand(kind, rest, origin, k)) {
        Err(_) => {},
        Ok((end, next)) => {
            let sign = spaces(rest, end);
            lemma_run_end(rest, end, CharClass::Space);
            let longer = acc.push(next);
            assert forall|j: int| 0 <= j < longer.len() implies readable_bare(
                #[trigger] longer[j],
                kind.level(),
                false,
            ) by {
                if j < acc.len() {
                    assert(longer[j] == acc[j]);
                }
            }
            if operator_at(kind, rest, sign) {
                lemma_more_readable(kind, rest, origin, sign + 1, longer);
            }
        },
    }
}

/// The grammar gives no unknown error, and what it reads ends within the
/// text, at or after the index from which it was read.
pub proof fn lemma_known(rank: int, rest: Seq<char>, origin: ScanPosition, k: int)
    requires
        0 <= k <= rest.len(),
        0 <= rank <= 5,
    ensures
        !(read_at(rank, rest, origin, k) matches Err(ParsingError::Unknown(_))),
        read_at(rank, rest, origin, k) matches Ok((end, _)) ==> k <= end <= rest.len(),
    decreases rest.len() - k, rank,
{
    let start = spaces(rest, k);
    lemma_run_end(rest, k, CharClass::Space);
    if rank == 0 {
        let negative = at(rest, start, '-');
        let open = if negative {
            start + 1
        } else {
            start
        };
        if at(rest, open, '(') {
            lemma_known(5, rest, origin, open + 1);
            match chain(ChainKind::Sum, rest, origin, open + 1) {
                Ok((end, _)) => {
                    lemma_run_end(rest, end, CharClass::Space);
                },
                Err(_) => {},
            }
        } else {
            lemma_run_end(rest, start, CharClass::Space);
            lemma_number_readable(rest, origin, start);
        }
    } else if rank == 1 {
        lemma_known(0, rest, origin, start);
        match value(rest, origin, start) {
            Err(_) => {},
            Ok((end, _)) => {
                let hat = spaces(rest, end);
                lemma_run_end(rest, end, CharClass::Space);
                if at(rest, hat, '^') {
                    lemma_known(0, rest, origin, hat + 1);
                }
            },
        }
    } else {
        let kind = crate::expression::rereading::kind_at(rank);
        lemma_known(rank - 1, rest, origin, start);
        assert(operand(kind, rest, origin, start) == read_at(rank - 1, rest, origin, start));
        match operand(kind, rest, origin, start) {
            Err(_) => {},
            Ok((end, first)) => {
                let sign = spaces(rest, end);
                lemma_run_end(rest, end, CharClass::Space);
                if operator_at(kind, rest, sign) {
                    lemma_more_known(rank, rest, origin, sign + 1, seq![first]);
                }
            },
        }
    }
}

/// Reading more operands gives no unknown error, and ends within the text,
/// at or after the index from which they were read.
pub proof fn lemma_more_known(
    rank: int,
    rest: Seq<char>,
    origin: ScanPosition,
    k: int,
    acc: Seq<NodeView>,
)
    requires
        0 <= k <= rest.len(),
        2 <= rank <= 5,
    ensures
        !(more(crate::expression::rereading::kind_at(rank), rest, origin, k, acc) matches Err(
            ParsingError::Unknown(_),
        )),
        more(crate::expression::rereading::kind_at(rank), rest, origin, k, acc) matches Ok(
            (end, _),
        ) ==> k <= end <= rest.len(),
    decreases rest.len() - k, rank,
{
    let kind = crate::expression::rereading::kind_at(rank);
    lemma_known(rank - 1, rest, origin, k);
    assert(operand(kind, rest, origin, k) == read_at(rank - 1, rest, origin, k));
    match operand(kind, rest, origin, k) {
        Err(_) => {},
        Ok((end, next)) => {
            let sign = spaces(rest, end);
            lemma_run_end(rest, end, CharClass::Space);
            if operator_at(kind, rest, sign) {
                lemma_more_known(rank, rest, origin, sign + 1, acc.push(next));
            }
        },
    }
}

/// Reading a text gives no unknown error.
pub proof fn law_never_unknown(text: Seq<char>)
    ensures
        !(read(text) matches Err(ParsingError::Unknown(_))),
{
    lemma_known(5, text, ScanPosition::origin(), 0);
}

/// In the plain form the text of a tree reads as the tree itself, but for
/// the positions of its nodes.
pub proof fn lemma_reread_plain(t: NodeView)
    ensures
        shape(reread(t, false)) == shape(t),
        shape(reread_bare(t, false)) == shape(t),
    decreases t, 1int,
{
    match t {
        NodeView::Parenthesis { inner, .. } => {
            lemma_reread_plain(*inner);
        },
        NodeView::Chain { kind, operands, .. } => {
            let n = operands.len() as int;
            lemma_rereads(operands, n, false);
            assert forall|i: int| 0 <= i < n implies shape(
                #[trigger] rereads(operands, n, false)[i],
            ) == shape(operands[i]) by {
                lemma_reread_plain(operands[i]);
            }
            lemma_shapes_equal(rereads(operands, n, false), operands);
        },
        NodeView::Power { base, exponent, .. } => {
            lemma_reread_plain(*base);
            lemma_reread_plain(*exponent);
        },
        _ => {},
    }
}

/// Every expression that is read can be read again from its text.
pub proof fn lemma_read_readable(text: Seq<char>)
    ensures
        read(text) matches Ok(node) ==> readable(node, 5, false),
{
    lemma_chain_readable(ChainKind::Sum, text, ScanPosition::origin(), 0);
}

/// The text of an expression that was read reads as the same expression
/// again, but for the positions of its nodes: for every text that can be
/// read.
pub proof fn law_text_reads_back(text: Seq<char>)
    ensures
        read(text) matches Ok(node) ==> (read(node.text(false)) matches Ok(again) && shape(again)
            == shape(node)),
{
    match read(text) {
        Err(_) => {},
        Ok(node) => {
            lemma_read_readable(text);
            lemma_text_reads(node, false);
            lemma_reread_plain(node);
        },
    }
}

} // verus!
