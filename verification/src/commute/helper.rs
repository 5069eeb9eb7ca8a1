//! The expressions that are equal to a given one by the commutative and
//! associative laws of addition and multiplication.
//!
//! The operands of a sum and of a product may stand in any order; those of
//! a difference, of a quotient and of a power keep theirs. Every operand is
//! itself replaced by each of the expressions that are equal to it. The
//! expressions are given as texts, in which an operator stands between
//! single spaces.

use vstd::prelude::*;
use crate::collection::combinations::{
    cartesian, drawn_from, lemma_cartesian_mapped, lemma_cartesian_picked, lemma_permutations_drawn, lemma_permutations_mapped, mapped, mapped_rows, permutations, picked_from,
};
use crate::collection::link_list::{LinkList};
use crate::expression::error::ParsingError;
use crate::expression::format::{bracketed, format_fully_parenthesized, push_text};
use crate::expression::laws::read;
use crate::expression::node::{
    lemma_node_views, node_views, ChainKind, ExpressionNode, NodeView,
};
use crate::expression::numeral::push_char;
use crate::expression::parse::parse;
use crate::expression::value::SignType;
use crate::helpers::vectors::{combinations, permutations as orderings, rows};
use crate::scan::context::{beginning, lemma_origin};

verus! {

/// The texts of strings.
pub open spec fn texts(strings: Seq<String>) -> Seq<Seq<char>> {
    strings.map_values(|s: String| s@)
}

/// The texts of vectors of strings, vector by vector.
pub open spec fn option_texts(options: Seq<Vec<String>>) -> Seq<Seq<Seq<char>>> {
    options.map_values(|o: Vec<String>| texts(o@))
}

/// The numbers from zero up to, and without, `n`.
pub open spec fn iota(n: int) -> Seq<int> {
    Seq::new(n as nat, |i: int| i)
}

/// The number that an index stands for.
pub open spec fn as_number() -> spec_fn(usize) -> int {
    |x: usize| x as int
}

/// The first `n` of `parts` with `operator` between single spaces between
/// them.
pub open spec fn joined_texts(parts: Seq<Seq<char>>, operator: Seq<char>, n: int) -> Seq<char>
    decreases n,
{
    if n <= 0 || n > parts.len() {
        Seq::empty()
    } else if n == 1 {
        parts[0]
    } else {
        joined_texts(parts, operator, n - 1) + seq![' '] + operator + seq![' '] + parts[n - 1]
    }
}

/// For each place of `order`, the indices of the texts that the operand at
/// that place may be replaced by.
pub open spec fn ranges(options: Seq<Seq<Seq<char>>>, order: Seq<int>) -> Seq<Seq<int>> {
    Seq::new(order.len(), |i: int| iota(options[order[i]].len() as int))
}

/// The texts that `pick` chooses for the operands in the order `order`.
pub open spec fn chosen(
    options: Seq<Seq<Seq<char>>>,
    order: Seq<int>,
    pick: Seq<int>,
) -> Seq<Seq<char>> {
    Seq::new(order.len(), |i: int| options[order[i]][pick[i]])
}

/// The texts of a chain whose operands stand in the order `order`: one for
/// every way to replace each operand by one of its texts.
pub open spec fn arranged(
    operator: Seq<char>,
    options: Seq<Seq<Seq<char>>>,
    order: Seq<int>,
) -> Seq<Seq<char>> {
    let picks = cartesian(ranges(options, order));
    Seq::new(
        picks.len(),
        |p: int| joined_texts(chosen(options, order, picks[p]), operator, order.len() as int),
    )
}

/// The texts of a chain whose operands stand in each of the first `k` of
/// `orders`.
pub open spec fn arranged_all(
    operator: Seq<char>,
    options: Seq<Seq<Seq<char>>>,
    orders: Seq<Seq<int>>,
    k: int,
) -> Seq<Seq<char>>
    decreases k,
{
    if k <= 0 || k > orders.len() {
        Seq::empty()
    } else {
        arranged_all(operator, options, orders, k - 1) + arranged(operator, options, orders[k - 1])
    }
}

/// The orders in which the `n` operands of a chain may stand: every order
/// for a sum and a product, the given one for a difference and a quotient.
pub open spec fn orders_of(kind: ChainKind, n: int) -> Seq<Seq<int>> {
    match kind {
        ChainKind::Sum | ChainKind::Product => permutations(iota(n)),
        ChainKind::Difference | ChainKind::Quotient => seq![iota(n)],
    }
}

/// Each of `inner` in brackets, with a minus sign in front for a negative
/// sign.
pub open spec fn bracketed_all(sign: SignType, inner: Seq<Seq<char>>) -> Seq<Seq<char>> {
    Seq::new(inner.len(), |i: int| bracketed(sign, inner[i]))
}

/// The texts of the expressions that are equal to the expression by the
/// commutative and associative laws: the text of a number; the texts of
/// what a parenthesis holds, in brackets; the texts of a chain or a power
/// in every order that its operands may stand in, with every operand
/// replaced by each of its texts.
pub open spec fn commuted(node: NodeView) -> Seq<Seq<char>>
    decreases node, 0int,
{
    match node {
        NodeView::Parenthesis { sign, inner, .. } => bracketed_all(sign, commuted(*inner)),
        NodeView::Chain { kind, operands, .. } => arranged_all(
            seq![kind.symbol()],
            commuted_all(operands, operands.len() as int),
            orders_of(kind, operands.len() as int),
            orders_of(kind, operands.len() as int).len() as int,
        ),
        NodeView::Power { base, exponent, .. } => arranged_all(
            seq!['^'],
            seq![commuted(*base), commuted(*exponent)],
            seq![iota(2)],
            1,
        ),
        _ => seq![node.text(false)],
    }
}

/// The texts of each of the first `n` of `operands`.
pub open spec fn commuted_all(operands: Seq<NodeView>, n: int) -> Seq<Seq<Seq<char>>>
    decreases operands, n,
{
    if n <= 0 || n > operands.len() {
        Seq::empty()
    } else {
        commuted_all(operands, n - 1).push(commuted(operands[n - 1]))
    }
}

/// The expression without the parentheses with a positive sign that hold
/// all of it.
pub open spec fn stripped(node: NodeView) -> NodeView
    decreases node,
{
    match node {
        NodeView::Parenthesis { sign: SignType::Positive, inner, .. } => stripped(*inner),
        _ => node,
    }
}

/// The texts of the expressions that are equal to the one that `text`
/// holds, or the error that reading it gives.
pub open spec fn commuted_text(text: Seq<char>) -> Result<Seq<Seq<char>>, ParsingError> {
    match read(text) {
        Ok(node) => Ok(commuted(node)),
        Err(error) => Err(error),
    }
}

/// Whether the expression `candidate` is equal to the expression `target`
/// by the commutative and associative laws: whether the fully
/// parenthesized text of `candidate`, without the parentheses that hold all
/// of it, is among the texts that are equal to the fully parenthesized
/// text of `target`, without the parentheses that hold all of it. An error
/// where one of the texts cannot be read.
pub open spec fn equivalent(target: Seq<char>, candidate: Seq<char>) -> Result<bool, ParsingError> {
    match read(target) {
        Err(error) => Err(error),
        Ok(wanted) => match read(candidate) {
            Err(error) => Err(error),
            Ok(given) => match commuted_text(stripped(wanted).text(true)) {
                Err(error) => Err(error),
                Ok(equal) => Ok(equal.contains(stripped(given).text(true))),
            },
        },
    }
}

/// The numbers from zero up to, and without, `n`.
fn iota_vec(n: usize) -> (numbers: Vec<usize>)
    ensures
        numbers.len() == n,
        forall|i: int| 0 <= i < n ==> #[trigger] numbers[i] == i,
        mapped(numbers@, as_number()) == iota(n as int),
{
    let mut numbers: Vec<usize> = Vec::new();
    let mut i: usize = 0;
    while i < n
        invariant
            i <= n,
            numbers.len() == i,
            forall|j: int| 0 <= j < i ==> #[trigger] numbers[j] == j,
        decreases n - i,
    {
        numbers.push(i);
        i += 1;
    }
    proof {
        assert(mapped(numbers@, as_number()) =~= iota(n as int));
    }
    numbers
}

/// The strings of `parts` with `operator` between single spaces between
/// them.
pub fn join_texts(parts: &Vec<String>, operator: &str) -> (text: String)
    ensures
        text@ == joined_texts(texts(parts@), operator@, parts.len() as int),
{
    let mut text = String::new();
    let mut i: usize = 0;
    proof {
        assert(text@ =~= joined_texts(texts(parts@), operator@, 0));
    }
    while i < parts.len()
        invariant
            i <= parts.len(),
            text@ == joined_texts(texts(parts@), operator@, i as int),
        decreases parts.len() - i,
    {
        if i > 0 {
            push_char(&mut text, ' ');
            push_text(&mut text, operator);
            push_char(&mut text, ' ');
        }
        push_text(&mut text, parts[i].as_str());
        proof {
            assert(texts(parts@)[i as int] == parts[i as int]@);
            assert(text@ =~= joined_texts(texts(parts@), operator@, i + 1));
        }
        i += 1;
    }
    text
}

/// Appends to `results` the texts of a chain whose operands stand in the
/// order `order`.
fn arrange(operator: &str, options: &Vec<Vec<String>>, order: &Vec<usize>, results: &mut Vec<String>)
    requires
        forall|i: int| 0 <= i < order.len() ==> (#[trigger] order[i]) < options.len(),
    ensures
        texts(final(results)@) == texts(old(results)@) + arranged(
            operator@,
            option_texts(options@),
            mapped(order@, as_number()),
        ),
{
    let ghost deep = option_texts(options@);
    let ghost places = mapped(order@, as_number());
    let count = order.len();
    let mut spans: Vec<Vec<usize>> = Vec::new();
    let mut i: usize = 0;
    while i < count
        invariant
            i <= count == order.len(),
            deep == option_texts(options@),
            places == mapped(order@, as_number()),
            forall|i: int| 0 <= i < order.len() ==> (#[trigger] order[i]) < options.len(),
            spans.len() == i,
            forall|j: int|
                0 <= j < i ==> (#[trigger] spans[j]).len() == options[order[j] as int].len(),
            forall|j: int, w: int|
                0 <= j < i && 0 <= w < spans[j].len() ==> #[trigger] spans[j][w] == w,
            mapped_rows(rows(spans@), as_number()) == ranges(deep, places).take(i as int),
        decreases count - i,
    {
        let span = iota_vec(options[order[i]].len());
        let ghost before = mapped_rows(rows(spans@), as_number());
        spans.push(span);
        proof {
            assert(deep[order[i as int] as int] == texts(options[order[i as int] as int]@));
            assert(rows(spans@)[i as int] == span@);
            assert(mapped_rows(rows(spans@), as_number()) =~= before.push(
                mapped(span@, as_number()),
            ));
            assert(mapped_rows(rows(spans@), as_number()) =~= ranges(deep, places).take(i + 1));
        }
        i += 1;
    }
    proof {
        assert(ranges(deep, places).take(count as int) =~= ranges(deep, places));
        assert(rows(spans@).len() == count);
    }
    let ghost spaces = rows(spans@);
    let picks = combinations(spans);
    let ghost all = cartesian(spaces);
    let ghost wanted = arranged(operator@, deep, places);
    let ghost start = texts(results@);
    let mut p: usize = 0;
    proof {
        assert(rows(picks@).len() == picks.len());
        lemma_cartesian_picked(spaces, count as int);
        lemma_cartesian_mapped(spaces, count as int, as_number());
        assert(cartesian(ranges(deep, places)) == mapped_rows(all, as_number()));
        assert(start + wanted.take(0) =~= start);
    }
    while p < picks.len()
        invariant
            p <= picks.len(),
            count == order.len(),
            deep == option_texts(options@),
            places == mapped(order@, as_number()),
            forall|i: int| 0 <= i < order.len() ==> (#[trigger] order[i]) < options.len(),
            spaces.len() == count,
            forall|j: int|
                0 <= j < count ==> (#[trigger] spaces[j]).len() == options[order[j] as int].len(),
            forall|j: int, w: int|
                0 <= j < count && 0 <= w < spaces[j].len() ==> #[trigger] spaces[j][w] == w,
            rows(picks@) == all,
            forall|i: int| 0 <= i < all.len() ==> picked_from(#[trigger] all[i], spaces, count as int),
            cartesian(ranges(deep, places)) == mapped_rows(all, as_number()),
            wanted == arranged(operator@, deep, places),
            texts(results@) == start + wanted.take(p as int),
        decreases picks.len() - p,
    {
        let pick = &picks[p];
        proof {
            assert(rows(picks@)[p as int] == pick@);
            assert(picked_from(all[p as int], spaces, count as int));
        }
        let ghost choice = mapped(pick@, as_number());
        let mut parts: Vec<String> = Vec::new();
        let mut i: usize = 0;
        proof {
            assert(texts(parts@) =~= chosen(deep, places, choice).take(0));
        }
        while i < count
            invariant
                i <= count == order.len(),
                pick.len() == count,
                deep == option_texts(options@),
                places == mapped(order@, as_number()),
                choice == mapped(pick@, as_number()),
                forall|i: int| 0 <= i < order.len() ==> (#[trigger] order[i]) < options.len(),
                spaces.len() == count,
                forall|j: int|
                    0 <= j < count ==> (#[trigger] spaces[j]).len() == options[order[j] as int].len(),
                forall|j: int, w: int|
                    0 <= j < count && 0 <= w < spaces[j].len() ==> #[trigger] spaces[j][w] == w,
                picked_from(pick@, spaces, count as int),
                texts(parts@) == chosen(deep, places, choice).take(i as int),
            decreases count - i,
        {
            let which = order[i];
            proof {
                assert(deep[which as int] == texts(options[which as int]@));
                assert(spaces[i as int].contains(pick@[i as int]));
                let w = choose|w: int|
                    0 <= w < spaces[i as int].len() && spaces[i as int][w] == pick@[i as int];
                assert(spaces[i as int][w] == w);
            }
            let part = options[which][pick[i]].clone();
            let ghost before = texts(parts@);
            parts.push(part);
            proof {
                assert(texts(options[which as int]@)[pick[i as int] as int] == part@);
                assert(texts(parts@) =~= before.push(part@));
                assert(texts(parts@) =~= chosen(deep, places, choice).take(i + 1));
            }
            i += 1;
        }
        proof {
            assert(chosen(deep, places, choice).take(count as int) =~= chosen(deep, places, choice));
        }
        let text = join_texts(&parts, operator);
        let ghost before = texts(results@);
        results.push(text);
        proof {
            assert(texts(results@) =~= before.push(text@));
            assert(mapped_rows(all, as_number())[p as int] == choice);
            assert(wanted[p as int] == text@);
            assert(texts(results@) =~= start + wanted.take(p + 1));
        }
        p += 1;
    }
    proof {
        assert(wanted.take(picks.len() as int) =~= wanted);
    }
}

/// The texts of a chain whose operands stand in each of `orders`.
fn arrange_all(operator: &str, options: &Vec<Vec<String>>, orders: &Vec<Vec<usize>>) -> (results: Vec<
    String,
>)
    requires
        forall|k: int, i: int|
            0 <= k < orders.len() && 0 <= i < orders[k].len() ==> (#[trigger] orders[k][i])
                < options.len(),
    ensures
        texts(results@) == arranged_all(
            operator@,
            option_texts(options@),
            mapped_rows(rows(orders@), as_number()),
            orders.len() as int,
        ),
{
    let ghost places = mapped_rows(rows(orders@), as_number());
    let mut results: Vec<String> = Vec::new();
    let mut k: usize = 0;
    proof {
        assert(texts(results@) =~= arranged_all(operator@, option_texts(options@), places, 0));
    }
    while k < orders.len()
        invariant
            k <= orders.len(),
            places == mapped_rows(rows(orders@), as_number()),
            forall|k: int, i: int|
                0 <= k < orders.len() && 0 <= i < orders[k].len() ==> (#[trigger] orders[k][i])
                    < options.len(),
            texts(results@) == arranged_all(operator@, option_texts(options@), places, k as int),
        decreases orders.len() - k,
    {
        proof {
            assert(rows(orders@)[k as int] == orders[k as int]@);
            assert(rows(orders@).len() == orders.len());
            assert(places[k as int] == mapped(orders[k as int]@, as_number()));
        }
        arrange(operator, options, &orders[k], &mut results);
        k += 1;
    }
    results
}

/// The text of the operator `symbol`.
fn operator_text(symbol: char) -> (text: String)
    ensures
        text@ == seq![symbol],
{
    let mut text = String::new();
    push_char(&mut text, symbol);
    proof {
        assert(text@ =~= seq![symbol]);
    }
    text
}

/// The texts of each of `operands`.
fn commute_operands(holder: &ExpressionNode, operands: &Vec<ExpressionNode>) -> (options: Vec<
    Vec<String>,
>)
    requires
        decreases_to!(holder => operands),
    ensures
        option_texts(options@) == commuted_all(
            node_views(operands@, operands.len() as int),
            operands.len() as int,
        ),
        options.len() == operands.len(),
    decreases holder, 0int,
{
    let ghost views = node_views(operands@, operands.len() as int);
    let mut options: Vec<Vec<String>> = Vec::new();
    let mut i: usize = 0;
    proof {
        lemma_node_views(operands@, operands.len() as int);
        assert(option_texts(options@) =~= commuted_all(views, 0));
    }
    while i < operands.len()
        invariant
            i <= operands.len(),
            options.len() == i,
            decreases_to!(holder => operands),
            views == node_views(operands@, operands.len() as int),
            views.len() == operands.len(),
            forall|j: int| 0 <= j < operands.len() ==> #[trigger] views[j] == operands[j]@,
            option_texts(options@) == commuted_all(views, i as int),
        decreases operands.len() - i,
    {
        proof {
            vstd::std_specs::vec::axiom_vec_index_decreases(*operands, i as int);
        }
        let option = commute(&operands[i]);
        let ghost before = option_texts(options@);
        options.push(option);
        proof {
            assert(option_texts(options@) =~= before.push(texts(option@)));
        }
        i += 1;
    }
    options
}

/// The texts of a sum or a product: its operands in every order, each
/// replaced by each of its texts.
fn commute_chained_operands(
    holder: &ExpressionNode,
    operands: &Vec<ExpressionNode>,
    kind: ChainKind,
) -> (results: Vec<String>)
    requires
        decreases_to!(holder => operands),
        kind == ChainKind::Sum || kind == ChainKind::Product,
    ensures
        texts(results@) == commuted(
            NodeView::Chain {
                kind,
                position: holder@.span(),
                operands: node_views(operands@, operands.len() as int),
            },
        ),
    decreases holder, 1int,
{
    let options = commute_operands(holder, operands);
    let numbers = iota_vec(operands.len());
    let ghost given = numbers@;
    let orders = orderings(numbers);
    proof {
        lemma_node_views(operands@, operands.len() as int);
        lemma_permutations_drawn(given);
        lemma_permutations_mapped(given, as_number());
        assert forall|k: int, i: int| 0 <= k < orders.len() && 0 <= i < orders[k].len() implies (
        #[trigger] orders[k][i]) < options.len() by {
            assert(rows(orders@)[k] == orders[k]@);
            assert(drawn_from(rows(orders@)[k], given));
            assert(given.contains(orders[k]@[i]));
            let w = choose|w: int| 0 <= w < given.len() && given[w] == orders[k]@[i];
            assert(given[w] == w);
        }
        assert(rows(orders@).len() == orders.len());
    }
    let operator = operator_text(kind.symbol_char());
    arrange_all(operator.as_str(), &options, &orders)
}

/// The texts of a difference or a quotient: its operands in their order,
/// each replaced by each of its texts.
fn commute_nested_expressions(
    holder: &ExpressionNode,
    operands: &Vec<ExpressionNode>,
    kind: ChainKind,
) -> (results: Vec<String>)
    requires
        decreases_to!(holder => operands),
        kind == ChainKind::Difference || kind == ChainKind::Quotient,
    ensures
        texts(results@) == commuted(
            NodeView::Chain {
                kind,
                position: holder@.span(),
                operands: node_views(operands@, operands.len() as int),
            },
        ),
    decreases holder, 1int,
{
    let options = commute_operands(holder, operands);
    let mut orders: Vec<Vec<usize>> = Vec::new();
    orders.push(iota_vec(operands.len()));
    proof {
        lemma_node_views(operands@, operands.len() as int);
        assert(rows(orders@)[0] == orders[0]@);
        assert(mapped_rows(rows(orders@), as_number()) =~= seq![iota(operands.len() as int)]);
    }
    let operator = operator_text(kind.symbol_char());
    arrange_all(operator.as_str(), &options, &orders)
}

/// The texts of the expressions that are equal to the expression by the
/// commutative and associative laws.
pub fn commute(node: &ExpressionNode) -> (results: Vec<String>)
    ensures
        texts(results@) == commuted(node@),
    decreases node, 2int,
{
    match node {
        ExpressionNode::Parenthesis { sign, inner, .. } => {
            let inside = commute(inner);
            let mut results: Vec<String> = Vec::new();
            let mut i: usize = 0;
            proof {
                assert(texts(results@) =~= bracketed_all(*sign, texts(inside@)).take(0));
            }
            while i < inside.len()
                invariant
                    i <= inside.len(),
                    texts(results@) == bracketed_all(*sign, texts(inside@)).take(i as int),
                decreases inside.len() - i,
            {
                let mut text = String::new();
                match sign {
                    SignType::Negative => {
                        push_char(&mut text, '-');
                    },
                    SignType::Positive => {},
                }
                push_char(&mut text, '(');
                push_text(&mut text, inside[i].as_str());
                push_char(&mut text, ')');
                let ghost before = texts(results@);
                results.push(text);
                proof {
                    assert(texts(inside@)[i as int] == inside[i as int]@);
                    assert(text@ =~= bracketed(*sign, inside[i as int]@));
                    assert(texts(results@) =~= before.push(text@));
                    assert(texts(results@) =~= bracketed_all(*sign, texts(inside@)).take(i + 1));
                }
                i += 1;
            }
            proof {
                assert(bracketed_all(*sign, texts(inside@)).take(inside.len() as int)
                    =~= bracketed_all(*sign, texts(inside@)));
                assert(texts(inside@).len() == inside.len());
            }
            results
        },
        ExpressionNode::Sum { operands, .. } => commute_chained_operands(
            node,
            operands,
            ChainKind::Sum,
        ),
        ExpressionNode::Product { operands, .. } => commute_chained_operands(
            node,
            operands,
            ChainKind::Product,
        ),
        ExpressionNode::Difference { operands, .. } => commute_nested_expressions(
            node,
            operands,
            ChainKind::Difference,
        ),
        ExpressionNode::Quotient { operands, .. } => commute_nested_expressions(
            node,
            operands,
            ChainKind::Quotient,
        ),
        ExpressionNode::Power { base, exponent, .. } => {
            let mut options: Vec<Vec<String>> = Vec::new();
            options.push(commute(base));
            options.push(commute(exponent));
            let mut orders: Vec<Vec<usize>> = Vec::new();
            orders.push(iota_vec(2));
            proof {
                assert(option_texts(options@) =~= seq![commuted(base@), commuted(exponent@)]);
                assert(rows(orders@)[0] == orders[0]@);
                assert(mapped_rows(rows(orders@), as_number()) =~= seq![iota(2)]);
            }
            let operator = operator_text('^');
            arrange_all(operator.as_str(), &options, &orders)
        },
        _ => {
            let mut results: Vec<String> = Vec::new();
            let text = crate::expression::format::format(node);
            results.push(text);
            proof {
                assert(texts(results@) =~= seq![node@.text(false)]);
            }
            results
        },
    }
}

/// The expression without the parentheses with a positive sign that hold
/// all of it.
fn strip(node: &ExpressionNode) -> (inner: &ExpressionNode)
    ensures
        inner@ == stripped(node@),
    decreases node,
{
    match node {
        ExpressionNode::Parenthesis { sign: SignType::Positive, inner, .. } => strip(inner),
        _ => node,
    }
}

/// The tree of the expression that takes up the whole of `text`.
fn read_text(text: &str) -> (result: Result<ExpressionNode, ParsingError>)
    ensures
        match read(text@) {
            Ok(node) => result matches Ok(found) && found@ == node,
            Err(error) => result matches Err(found) && found == error,
        },
{
    proof {
        lemma_origin(text@);
    }
    match parse(text, beginning()) {
        Ok((_, node)) => Ok(node),
        Err(error) => Err(error),
    }
}

/// The texts of the expressions that are equal to the one that the text
/// holds by the commutative and associative laws, or the error that
/// reading the text gives.
#[allow(non_snake_case)]
pub fn generateCommutedExpressions(theExpressionText: &str) -> (result: Result<
    LinkList<String>,
    ParsingError,
>)
    ensures
        match commuted_text(theExpressionText@) {
            Ok(all) => result matches Ok(list) && texts(list@) == all,
            Err(error) => result matches Err(found) && found == error,
        },
{
    match read_text(theExpressionText) {
        Ok(node) => Ok(LinkList::from_vec(commute(&node))),
        Err(error) => Err(error),
    }
}

/// The strings of `operands` with `operator` between single spaces between
/// them; the empty string where there are none.
#[allow(non_snake_case)]
pub fn formatStringOperands(operands: LinkList<String>, operator: String) -> (text: String)
    ensures
        text@ == joined_texts(texts(operands@), operator@, operands@.len() as int),
{
    let parts = operands.to_vec();
    proof {
        assert(texts(parts@) =~= texts(operands@));
    }
    join_texts(&parts, operator.as_str())
}

/// Whether `text` is among `all`.
fn among(all: &Vec<String>, text: &String) -> (found: bool)
    ensures
        found == texts(all@).contains(text@),
{
    let mut i: usize = 0;
    while i < all.len()
        invariant
            i <= all.len(),
            forall|j: int| 0 <= j < i ==> texts(all@)[j] != text@,
        decreases all.len() - i,
    {
        if all[i] == *text {
            proof {
                assert(texts(all@)[i as int] == text@);
            }
            return true;
        }
        proof {
            assert(texts(all@)[i as int] == all[i as int]@);
        }
        i += 1;
    }
    false
}

/// Whether the expression `checkedExpression` is equal to the expression
/// `targetExpression` by the commutative and associative laws of addition
/// and multiplication; an error where one of the two cannot be read.
#[allow(non_snake_case)]
pub fn areExpressionsEquivalent(targetExpression: String, checkedExpression: String) -> (result:
    Result<bool, ParsingError>)
    ensures
        result == equivalent(targetExpression@, checkedExpression@),
{
    let wanted = match read_text(targetExpression.as_str()) {
        Ok(node) => node,
        Err(error) => {
            return Err(error);
        },
    };
    let given = match read_text(checkedExpression.as_str()) {
        Ok(node) => node,
        Err(error) => {
            return Err(error);
        },
    };
    let wanted_text = format_fully_parenthesized(strip(&wanted));
    let given_text = format_fully_parenthesized(strip(&given));
    let target = match read_text(wanted_text.as_str()) {
        Ok(node) => node,
        Err(error) => {
            return Err(error);
        },
    };
    let equal = commute(&target);
    Ok(among(&equal, &given_text))
}

/// The text of the expression that `theExpressionText` holds, without the
/// parentheses that hold all of it; an error where the text cannot be
/// read.
#[allow(non_snake_case)]
pub fn removeParenthesis(theExpressionText: String) -> (result: Result<String, ParsingError>)
    ensures
        match read(theExpressionText@) {
            Ok(node) => result matches Ok(text) && text@ == stripped(node).text(false),
            Err(error) => result matches Err(found) && found == error,
        },
{
    match read_text(theExpressionText.as_str()) {
        Ok(node) => Ok(crate::expression::format::format(strip(&node))),
        Err(error) => Err(error),
    }
}

} // verus!
