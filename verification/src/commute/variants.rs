//! The expressions that are equal to a given one, as trees.
//!
//! A variant of a tree is a tree of the same form, in which the operands of
//! every sum and of every product may stand in another order. Every text
//! that is equal to an expression is the text of a variant of its tree.

use vstd::prelude::*;
use crate::collection::combinations::{
    cartesian, drawn_from, lemma_cartesian_picked, lemma_permutations_drawn, permutations, picked_from,
};
use crate::commute::helper::{
    arranged, arranged_all, bracketed_all, chosen, commuted, commuted_all, iota, joined_texts,
    orders_of, ranges,
};
use crate::commute::laws::{lemma_commuted_all, lemma_joined_texts};
use crate::expression::node::{ChainKind, NodeView};
use crate::expression::rereading::{bare_rank, readable_bare, shape};

verus! {

/// The tree `w` is a variant of the tree `u`: a number is the same
/// number; a parenthesis holds a variant of what the parenthesis holds,
/// with the same sign; a power has a variant of the base and a variant of
/// the exponent; a chain is a chain of the same kind, whose operands are
/// variants of the operands of the chain, taken in one of the orders in
/// which they may stand.
pub open spec fn variant(u: NodeView, w: NodeView) -> bool
    decreases u,
{
    match u {
        NodeView::Parenthesis { sign, inner, .. } => {
            &&& w is Parenthesis
            &&& w->sign == sign
            &&& variant(*inner, *w->inner)
        },
        NodeView::Chain { kind, operands, .. } => {
            &&& w is Chain
            &&& w->kind == kind
            &&& w->operands.len() == operands.len()
            &&& exists|order: Seq<int>|
                {
                    &&& #[trigger] orders_of(kind, operands.len() as int).contains(order)
                    &&& order.len() == operands.len()
                    &&& forall|i: int|
                        0 <= i < operands.len() ==> 0 <= #[trigger] order[i] < operands.len()
                            && variant(operands[order[i]], w->operands[i])
                }
        },
        NodeView::Power { base, exponent, .. } => {
            &&& w is Power
            &&& variant(*base, *w->base)
            &&& variant(*exponent, *w->exponent)
        },
        _ => shape(w) == shape(u),
    }
}

/// The text `x` is the text of a variant of the tree `u`.
pub open spec fn has_variant(u: NodeView, x: Seq<char>) -> bool {
    exists|w: NodeView| #[trigger] variant(u, w) && w.text(false) == x
}

/// Every order in which the operands of a chain may stand lists indices of
/// the operands, as many as there are operands.
pub proof fn lemma_orders(kind: ChainKind, n: int, order: Seq<int>)
    requires
        0 <= n,
        orders_of(kind, n).contains(order),
    ensures
        order.len() == n,
        forall|i: int| 0 <= i < n ==> 0 <= #[trigger] order[i] < n,
{
    match kind {
        ChainKind::Sum | ChainKind::Product => {
            lemma_permutations_drawn(iota(n));
            let orders = permutations(iota(n));
            let w = choose|w: int| 0 <= w < orders.len() && orders[w] == order;
            assert(drawn_from(orders[w], iota(n)));
            assert forall|i: int| 0 <= i < n implies 0 <= #[trigger] order[i] < n by {
                assert(iota(n).contains(order[i]));
                let v = choose|v: int| 0 <= v < iota(n).len() && iota(n)[v] == order[i];
                assert(iota(n)[v] == v);
            }
        },
        ChainKind::Difference | ChainKind::Quotient => {
            let orders = seq![iota(n)];
            let w = choose|w: int| 0 <= w < orders.len() && orders[w] == order;
            assert(orders[w] == iota(n));
        },
    }
}

/// A text among the texts of a chain in all of its orders is among the
/// texts of the chain in one of them.
pub proof fn lemma_arranged_all_member(
    operator: Seq<char>,
    options: Seq<Seq<Seq<char>>>,
    orders: Seq<Seq<int>>,
    k: int,
    x: Seq<char>,
)
    requires
        0 <= k <= orders.len(),
        arranged_all(operator, options, orders, k).contains(x),
    ensures
        exists|which: int|
            0 <= which < k && (#[trigger] arranged(operator, options, orders[which])).contains(x),
    decreases k,
{
    let all = arranged_all(operator, options, orders, k);
    let w = choose|w: int| 0 <= w < all.len() && all[w] == x;
    if k > 0 {
        let before = arranged_all(operator, options, orders, k - 1);
        let last = arranged(operator, options, orders[k - 1]);
        if w < before.len() {
            assert(before[w] == x);
            lemma_arranged_all_member(operator, options, orders, k - 1, x);
        } else {
            assert(last[w - before.len()] == x);
            assert(arranged(operator, options, orders[k - 1]).contains(x));
        }
    }
}

/// A text among the texts of a chain in one order joins, for each place of
/// the order, one of the texts of the operand at that place.
pub proof fn lemma_arranged_member(
    operator: Seq<char>,
    options: Seq<Seq<Seq<char>>>,
    order: Seq<int>,
    x: Seq<char>,
)
    requires
        arranged(operator, options, order).contains(x),
    ensures
        exists|pick: Seq<int>|
            {
                &&& pick.len() == order.len()
                &&& forall|i: int|
                    0 <= i < order.len() ==> 0 <= #[trigger] pick[i] < options[order[i]].len()
                &&& x == joined_texts(#[trigger] chosen(options, order, pick), operator, order.len() as int)
            },
{
    let spaces = ranges(options, order);
    let picks = cartesian(spaces);
    let all = arranged(operator, options, order);
    let q = choose|q: int| 0 <= q < all.len() && all[q] == x;
    let pick = picks[q];
    lemma_cartesian_picked(spaces, spaces.len() as int);
    assert(picked_from(pick, spaces, spaces.len() as int));
    assert forall|i: int| 0 <= i < order.len() implies 0 <= #[trigger] pick[i] < options[order[i]].len() by {
        assert(spaces[i].contains(pick[i]));
        let v = choose|v: int| 0 <= v < spaces[i].len() && spaces[i][v] == pick[i];
        assert(spaces[i][v] == v);
    }
    assert(x == joined_texts(chosen(options, order, pick), operator, order.len() as int));
}

/// Every text that is equal to an expression is the text of a variant of
/// the tree of the expression.
pub proof fn lemma_commuted_sound(u: NodeView, x: Seq<char>)
    requires
        commuted(u).contains(x),
    ensures
        has_variant(u, x),
    decreases u,
{
    match u {
        NodeView::Parenthesis { position, sign, inner } => {
            let inside = commuted(*inner);
            let all = bracketed_all(sign, inside);
            let q = choose|q: int| 0 <= q < all.len() && all[q] == x;
            assert(inside.contains(inside[q]));
            lemma_commuted_sound(*inner, inside[q]);
            let v = choose|v: NodeView| #[trigger] variant(*inner, v) && v.text(false) == inside[q];
            let w = NodeView::Parenthesis { position, sign, inner: Box::new(v) };
            assert(variant(u, w));
            assert(w.text(false) == x);
        },
        NodeView::Chain { kind, position, operands } => {
            let n = operands.len() as int;
            let operator = seq![kind.symbol()];
            let options = commuted_all(operands, n);
            lemma_commuted_all(operands, n);
            let orders = orders_of(kind, n);
            lemma_arranged_all_member(operator, options, orders, orders.len() as int, x);
            let which = choose|which: int|
                0 <= which < orders.len() && (#[trigger] arranged(
                    operator,
                    options,
                    orders[which],
                )).contains(x);
            let order = orders[which];
            assert(orders.contains(order));
            lemma_orders(kind, n, order);
            lemma_arranged_member(operator, options, order, x);
            let pick = choose|pick: Seq<int>|
                {
                    &&& pick.len() == order.len()
                    &&& forall|i: int|
                        0 <= i < order.len() ==> 0 <= #[trigger] pick[i] < options[order[i]].len()
                    &&& x == joined_texts(
                        #[trigger] chosen(options, order, pick),
                        operator,
                        order.len() as int,
                    )
                };
            let parts = chosen(options, order, pick);
            assert forall|i: int| 0 <= i < n implies #[trigger] has_variant(
                operands[order[i]],
                parts[i],
            ) by {
                assert(0 <= order[i] < n);
                assert(0 <= pick[i] < options[order[i]].len());
                assert(commuted(operands[order[i]]).contains(parts[i]));
                lemma_commuted_sound(operands[order[i]], parts[i]);
            }
            let variants = Seq::new(
                n as nat,
                |i: int|
                    choose|v: NodeView|
                        #[trigger] variant(operands[order[i]], v) && v.text(false) == parts[i],
            );
            let w = NodeView::Chain { kind, position, operands: variants };
            assert(variant(u, w)) by {
                assert forall|i: int| 0 <= i < n implies 0 <= #[trigger] order[i] < n && variant(
                    operands[order[i]],
                    variants[i],
                ) by {
                    assert(has_variant(operands[order[i]], parts[i]));
                }
            }
            assert forall|i: int| 0 <= i < n implies #[trigger] parts[i] == variants[i].text(
                false,
            ) by {
                assert(has_variant(operands[order[i]], parts[i]));
            }
            lemma_joined_texts(parts, kind.symbol(), variants, n, false);
            assert(w.text(false) == x);
        },
        NodeView::Power { position, base, exponent } => {
            let operator = seq!['^'];
            let options = seq![commuted(*base), commuted(*exponent)];
            let orders = seq![iota(2)];
            lemma_arranged_all_member(operator, options, orders, 1, x);
            let order = iota(2);
            assert(orders[0] == order);
            lemma_arranged_member(operator, options, order, x);
            let pick = choose|pick: Seq<int>|
                {
                    &&& pick.len() == order.len()
                    &&& forall|i: int|
                        0 <= i < order.len() ==> 0 <= #[trigger] pick[i] < options[order[i]].len()
                    &&& x == joined_texts(
                        #[trigger] chosen(options, order, pick),
                        operator,
                        order.len() as int,
                    )
                };
            let parts = chosen(options, order, pick);
            assert(0 <= pick[0] < options[order[0]].len());
            assert(0 <= pick[1] < options[order[1]].len());
            assert(commuted(*base).contains(parts[0]));
            assert(commuted(*exponent).contains(parts[1]));
            lemma_commuted_sound(*base, parts[0]);
            lemma_commuted_sound(*exponent, parts[1]);
            let b = choose|v: NodeView| #[trigger] variant(*base, v) && v.text(false) == parts[0];
            let e = choose|v: NodeView| #[trigger] variant(*exponent, v) && v.text(false) == parts[1];
            let w = NodeView::Power { position, base: Box::new(b), exponent: Box::new(e) };
            assert(variant(u, w));
            assert(joined_texts(parts, operator, 2) =~= w.text(false)) by {
                reveal_with_fuel(joined_texts, 3);
            }
        },
        _ => {
            assert(commuted(u) == seq![u.text(false)]);
            let q = choose|q: int| 0 <= q < commuted(u).len() && commuted(u)[q] == x;
            assert(variant(u, u));
        },
    }
}

/// A variant of a tree that can be read can be read.
pub proof fn lemma_variant_readable(u: NodeView, w: NodeView, rank: int)
    requires
        variant(u, w),
        readable_bare(u, rank, false),
    ensures
        readable_bare(w, rank, false),
    decreases u,
{
    match u {
        NodeView::Parenthesis { inner, .. } => {
            lemma_variant_readable(*inner, *w->inner, 5);
        },
        NodeView::Chain { kind, operands, .. } => {
            let n = operands.len() as int;
            let order = choose|order: Seq<int>|
                {
                    &&& #[trigger] orders_of(kind, n).contains(order)
                    &&& order.len() == n
                    &&& forall|i: int|
                        0 <= i < n ==> 0 <= #[trigger] order[i] < n && variant(
                            operands[order[i]],
                            w->operands[i],
                        )
                };
            assert forall|i: int| 0 <= i < n implies readable_bare(
                #[trigger] w->operands[i],
                bare_rank(w->operands[i], kind.level(), false),
                false,
            ) by {
                assert(0 <= order[i] < n);
                lemma_variant_readable(operands[order[i]], w->operands[i], kind.level());
            }
        },
        NodeView::Power { base, exponent, .. } => {
            lemma_variant_readable(*base, *w->base, 0);
            lemma_variant_readable(*exponent, *w->exponent, 0);
        },
        NodeView::NaN => {},
        _ => {},
    }
}

} // verus!
