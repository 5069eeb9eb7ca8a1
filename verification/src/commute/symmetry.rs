//! Equality by the commutative and associative laws is symmetric.
//!
//! A text is equal to an expression exactly where it is the text of a
//! variant of the tree of the expression, and a tree is a variant of each
//! of its variants.

use vstd::prelude::*;
use crate::collection::combinations::{
    cartesian, distinct, drawn_from, lemma_cartesian_contains, lemma_permutations_complete, lemma_permutations_cover, permutations, picked_from,
};
use crate::commute::helper::{
    arranged, bracketed_all, chosen, commuted, commuted_all, equivalent, iota, joined_texts, orders_of, ranges, stripped,
};
use crate::commute::laws::{
    lemma_arranged_all_contains, lemma_commuted_all, lemma_commuted_shape, lemma_joined_texts,
    lemma_readable_full, lemma_reread_text, lemma_stripped_readable,
};
use crate::commute::variants::{
    lemma_commuted_sound, lemma_orders, lemma_variant_readable, variant,
};
use crate::expression::format::bracketed;
use crate::expression::laws::{
    lemma_read_readable, lemma_readable_above, lemma_reread_plain, lemma_text_reads, read,
};
use crate::expression::node::{ChainKind, NodeView};
use crate::expression::rereading::{
    bare_rank, compound, lemma_rereads, lemma_shapes, readable, readable_bare, reread, reread_bare,
    rereads, shape, shapes,
};

verus! {

/// The text of a tree does not depend on the positions of its nodes.
pub proof fn lemma_text_shape(t: NodeView, full: bool)
    ensures
        shape(t).text(full) == t.text(full),
        shape(t).bare(full) == t.bare(full),
    decreases t,
{
    match t {
        NodeView::Parenthesis { inner, .. } => {
            lemma_text_shape(*inner, full);
            assert(shape(t).bare(full) == t.bare(full));
        },
        NodeView::Chain { kind, operands, .. } => {
            let n = operands.len() as int;
            lemma_shapes(operands, n);
            let parts = Seq::new(n as nat, |i: int| operands[i].text(full));
            assert forall|i: int| 0 <= i < n implies #[trigger] parts[i] == shapes(
                operands,
                n,
            )[i].text(full) by {
                lemma_text_shape(operands[i], full);
            }
            lemma_joined_texts(parts, kind.symbol(), operands, n, full);
            lemma_joined_texts(parts, kind.symbol(), shapes(operands, n), n, full);
            assert(shape(t).bare(full) == t.bare(full));
        },
        NodeView::Power { base, exponent, .. } => {
            lemma_text_shape(*base, full);
            lemma_text_shape(*exponent, full);
            assert(shape(t).bare(full) == t.bare(full));
        },
        _ => {
            assert(shape(t).bare(full) == t.bare(full));
        },
    }
    assert(shape(t).text(full) == t.text(full));
}

/// The texts `own`, one of the texts of the operand at each place of an
/// order, are joined among the texts of the chain in that order.
pub proof fn lemma_arranged_has(
    operator: Seq<char>,
    options: Seq<Seq<Seq<char>>>,
    order: Seq<int>,
    own: Seq<Seq<char>>,
)
    requires
        own.len() == order.len(),
        forall|i: int|
            0 <= i < order.len() ==> 0 <= #[trigger] order[i] < options.len()
                && options[order[i]].contains(own[i]),
    ensures
        arranged(operator, options, order).contains(
            joined_texts(own, operator, order.len() as int),
        ),
{
    let n = order.len() as int;
    let spaces = ranges(options, order);
    let pick = Seq::new(
        n as nat,
        |i: int| choose|w: int| 0 <= w < options[order[i]].len() && options[order[i]][w] == own[i],
    );
    assert(picked_from(pick, spaces, n)) by {
        assert forall|i: int| 0 <= i < n implies spaces[i].contains(#[trigger] pick[i]) by {
            assert(0 <= order[i] < options.len());
            assert(options[order[i]].contains(own[i]));
            assert(spaces[i] == iota(options[order[i]].len() as int));
            assert(spaces[i][pick[i]] == pick[i]);
        }
    }
    lemma_cartesian_contains(spaces, n, pick);
    let picks = cartesian(spaces);
    let q = choose|q: int| 0 <= q < picks.len() && picks[q] == pick;
    assert(chosen(options, order, pick) =~= own) by {
        assert forall|i: int| 0 <= i < n implies chosen(options, order, pick)[i] == own[i] by {
            assert(0 <= order[i] < options.len());
            assert(options[order[i]].contains(own[i]));
        }
    }
    assert(arranged(operator, options, order)[q] == joined_texts(own, operator, n));
}

/// The text of every variant of a tree is among the texts that are equal
/// to the expression of the tree.
pub proof fn lemma_commuted_complete(u: NodeView, w: NodeView)
    requires
        variant(u, w),
    ensures
        commuted(u).contains(w.text(false)),
    decreases u,
{
    match u {
        NodeView::Parenthesis { sign, inner, .. } => {
            lemma_commuted_complete(*inner, *w->inner);
            let inside = commuted(*inner);
            let q = choose|q: int| 0 <= q < inside.len() && inside[q] == w->inner.text(false);
            assert(bracketed_all(sign, inside)[q] == bracketed(sign, w->inner.text(false)));
        },
        NodeView::Chain { kind, operands, .. } => {
            let n = operands.len() as int;
            let others = w->operands;
            let operator = seq![kind.symbol()];
            let options = commuted_all(operands, n);
            lemma_commuted_all(operands, n);
            let orders = orders_of(kind, n);
            let order = choose|order: Seq<int>|
                {
                    &&& #[trigger] orders_of(kind, n).contains(order)
                    &&& order.len() == n
                    &&& forall|i: int|
                        0 <= i < n ==> 0 <= #[trigger] order[i] < n && variant(
                            operands[order[i]],
                            others[i],
                        )
                };
            let own = Seq::new(n as nat, |i: int| others[i].text(false));
            assert forall|i: int| 0 <= i < order.len() implies 0 <= #[trigger] order[i]
                < options.len() && options[order[i]].contains(own[i]) by {
                assert(0 <= order[i] < n);
                lemma_commuted_complete(operands[order[i]], others[i]);
            }
            lemma_arranged_has(operator, options, order, own);
            lemma_joined_texts(own, kind.symbol(), others, n, false);
            let which = choose|which: int| 0 <= which < orders.len() && orders[which] == order;
            lemma_arranged_all_contains(
                operator,
                options,
                orders,
                orders.len() as int,
                which,
                w.text(false),
            );
        },
        NodeView::Power { base, exponent, .. } => {
            lemma_commuted_complete(*base, *w->base);
            lemma_commuted_complete(*exponent, *w->exponent);
            let operator = seq!['^'];
            let options = seq![commuted(*base), commuted(*exponent)];
            let own = seq![w->base.text(false), w->exponent.text(false)];
            let order = iota(2);
            assert forall|i: int| 0 <= i < order.len() implies 0 <= #[trigger] order[i]
                < options.len() && options[order[i]].contains(own[i]) by {}
            lemma_arranged_has(operator, options, order, own);
            assert(joined_texts(own, operator, 2) =~= w.text(false)) by {
                reveal_with_fuel(joined_texts, 3);
            }
            lemma_arranged_all_contains(operator, options, seq![iota(2)], 1, 0, w.text(false));
        },
        _ => {
            lemma_text_shape(u, false);
            lemma_text_shape(w, false);
            assert(commuted(u)[0] == u.text(false));
        },
    }
}

/// A tree of the shape of a variant of a tree is a variant of that tree.
pub proof fn lemma_variant_shape(u: NodeView, w: NodeView, v: NodeView)
    requires
        variant(u, w),
        shape(w) == shape(v),
    ensures
        variant(u, v),
    decreases u,
{
    match u {
        NodeView::Parenthesis { inner, .. } => {
            lemma_variant_shape(*inner, *w->inner, *v->inner);
        },
        NodeView::Chain { kind, operands, .. } => {
            let n = operands.len() as int;
            lemma_shapes(w->operands, n);
            lemma_shapes(v->operands, v->operands.len() as int);
            let order = choose|order: Seq<int>|
                {
                    &&& #[trigger] orders_of(kind, n).contains(order)
                    &&& order.len() == n
                    &&& forall|i: int|
                        0 <= i < n ==> 0 <= #[trigger] order[i] < n && variant(
                            operands[order[i]],
                            w->operands[i],
                        )
                };
            assert forall|i: int| 0 <= i < n implies 0 <= #[trigger] order[i] < n && variant(
                operands[order[i]],
                v->operands[i],
            ) by {
                assert(0 <= order[i] < n);
                assert(shapes(w->operands, n)[i] == shapes(v->operands, n)[i]);
                lemma_variant_shape(operands[order[i]], w->operands[i], v->operands[i]);
            }
        },
        NodeView::Power { base, exponent, .. } => {
            lemma_variant_shape(*base, *w->base, *v->base);
            lemma_variant_shape(*exponent, *w->exponent, *v->exponent);
        },
        _ => {},
    }
}

/// Trees that can be read and have the same text have the same shape.
pub proof fn lemma_same_text(w: NodeView, v: NodeView)
    requires
        readable(w, 5, false),
        readable(v, 5, false),
        w.text(false) == v.text(false),
    ensures
        shape(w) == shape(v),
{
    lemma_text_reads(w, false);
    lemma_text_reads(v, false);
    lemma_reread_plain(w);
    lemma_reread_plain(v);
}

/// A text that can be read is equal to an expression exactly where its
/// tree is a variant of the tree of the expression.
pub proof fn lemma_member_variant(u: NodeView, v: NodeView)
    requires
        readable(u, 5, false),
        readable(v, 5, false),
    ensures
        commuted(u).contains(v.text(false)) <==> variant(u, v),
{
    if variant(u, v) {
        lemma_commuted_complete(u, v);
    }
    if commuted(u).contains(v.text(false)) {
        lemma_commuted_sound(u, v.text(false));
        let w = choose|w: NodeView| #[trigger] variant(u, w) && w.text(false) == v.text(false);
        lemma_variant_readable(u, w, 5);
        lemma_same_text(w, v);
        lemma_variant_shape(u, w, v);
    }
}

/// The index `j` stands at some place of `order`.
pub open spec fn placed(order: Seq<int>, j: int) -> bool {
    exists|i: int| 0 <= i < order.len() && #[trigger] order[i] == j
}

/// The order that undoes an order: where the operands of a chain may stand
/// in an order, they may stand in the order that puts them back.
pub proof fn lemma_order_back(kind: ChainKind, n: int, order: Seq<int>)
    requires
        0 <= n,
        orders_of(kind, n).contains(order),
    ensures
        exists|back: Seq<int>|
            {
                &&& #[trigger] orders_of(kind, n).contains(back)
                &&& back.len() == n
                &&& forall|j: int|
                    0 <= j < n ==> 0 <= #[trigger] back[j] < n && order[back[j]] == j
            },
{
    lemma_orders(kind, n, order);
    match kind {
        ChainKind::Sum | ChainKind::Product => {
            lemma_permutations_cover(iota(n), order);
            assert forall|j: int| 0 <= j < n implies #[trigger] placed(order, j) by {
                assert(order.contains(iota(n)[j]));
                let i = choose|i: int| 0 <= i < order.len() && order[i] == iota(n)[j];
                assert(order[i] == j);
            }
            let back = Seq::new(
                n as nat,
                |j: int| choose|i: int| 0 <= i < order.len() && #[trigger] order[i] == j,
            );
            assert forall|j: int| 0 <= j < n implies 0 <= #[trigger] back[j] < n && order[back[j]]
                == j by {
                assert(placed(order, j));
            }
            assert(distinct(back)) by {
                assert forall|a: int, b: int| 0 <= a < b < back.len() implies back[a] != back[b] by {
                    assert(order[back[a]] == a);
                    assert(order[back[b]] == b);
                }
            }
            assert(drawn_from(back, iota(n))) by {
                assert forall|j: int| 0 <= j < back.len() implies iota(n).contains(
                    #[trigger] back[j],
                ) by {
                    assert(iota(n)[back[j]] == back[j]);
                }
            }
            if n >= 1 {
                lemma_permutations_complete(iota(n), back);
                assert(orders_of(kind, n).contains(back));
            } else {
                let orders = permutations(iota(n));
                let w = choose|w: int| 0 <= w < orders.len() && orders[w] == order;
                assert(orders.len() == 0);
            }
        },
        ChainKind::Difference | ChainKind::Quotient => {
            let orders = seq![iota(n)];
            let w = choose|w: int| 0 <= w < orders.len() && orders[w] == order;
            assert(order == iota(n));
            let back = iota(n);
            assert(orders_of(kind, n).contains(back));
            assert forall|j: int| 0 <= j < n implies 0 <= #[trigger] back[j] < n && order[back[j]]
                == j by {}
        },
    }
}

/// A tree is a variant of each of its variants.
pub proof fn lemma_variant_symmetric(u: NodeView, w: NodeView)
    requires
        variant(u, w),
    ensures
        variant(w, u),
    decreases u,
{
    match u {
        NodeView::Parenthesis { inner, .. } => {
            lemma_variant_symmetric(*inner, *w->inner);
        },
        NodeView::Chain { kind, operands, .. } => {
            let n = operands.len() as int;
            let others = w->operands;
            let order = choose|order: Seq<int>|
                {
                    &&& #[trigger] orders_of(kind, n).contains(order)
                    &&& order.len() == n
                    &&& forall|i: int|
                        0 <= i < n ==> 0 <= #[trigger] order[i] < n && variant(
                            operands[order[i]],
                            others[i],
                        )
                };
            lemma_order_back(kind, n, order);
            let back = choose|back: Seq<int>|
                {
                    &&& #[trigger] orders_of(kind, n).contains(back)
                    &&& back.len() == n
                    &&& forall|j: int|
                        0 <= j < n ==> 0 <= #[trigger] back[j] < n && order[back[j]] == j
                };
            assert forall|j: int| 0 <= j < n implies 0 <= #[trigger] back[j] < n && variant(
                others[back[j]],
                operands[j],
            ) by {
                let i = back[j];
                assert(0 <= i < n && order[i] == j);
                assert(0 <= order[i] < n && variant(operands[order[i]], others[i]));
                lemma_variant_symmetric(operands[j], others[i]);
            }
            assert(variant(w, u));
        },
        NodeView::Power { base, exponent, .. } => {
            lemma_variant_symmetric(*base, *w->base);
            lemma_variant_symmetric(*exponent, *w->exponent);
        },
        _ => {
            assert(variant(w, u));
        },
    }
}

/// The tree that a fully parenthesized text reads as can be read in the
/// plain form.
pub proof fn lemma_reread_readable(t: NodeView, rank: int)
    requires
        readable_bare(t, rank, true),
    ensures
        readable_bare(reread_bare(t, true), 5, false),
        readable_bare(reread(t, true), if compound(t) {
            0
        } else {
            5
        }, false),
        !compound(t) ==> readable_bare(reread(t, true), rank, false),
    decreases t,
{
    match t {
        NodeView::Parenthesis { inner, .. } => {
            lemma_reread_readable(*inner, 5);
        },
        NodeView::Chain { kind, operands, .. } => {
            let n = operands.len() as int;
            lemma_rereads(operands, n, true);
            assert forall|i: int| 0 <= i < n implies readable_bare(
                #[trigger] rereads(operands, n, true)[i],
                bare_rank(rereads(operands, n, true)[i], kind.level(), false),
                false,
            ) by {
                lemma_reread_readable(operands[i], bare_rank(operands[i], kind.level(), true));
                if compound(operands[i]) {
                    lemma_readable_above(reread(operands[i], true), 0, kind.level());
                }
            }
        },
        NodeView::Power { base, exponent, .. } => {
            lemma_reread_readable(*base, bare_rank(*base, 0, true));
            lemma_reread_readable(*exponent, bare_rank(*exponent, 0, true));
            if compound(*base) {
                assert(readable_bare(reread(*base, true), 0, false));
            }
            if compound(*exponent) {
                assert(readable_bare(reread(*exponent, true), 0, false));
            }
            assert(readable_bare(reread_bare(t, true), 5, false));
        },
        _ => {},
    }
    assert(readable_bare(reread_bare(t, true), 5, false));
    if compound(t) {
        assert(readable_bare(reread(t, true), 0, false));
    } else {
        assert(reread(t, true) == reread_bare(t, true));
    }
}

/// Equality by the commutative and associative laws is symmetric: for
/// every two texts that can be read as expressions.
pub proof fn law_equivalent_symmetric(a: Seq<char>, b: Seq<char>)
    requires
        read(a) is Ok,
        read(b) is Ok,
    ensures
        equivalent(a, b) == equivalent(b, a),
{
    let first = stripped(read(a)->Ok_0);
    let second = stripped(read(b)->Ok_0);
    lemma_read_readable(a);
    lemma_read_readable(b);
    lemma_readable_full(read(a)->Ok_0, 5);
    lemma_readable_full(read(b)->Ok_0, 5);
    lemma_stripped_readable(read(a)->Ok_0, true);
    lemma_stripped_readable(read(b)->Ok_0, true);
    let u = reread(first, true);
    let v = reread(second, true);
    // what the fully parenthesized texts read as
    lemma_text_reads(first, true);
    lemma_text_reads(second, true);
    let read_first = read(first.text(true))->Ok_0;
    let read_second = read(second.text(true))->Ok_0;
    lemma_commuted_shape(read_first);
    lemma_commuted_shape(read_second);
    lemma_commuted_shape(u);
    lemma_commuted_shape(v);
    lemma_reread_text(first);
    lemma_reread_text(second);
    // both trees can be read in the plain form
    lemma_reread_readable(first, 5);
    lemma_reread_readable(second, 5);
    lemma_readable_above(u, 0, 5);
    lemma_readable_above(v, 0, 5);
    lemma_member_variant(u, v);
    lemma_member_variant(v, u);
    if variant(u, v) {
        lemma_variant_symmetric(u, v);
    }
    if variant(v, u) {
        lemma_variant_symmetric(v, u);
    }
}

} // verus!
