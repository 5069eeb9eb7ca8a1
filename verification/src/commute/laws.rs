//! What holds of the expressions that are equal to a given one.

use vstd::prelude::*;
use crate::collection::combinations::{
    cartesian, lemma_cartesian_contains, lemma_permutations_own, picked_from,
};
use crate::commute::helper::{
    arranged, arranged_all, bracketed_all, chosen, commuted, commuted_all, equivalent, iota, joined_texts, orders_of, ranges, stripped,
};
use crate::expression::error::ParsingError;
use crate::expression::format::bracketed;
use crate::expression::laws::{lemma_read_readable, lemma_text_reads, read};
use crate::expression::node::{ChainKind, NodeView};
use crate::expression::rereading::{
    bare_rank, compound, lemma_rereads, lemma_shapes, readable_bare, reread, reread_bare, rereads, shape, shapes,
};
use crate::expression::value::SignType;

verus! {

/// The texts of operands are those of each, in order.
pub proof fn lemma_commuted_all(operands: Seq<NodeView>, n: int)
    requires
        0 <= n <= operands.len(),
    ensures
        commuted_all(operands, n).len() == n,
        forall|i: int| 0 <= i < n ==> #[trigger] commuted_all(operands, n)[i] == commuted(operands[i]),
    decreases n,
{
    if n > 0 {
        lemma_commuted_all(operands, n - 1);
    }
}

/// The texts that are equal to an expression do not depend on the
/// positions of its nodes.
pub proof fn lemma_commuted_shape(t: NodeView)
    ensures
        commuted(shape(t)) == commuted(t),
    decreases t, 1int,
{
    match t {
        NodeView::Parenthesis { inner, .. } => {
            lemma_commuted_shape(*inner);
        },
        NodeView::Chain { kind, operands, .. } => {
            let n = operands.len() as int;
            lemma_shapes(operands, n);
            lemma_commuted_all(operands, n);
            lemma_commuted_all(shapes(operands, n), n);
            assert forall|i: int| 0 <= i < n implies commuted(#[trigger] shapes(operands, n)[i])
                == commuted(operands[i]) by {
                lemma_commuted_shape(operands[i]);
            }
            assert(commuted_all(shapes(operands, n), n) =~= commuted_all(operands, n));
        },
        NodeView::Power { base, exponent, .. } => {
            lemma_commuted_shape(*base);
            lemma_commuted_shape(*exponent);
        },
        _ => {},
    }
}

/// Texts that are joined are the texts of operands that are joined, where
/// they are the texts of the operands.
pub proof fn lemma_joined_texts(
    parts: Seq<Seq<char>>,
    symbol: char,
    operands: Seq<NodeView>,
    n: int,
    full: bool,
)
    requires
        0 <= n <= operands.len(),
        n <= parts.len(),
        forall|i: int| 0 <= i < n ==> #[trigger] parts[i] == operands[i].text(full),
    ensures
        joined_texts(parts, seq![symbol], n) == NodeView::joined(symbol, operands, n, full),
    decreases n,
{
    if n > 1 {
        lemma_joined_texts(parts, symbol, operands, n - 1, full);
        assert(joined_texts(parts, seq![symbol], n) =~= NodeView::joined(symbol, operands, n, full));
    }
}

/// The texts of a chain in one of its orders are among the texts of the
/// chain in all of them.
pub proof fn lemma_arranged_all_contains(
    operator: Seq<char>,
    options: Seq<Seq<Seq<char>>>,
    orders: Seq<Seq<int>>,
    k: int,
    which: int,
    x: Seq<char>,
)
    requires
        0 <= which < k <= orders.len(),
        arranged(operator, options, orders[which]).contains(x),
    ensures
        arranged_all(operator, options, orders, k).contains(x),
    decreases k,
{
    let before = arranged_all(operator, options, orders, k - 1);
    let last = arranged(operator, options, orders[k - 1]);
    if which == k - 1 {
        let w = choose|w: int| 0 <= w < last.len() && last[w] == x;
        assert(arranged_all(operator, options, orders, k)[before.len() + w] == x);
    } else {
        lemma_arranged_all_contains(operator, options, orders, k - 1, which, x);
        let w = choose|w: int| 0 <= w < before.len() && before[w] == x;
        assert(arranged_all(operator, options, orders, k)[w] == x);
    }
}

/// The texts of the operands as they are, in the order in which they
/// stand, are among the texts of the chain in that order.
pub proof fn lemma_arranged_own(
    operator: Seq<char>,
    options: Seq<Seq<Seq<char>>>,
    own: Seq<Seq<char>>,
)
    requires
        own.len() == options.len(),
        forall|i: int| 0 <= i < options.len() ==> (#[trigger] options[i]).contains(own[i]),
    ensures
        arranged(operator, options, iota(options.len() as int)).contains(
            joined_texts(own, operator, options.len() as int),
        ),
{
    let n = options.len() as int;
    let order = iota(n);
    let spaces = ranges(options, order);
    let pick = Seq::new(
        n as nat,
        |i: int| choose|w: int| 0 <= w < options[i].len() && options[i][w] == own[i],
    );
    assert(picked_from(pick, spaces, n)) by {
        assert forall|i: int| 0 <= i < n implies spaces[i].contains(#[trigger] pick[i]) by {
            assert(options[i].contains(own[i]));
            assert(spaces[i] == iota(options[i].len() as int));
            assert(spaces[i][pick[i]] == pick[i]);
        }
    }
    lemma_cartesian_contains(spaces, n, pick);
    let picks = cartesian(spaces);
    let q = choose|q: int| 0 <= q < picks.len() && picks[q] == pick;
    assert(chosen(options, order, pick) =~= own) by {
        assert forall|i: int| 0 <= i < n implies chosen(options, order, pick)[i] == own[i] by {
            assert(options[i].contains(own[i]));
        }
    }
    assert(arranged(operator, options, order)[q] == joined_texts(own, operator, n));
}

/// The text of an expression is among the texts that are equal to it: for
/// every tree in which every chain has two operands or more.
pub proof fn lemma_own_text(t: NodeView)
    requires
        t.well_formed(),
    ensures
        commuted(t).contains(t.text(false)),
    decreases t,
{
    match t {
        NodeView::Parenthesis { sign, inner, .. } => {
            lemma_own_text(*inner);
            let inside = commuted(*inner);
            let w = choose|w: int| 0 <= w < inside.len() && inside[w] == inner.text(false);
            assert(bracketed_all(sign, inside)[w] == bracketed(sign, inner.text(false)));
        },
        NodeView::Chain { kind, operands, .. } => {
            let n = operands.len() as int;
            let operator = seq![kind.symbol()];
            let options = commuted_all(operands, n);
            lemma_commuted_all(operands, n);
            let own = Seq::new(n as nat, |i: int| operands[i].text(false));
            assert forall|i: int| 0 <= i < options.len() implies (#[trigger] options[i]).contains(
                own[i],
            ) by {
                lemma_own_text(operands[i]);
            }
            lemma_arranged_own(operator, options, own);
            lemma_joined_texts(own, kind.symbol(), operands, n, false);
            let orders = orders_of(kind, n);
            let which = match kind {
                ChainKind::Sum | ChainKind::Product => {
                    lemma_permutations_own(iota(n));
                    choose|w: int| 0 <= w < orders.len() && orders[w] == iota(n)
                },
                ChainKind::Difference | ChainKind::Quotient => 0,
            };
            lemma_arranged_all_contains(
                operator,
                options,
                orders,
                orders.len() as int,
                which,
                t.text(false),
            );
        },
        NodeView::Power { base, exponent, .. } => {
            lemma_own_text(*base);
            lemma_own_text(*exponent);
            let operator = seq!['^'];
            let options = seq![commuted(*base), commuted(*exponent)];
            let own = seq![base.text(false), exponent.text(false)];
            lemma_arranged_own(operator, options, own);
            assert(joined_texts(own, operator, 2) =~= t.text(false)) by {
                reveal_with_fuel(joined_texts, 3);
            }
            lemma_arranged_all_contains(operator, options, seq![iota(2)], 1, 0, t.text(false));
        },
        _ => {
            assert(commuted(t)[0] == t.text(false));
        },
    }
}

/// The tree that a text reads as keeps the rules of the syntax.
pub proof fn lemma_reread_well_formed(t: NodeView, rank: int, full: bool)
    requires
        readable_bare(t, rank, full),
    ensures
        reread_bare(t, full).well_formed(),
        reread(t, full).well_formed(),
    decreases t,
{
    match t {
        NodeView::Parenthesis { inner, .. } => {
            lemma_reread_well_formed(*inner, 5, full);
            assert(reread_bare(t, full).well_formed());
        },
        NodeView::Chain { kind, operands, .. } => {
            let n = operands.len() as int;
            lemma_rereads(operands, n, full);
            assert forall|i: int| 0 <= i < n implies (#[trigger] rereads(
                operands,
                n,
                full,
            )[i]).well_formed() by {
                lemma_reread_well_formed(operands[i], bare_rank(operands[i], kind.level(), full), full);
            }
            assert(reread_bare(t, full).well_formed());
        },
        NodeView::Power { base, exponent, .. } => {
            lemma_reread_well_formed(*base, bare_rank(*base, 0, full), full);
            lemma_reread_well_formed(*exponent, bare_rank(*exponent, 0, full), full);
            assert(reread_bare(t, full).well_formed());
        },
        _ => {
            assert(reread_bare(t, full).well_formed());
        },
    }
    assert(reread(t, full).well_formed());
}

/// The plain text of the tree that a fully parenthesized text reads as is
/// that text: reading makes a parenthesis of every bracket.
pub proof fn lemma_reread_text(t: NodeView)
    ensures
        reread(t, true).text(false) == t.text(true),
        reread_bare(t, true).bare(false) == t.bare(true),
    decreases t,
{
    match t {
        NodeView::Parenthesis { inner, .. } => {
            lemma_reread_text(*inner);
            assert(reread_bare(t, true).bare(false) == t.bare(true));
        },
        NodeView::Chain { kind, operands, .. } => {
            let n = operands.len() as int;
            lemma_rereads(operands, n, true);
            let parts = Seq::new(n as nat, |i: int| operands[i].text(true));
            assert forall|i: int| 0 <= i < n implies #[trigger] parts[i] == rereads(
                operands,
                n,
                true,
            )[i].text(false) by {
                lemma_reread_text(operands[i]);
            }
            lemma_joined_texts(parts, kind.symbol(), operands, n, true);
            lemma_joined_texts(parts, kind.symbol(), rereads(operands, n, true), n, false);
            assert(reread_bare(t, true).bare(false) == t.bare(true));
        },
        NodeView::Power { base, exponent, .. } => {
            lemma_reread_text(*base);
            lemma_reread_text(*exponent);
            assert(reread_bare(t, true).bare(false) == t.bare(true));
        },
        _ => {
            assert(reread_bare(t, true).bare(false) == t.bare(true));
        },
    }
    assert(reread(t, true).text(false) == t.text(true));
}

/// What can be read in the plain form can be read in the fully
/// parenthesized form.
pub proof fn lemma_readable_full(t: NodeView, rank: int)
    requires
        readable_bare(t, rank, false),
    ensures
        readable_bare(t, 5, true),
        !compound(t) ==> readable_bare(t, 0, true),
    decreases t,
{
    match t {
        NodeView::Parenthesis { inner, .. } => {
            lemma_readable_full(*inner, 5);
        },
        NodeView::Chain { kind, operands, .. } => {
            assert forall|i: int| 0 <= i < operands.len() implies readable_bare(
                #[trigger] operands[i],
                bare_rank(operands[i], kind.level(), true),
                true,
            ) by {
                lemma_readable_full(operands[i], kind.level());
            }
        },
        NodeView::Power { base, exponent, .. } => {
            lemma_readable_full(*base, 0);
            lemma_readable_full(*exponent, 0);
        },
        _ => {},
    }
}

/// Without the parentheses that hold all of it, an expression can still be
/// read.
pub proof fn lemma_stripped_readable(t: NodeView, full: bool)
    requires
        readable_bare(t, 5, full),
    ensures
        readable_bare(stripped(t), 5, full),
    decreases t,
{
    match t {
        NodeView::Parenthesis { sign: SignType::Positive, inner, .. } => {
            lemma_stripped_readable(*inner, full);
        },
        _ => {},
    }
}

/// Every expression is equal to itself by the commutative and associative
/// laws: for every text that can be read as an expression.
pub proof fn law_equivalent_to_itself(text: Seq<char>)
    requires
        read(text) is Ok,
    ensures
        equivalent(text, text) == Ok::<bool, ParsingError>(true),
{
    let wanted = read(text)->Ok_0;
    lemma_read_readable(text);
    lemma_readable_full(wanted, 5);
    lemma_stripped_readable(wanted, true);
    let x = stripped(wanted);
    lemma_text_reads(x, true);
    let target = read(x.text(true))->Ok_0;
    lemma_commuted_shape(target);
    lemma_commuted_shape(reread(x, true));
    lemma_reread_well_formed(x, 5, true);
    lemma_own_text(reread(x, true));
    lemma_reread_text(x);
}

} // verus!
