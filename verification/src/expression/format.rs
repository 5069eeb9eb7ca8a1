//! Rendering a syntax tree as text.
//!
//! A number is written as its numeral. A parenthesis is written in brackets,
//! with a minus sign in front where its sign is negative. The operands of a
//! chain are written with the operator of the chain between them, and a
//! power with `^` between base and exponent; an operator stands between
//! single spaces. The fully parenthesized form puts brackets round every
//! chain and every power as well, unless a parenthesis holds it, whose
//! brackets it then shares.

use vstd::prelude::*;
use vstd::std_specs::iter::IteratorSpec;
use crate::expression::node::{lemma_node_views, node_views, ChainKind, ExpressionNode, NodeView};
use crate::expression::numeral::{integer_text, push_char, push_natural};
use crate::expression::value::SignType;

verus! {

impl ChainKind {
    /// The character that stands for the operator of the chain.
    pub open spec fn symbol(self) -> char {
        match self {
            ChainKind::Sum => '+',
            ChainKind::Difference => '-',
            ChainKind::Product => '*',
            ChainKind::Quotient => '/',
        }
    }

    /// The character that stands for the operator of the chain.
    pub fn symbol_char(self) -> (c: char)
        ensures
            c == self.symbol(),
    {
        match self {
            ChainKind::Sum => '+',
            ChainKind::Difference => '-',
            ChainKind::Product => '*',
            ChainKind::Quotient => '/',
        }
    }
}

/// The operator `symbol` between single spaces.
pub open spec fn spaced(symbol: char) -> Seq<char> {
    seq![' ', symbol, ' ']
}

/// The text `inner` in brackets, with a minus sign in front for a negative
/// sign.
pub open spec fn bracketed(sign: SignType, inner: Seq<char>) -> Seq<char> {
    match sign {
        SignType::Negative => seq!['-', '('] + inner + seq![')'],
        SignType::Positive => seq!['('] + inner + seq![')'],
    }
}

impl NodeView {
    /// The text of the node without brackets of its own: the operands of a
    /// chain or of a power with their operator between them, the text as
    /// it is for every other node.
    pub open spec fn bare(self, full: bool) -> Seq<char>
        decreases self, 0int,
    {
        match self {
            NodeView::NaN => seq!['N', 'a', 'N'],
            NodeView::Integer { value, .. } => integer_text(value as int),
            NodeView::Decimal { value, .. } => value.text(),
            NodeView::Parenthesis { sign, inner, .. } => bracketed(sign, inner.bare(full)),
            NodeView::Chain { kind, operands, .. } => Self::joined(
                kind.symbol(),
                operands,
                operands.len() as int,
                full,
            ),
            NodeView::Power { base, exponent, .. } => base.text(full) + spaced('^') + exponent.text(
                full,
            ),
        }
    }

    /// The text of the node; in the fully parenthesized form where `full`
    /// is set.
    pub open spec fn text(self, full: bool) -> Seq<char>
        decreases self, 1int,
    {
        match self {
            NodeView::Chain { .. } | NodeView::Power { .. } => if full {
                bracketed(SignType::Positive, self.bare(full))
            } else {
                self.bare(full)
            },
            _ => self.bare(full),
        }
    }

    /// The texts of the first `n` of `operands` with the operator `symbol`
    /// between them.
    pub open spec fn joined(symbol: char, operands: Seq<NodeView>, n: int, full: bool) -> Seq<char>
        decreases operands, n,
    {
        if n <= 0 || n > operands.len() {
            Seq::empty()
        } else if n == 1 {
            operands[0].text(full)
        } else {
            Self::joined(symbol, operands, n - 1, full) + spaced(symbol) + operands[n - 1].text(full)
        }
    }
}

/// Appends the operator `symbol` between single spaces to `text`.
fn push_operator(text: &mut String, symbol: char)
    ensures
        final(text)@ == old(text)@ + spaced(symbol),
{
    push_char(text, ' ');
    push_char(text, symbol);
    push_char(text, ' ');
    proof {
        assert(final(text)@ =~= old(text)@ + spaced(symbol));
    }
}

/// Appends the text of the operands of a chain to `text`.
fn write_operands(
    text: &mut String,
    holder: &ExpressionNode,
    kind: ChainKind,
    operands: &Vec<ExpressionNode>,
    full: bool,
)
    requires
        decreases_to!(holder => operands),
    ensures
        final(text)@ == old(text)@ + NodeView::joined(
            kind.symbol(),
            node_views(operands@, operands.len() as int),
            operands.len() as int,
            full,
        ),
    decreases holder, 0int,
{
    let ghost views = node_views(operands@, operands.len() as int);
    proof {
        lemma_node_views(operands@, operands.len() as int);
        assert(text@ =~= old(text)@ + NodeView::joined(kind.symbol(), views, 0, full));
    }
    let mut i: usize = 0;
    while i < operands.len()
        invariant
            0 <= i <= operands.len(),
            decreases_to!(holder => operands),
            views == node_views(operands@, operands.len() as int),
            views.len() == operands.len(),
            forall|j: int| 0 <= j < operands.len() ==> #[trigger] views[j] == operands[j]@,
            text@ == old(text)@ + NodeView::joined(kind.symbol(), views, i as int, full),
        decreases operands.len() - i,
    {
        let ghost before = text@;
        if i > 0 {
            push_operator(text, kind.symbol_char());
        }
        proof {
            vstd::std_specs::vec::axiom_vec_index_decreases(*operands, i as int);
        }
        write_node(text, &operands[i], full);
        proof {
            assert(text@ =~= old(text)@ + NodeView::joined(kind.symbol(), views, i + 1, full));
        }
        i += 1;
    }
}

/// Appends the text of `node` without brackets of its own to `text`.
fn write_bare(text: &mut String, node: &ExpressionNode, full: bool)
    ensures
        final(text)@ == old(text)@ + node@.bare(full),
    decreases node, 1int,
{
    match node {
        ExpressionNode::NaN => {
            push_char(text, 'N');
            push_char(text, 'a');
            push_char(text, 'N');
            proof {
                assert(final(text)@ =~= old(text)@ + node@.bare(full));
            }
        },
        ExpressionNode::Integer { value, .. } => {
            if *value < 0 {
                push_char(text, '-');
                push_natural(text, (-(*value as i64)) as u64);
            } else {
                push_natural(text, *value as u64);
            }
            proof {
                assert(final(text)@ =~= old(text)@ + node@.bare(full));
            }
        },
        ExpressionNode::Decimal { value, .. } => {
            let numeral = value.numeral();
            push_text(text, numeral.as_str());
        },
        ExpressionNode::Parenthesis { sign, inner, .. } => {
            match sign {
                SignType::Negative => {
                    push_char(text, '-');
                },
                SignType::Positive => {},
            }
            push_char(text, '(');
            write_bare(text, inner, full);
            push_char(text, ')');
            proof {
                assert(final(text)@ =~= old(text)@ + node@.bare(full));
            }
        },
        ExpressionNode::Sum { operands, .. } => {
            proof {
                lemma_node_views(operands@, operands.len() as int);
            }
            write_operands(text, node, ChainKind::Sum, operands, full);
        },
        ExpressionNode::Difference { operands, .. } => {
            proof {
                lemma_node_views(operands@, operands.len() as int);
            }
            write_operands(text, node, ChainKind::Difference, operands, full);
        },
        ExpressionNode::Product { operands, .. } => {
            proof {
                lemma_node_views(operands@, operands.len() as int);
            }
            write_operands(text, node, ChainKind::Product, operands, full);
        },
        ExpressionNode::Quotient { operands, .. } => {
            proof {
                lemma_node_views(operands@, operands.len() as int);
            }
            write_operands(text, node, ChainKind::Quotient, operands, full);
        },
        ExpressionNode::Power { base, exponent, .. } => {
            write_node(text, base, full);
            push_operator(text, '^');
            write_node(text, exponent, full);
            proof {
                assert(final(text)@ =~= old(text)@ + node@.bare(full));
            }
        },
    }
}

/// Appends the text of `node` to `text`.
fn write_node(text: &mut String, node: &ExpressionNode, full: bool)
    ensures
        final(text)@ == old(text)@ + node@.text(full),
    decreases node, 2int,
{
    let wrap = full && match node {
        ExpressionNode::Sum { .. } => true,
        ExpressionNode::Difference { .. } => true,
        ExpressionNode::Product { .. } => true,
        ExpressionNode::Quotient { .. } => true,
        ExpressionNode::Power { .. } => true,
        _ => false,
    };
    if wrap {
        push_char(text, '(');
        write_bare(text, node, full);
        push_char(text, ')');
        proof {
            assert(final(text)@ =~= old(text)@ + node@.text(full));
        }
    } else {
        write_bare(text, node, full);
    }
}

/// Appends `piece` to `text`.
pub fn push_text(text: &mut String, piece: &str)
    ensures
        final(text)@ == old(text)@ + piece@,
{
    broadcast use vstd::string::group_string_axioms;

    let ghost wanted = piece@;
    let mut source = piece.chars();
    let ghost mut done: int = 0;
    proof {
        assert(text@ =~= old(text)@ + wanted.take(0));
        assert(wanted.skip(0) =~= wanted);
    }
    loop
        invariant
            wanted == piece@,
            0 <= done <= wanted.len(),
            source.remaining() == wanted.skip(done),
            text@ == old(text)@ + wanted.take(done),
        decreases wanted.len() - done,
    {
        match source.next() {
            None => {
                proof {
                    assert(wanted.skip(done).len() == 0);
                    assert(wanted.take(done) =~= wanted);
                }
                return ;
            },
            Some(c) => {
                push_char(text, c);
                proof {
                    assert(wanted.skip(done).drop_first() =~= wanted.skip(done + 1));
                    assert(text@ =~= old(text)@ + wanted.take(done + 1));
                    done = done + 1;
                }
            },
        }
    }
}

/// The text of the expression.
pub fn format(node: &ExpressionNode) -> (text: String)
    ensures
        text@ == node@.text(false),
{
    let mut text = String::new();
    write_node(&mut text, node, false);
    proof {
        assert(text@ =~= node@.text(false));
    }
    text
}

/// The text of the expression in the fully parenthesized form.
pub fn format_fully_parenthesized(node: &ExpressionNode) -> (text: String)
    ensures
        text@ == node@.text(true),
{
    let mut text = String::new();
    write_node(&mut text, node, true);
    proof {
        assert(text@ =~= node@.text(true));
    }
    text
}

} // verus!
