//! The abstract syntax tree of an expression, and its evaluation.
//!
//! Sums, differences, products and quotients are chains: nodes with two or
//! more operands in the order of the source. A difference and a quotient
//! associate to the left.

use vstd::prelude::*;
use crate::expression::numeral::{DecimalLiteral, DecimalView};
use crate::expression::position::ParsePosition;
use crate::expression::value::{
    DecimalArithmetic, DecimalModel, DecimalOperator, DecimalType, ExpressionValue, IntegerType,
    SignType,
};

verus! {

/// Something that has a span in a source text.
pub trait Position {
    /// The span that `position` returns.
    spec fn span(&self) -> ParsePosition;

    /// The span of this in its source.
    fn position(&self) -> (position: ParsePosition)
        ensures
            position == self.span(),
    ;
}

/// Something that evaluates to a value.
pub trait Evaluate {
    /// The expression keeps the rules that evaluation relies on.
    spec fn evaluable(&self) -> bool;

    /// The value that `evaluate` returns under what a decimal arithmetic
    /// computes.
    spec fn evaluated(&self, model: DecimalModel) -> ExpressionValue;

    /// The value of this under `arithmetic`.
    fn evaluate<R: Fn(&str) -> DecimalType, A: Fn(
        DecimalOperator,
        DecimalType,
        DecimalType,
    ) -> DecimalType>(&self, arithmetic: &DecimalArithmetic<R, A>) -> (value: ExpressionValue)
        requires
            arithmetic.usable(),
            self.evaluable(),
        ensures
            value == self.evaluated(arithmetic.model()),
    ;
}

/// The four kinds of chain.
#[derive(Debug, Clone, Copy, PartialEq, Eq, Structural)]
pub enum ChainKind {
    Sum,
    Difference,
    Product,
    Quotient,
}

/// A node of the syntax tree.
#[derive(Debug, PartialEq)]
#[allow(inconsistent_fields)]
pub enum ExpressionNode {
    /// No expression: a node that evaluates to not a number. The parser
    /// never produces it.
    NaN,
    Integer { position: ParsePosition, value: IntegerType },
    Decimal { position: ParsePosition, value: DecimalLiteral },
    Parenthesis { position: ParsePosition, sign: SignType, inner: Box<ExpressionNode> },
    Sum { position: ParsePosition, operands: Vec<ExpressionNode> },
    Difference { position: ParsePosition, operands: Vec<ExpressionNode> },
    Product { position: ParsePosition, operands: Vec<ExpressionNode> },
    Quotient { position: ParsePosition, operands: Vec<ExpressionNode> },
    Power { position: ParsePosition, base: Box<ExpressionNode>, exponent: Box<ExpressionNode> },
}

/// The syntax tree as a mathematical value: the four kinds of chain are one
/// case, and the operands of a chain are a sequence.
#[allow(inconsistent_fields)]
pub ghost enum NodeView {
    NaN,
    Integer { position: ParsePosition, value: IntegerType },
    Decimal { position: ParsePosition, value: DecimalView },
    Parenthesis { position: ParsePosition, sign: SignType, inner: Box<NodeView> },
    Chain { kind: ChainKind, position: ParsePosition, operands: Seq<NodeView> },
    Power { position: ParsePosition, base: Box<NodeView>, exponent: Box<NodeView> },
}

/// The mathematical value of a syntax tree.
pub open spec fn node_view(node: ExpressionNode) -> NodeView
    decreases node, 0int,
{
    match node {
        ExpressionNode::NaN => NodeView::NaN,
        ExpressionNode::Integer { position, value } => NodeView::Integer { position, value },
        ExpressionNode::Decimal { position, value } => NodeView::Decimal { position, value: value@ },
        ExpressionNode::Parenthesis { position, sign, inner } => NodeView::Parenthesis {
            position,
            sign,
            inner: Box::new(node_view(*inner)),
        },
        ExpressionNode::Sum { position, operands } => NodeView::Chain {
            kind: ChainKind::Sum,
            position,
            operands: node_views(operands@, operands@.len() as int),
        },
        ExpressionNode::Difference { position, operands } => NodeView::Chain {
            kind: ChainKind::Difference,
            position,
            operands: node_views(operands@, operands@.len() as int),
        },
        ExpressionNode::Product { position, operands } => NodeView::Chain {
            kind: ChainKind::Product,
            position,
            operands: node_views(operands@, operands@.len() as int),
        },
        ExpressionNode::Quotient { position, operands } => NodeView::Chain {
            kind: ChainKind::Quotient,
            position,
            operands: node_views(operands@, operands@.len() as int),
        },
        ExpressionNode::Power { position, base, exponent } => NodeView::Power {
            position,
            base: Box::new(node_view(*base)),
            exponent: Box::new(node_view(*exponent)),
        },
    }
}

/// The mathematical values of the first `n` of `nodes`.
pub open spec fn node_views(nodes: Seq<ExpressionNode>, n: int) -> Seq<NodeView>
    decreases nodes, n,
{
    if n <= 0 || n > nodes.len() {
        Seq::empty()
    } else {
        node_views(nodes, n - 1).push(node_view(nodes[n - 1]))
    }
}

/// The values of the first `n` nodes are the values of each of them, in
/// order.
pub proof fn lemma_node_views(nodes: Seq<ExpressionNode>, n: int)
    requires
        0 <= n <= nodes.len(),
    ensures
        node_views(nodes, n).len() == n,
        forall|i: int| 0 <= i < n ==> #[trigger] node_views(nodes, n)[i] == node_view(nodes[i]),
        forall|i: int| 0 <= i < n ==> node_view(#[trigger] nodes[i]) == node_views(nodes, n)[i],
    decreases n,
{
    if n > 0 {
        lemma_node_views(nodes, n - 1);
    }
}

/// The values of nodes with one more node pushed onto them are their values
/// with the value of that node pushed onto them.
pub proof fn lemma_node_views_push(nodes: Seq<ExpressionNode>, node: ExpressionNode)
    ensures
        node_views(nodes.push(node), nodes.len() as int + 1) == node_views(nodes, nodes.len() as int).push(
            node_view(node),
        ),
{
    lemma_node_views_prefix(nodes, node, nodes.len() as int);
}

/// Pushing a node leaves the values of the nodes before it as they are.
proof fn lemma_node_views_prefix(nodes: Seq<ExpressionNode>, node: ExpressionNode, n: int)
    requires
        0 <= n <= nodes.len(),
    ensures
        node_views(nodes.push(node), n) == node_views(nodes, n),
    decreases n,
{
    if n > 0 {
        lemma_node_views_prefix(nodes, node, n - 1);
    }
}

impl View for ExpressionNode {
    type V = NodeView;

    open spec fn view(&self) -> NodeView {
        node_view(*self)
    }
}

impl ChainKind {
    /// What the chain makes of the value of its operands so far and the
    /// value of the next operand.
    pub open spec fn combined(
        self,
        left: ExpressionValue,
        right: ExpressionValue,
        model: DecimalModel,
    ) -> ExpressionValue {
        match self {
            ChainKind::Sum => left.sum(right, model),
            ChainKind::Difference => left.difference(right, model),
            ChainKind::Product => left.product(right, model),
            ChainKind::Quotient => left.quotient(right, model),
        }
    }

    /// Combines the value of the operands so far with the value of the next
    /// operand.
    pub fn combine<R: Fn(&str) -> DecimalType, A: Fn(
        DecimalOperator,
        DecimalType,
        DecimalType,
    ) -> DecimalType>(
        self,
        left: ExpressionValue,
        right: ExpressionValue,
        arithmetic: &DecimalArithmetic<R, A>,
    ) -> (result: ExpressionValue)
        requires
            arithmetic.usable(),
        ensures
            result == self.combined(left, right, arithmetic.model()),
    {
        match self {
            ChainKind::Sum => left.add(right, arithmetic),
            ChainKind::Difference => left.sub(right, arithmetic),
            ChainKind::Product => left.mul(right, arithmetic),
            ChainKind::Quotient => left.div(right, arithmetic),
        }
    }
}

impl NodeView {
    /// The tree keeps the rules of the syntax: every chain in it has two
    /// operands or more, and every decimal in it is reduced.
    pub open spec fn well_formed(self) -> bool
        decreases self,
    {
        match self {
            NodeView::NaN => true,
            NodeView::Integer { .. } => true,
            NodeView::Decimal { value, .. } => value.reduced(),
            NodeView::Parenthesis { inner, .. } => inner.well_formed(),
            NodeView::Chain { operands, .. } => {
                &&& operands.len() >= 2
                &&& forall|i: int| 0 <= i < operands.len() ==> (#[trigger] operands[i]).well_formed()
            },
            NodeView::Power { base, exponent, .. } => base.well_formed() && exponent.well_formed(),
        }
    }

    /// The span of the node in its source; the empty span at the start for
    /// the node that is no expression.
    pub open spec fn span(self) -> ParsePosition {
        match self {
            NodeView::NaN => ParsePosition::span(
                crate::scan::context::ScanPosition::origin(),
                crate::scan::context::ScanPosition::origin(),
            ),
            NodeView::Integer { position, .. } => position,
            NodeView::Decimal { position, .. } => position,
            NodeView::Parenthesis { position, .. } => position,
            NodeView::Chain { position, .. } => position,
            NodeView::Power { position, .. } => position,
        }
    }

    /// The value of the expression: a number as it stands, a parenthesis the
    /// value of what it holds with its sign, a chain its operands combined
    /// from left to right, a power its base raised to its exponent.
    pub open spec fn value(self, model: DecimalModel) -> ExpressionValue
        decreases self, 0int,
    {
        match self {
            NodeView::NaN => ExpressionValue::NaN,
            NodeView::Integer { value, .. } => ExpressionValue::Integer { value },
            NodeView::Decimal { value, .. } => ExpressionValue::Decimal {
                value: (model.read)(value.text()),
            },
            NodeView::Parenthesis { sign, inner, .. } => inner.value(model).signed(sign),
            NodeView::Chain { kind, operands, .. } => Self::folded(
                kind,
                operands,
                operands.len() as int,
                model,
            ),
            NodeView::Power { base, exponent, .. } => base.value(model).raised(
                exponent.value(model),
                model,
            ),
        }
    }

    /// The value of the first `n` of `operands`, combined from left to
    /// right as a chain of the given kind does.
    pub open spec fn folded(
        kind: ChainKind,
        operands: Seq<NodeView>,
        n: int,
        model: DecimalModel,
    ) -> ExpressionValue
        decreases operands, n,
    {
        if n <= 0 || n > operands.len() {
            ExpressionValue::NaN
        } else if n == 1 {
            operands[0].value(model)
        } else {
            kind.combined(
                Self::folded(kind, operands, n - 1, model),
                operands[n - 1].value(model),
                model,
            )
        }
    }
}

impl Position for ExpressionNode {
    open spec fn span(&self) -> ParsePosition {
        self@.span()
    }

    fn position(&self) -> (position: ParsePosition) {
        match self {
            ExpressionNode::NaN => ParsePosition::default(),
            ExpressionNode::Integer { position, .. } => *position,
            ExpressionNode::Decimal { position, .. } => *position,
            ExpressionNode::Parenthesis { position, .. } => *position,
            ExpressionNode::Sum { position, .. } => *position,
            ExpressionNode::Difference { position, .. } => *position,
            ExpressionNode::Product { position, .. } => *position,
            ExpressionNode::Quotient { position, .. } => *position,
            ExpressionNode::Power { position, .. } => *position,
        }
    }
}

impl ExpressionNode {
    /// Evaluates the operands of a chain from left to right.
    fn evaluate_chain<R: Fn(&str) -> DecimalType, A: Fn(
        DecimalOperator,
        DecimalType,
        DecimalType,
    ) -> DecimalType>(
        &self,
        kind: ChainKind,
        operands: &Vec<ExpressionNode>,
        arithmetic: &DecimalArithmetic<R, A>,
    ) -> (value: ExpressionValue)
        requires
            arithmetic.usable(),
            decreases_to!(self => operands),
            operands.len() >= 1,
            forall|i: int| 0 <= i < operands.len() ==> (#[trigger] operands[i])@.well_formed(),
        ensures
            value == NodeView::folded(
                kind,
                node_views(operands@, operands.len() as int),
                operands.len() as int,
                arithmetic.model(),
            ),
        decreases self, 0int,
    {
        let ghost views = node_views(operands@, operands.len() as int);
        proof {
            lemma_node_views(operands@, operands.len() as int);
            vstd::std_specs::vec::axiom_vec_index_decreases(*operands, 0);
        }
        let mut value = operands[0].value_under(arithmetic);
        let mut i: usize = 1;
        while i < operands.len()
            invariant
                1 <= i <= operands.len(),
                arithmetic.usable(),
                decreases_to!(self => operands),
                views == node_views(operands@, operands.len() as int),
                views.len() == operands.len(),
                forall|i: int| 0 <= i < operands.len() ==> #[trigger] views[i] == operands[i]@,
                forall|i: int| 0 <= i < operands.len() ==> (#[trigger] operands[i])@.well_formed(),
                value == NodeView::folded(kind, views, i as int, arithmetic.model()),
            decreases operands.len() - i,
        {
            proof {
                vstd::std_specs::vec::axiom_vec_index_decreases(*operands, i as int);
            }
            let next = operands[i].value_under(arithmetic);
            value = kind.combine(value, next, arithmetic);
            i += 1;
        }
        value
    }

    /// The value of the expression under `arithmetic`.
    fn value_under<R: Fn(&str) -> DecimalType, A: Fn(
        DecimalOperator,
        DecimalType,
        DecimalType,
    ) -> DecimalType>(&self, arithmetic: &DecimalArithmetic<R, A>) -> (value: ExpressionValue)
        requires
            arithmetic.usable(),
            self@.well_formed(),
        ensures
            value == self@.value(arithmetic.model()),
        decreases self, 1int,
    {
        match self {
            ExpressionNode::NaN => ExpressionValue::NaN,
            ExpressionNode::Integer { value, .. } => ExpressionValue::Integer { value: *value },
            ExpressionNode::Decimal { value, .. } => {
                let numeral = value.numeral();
                ExpressionValue::Decimal { value: arithmetic.convert(numeral.as_str()) }
            },
            ExpressionNode::Parenthesis { sign, inner, .. } => inner.value_under(
                arithmetic,
            ).with_sign(*sign),
            ExpressionNode::Sum { operands, .. } => {
                proof {
                    lemma_node_views(operands@, operands.len() as int);
                }
                self.evaluate_chain(ChainKind::Sum, operands, arithmetic)
            },
            ExpressionNode::Difference { operands, .. } => {
                proof {
                    lemma_node_views(operands@, operands.len() as int);
                }
                self.evaluate_chain(ChainKind::Difference, operands, arithmetic)
            },
            ExpressionNode::Product { operands, .. } => {
                proof {
                    lemma_node_views(operands@, operands.len() as int);
                }
                self.evaluate_chain(ChainKind::Product, operands, arithmetic)
            },
            ExpressionNode::Quotient { operands, .. } => {
                proof {
                    lemma_node_views(operands@, operands.len() as int);
                }
                self.evaluate_chain(ChainKind::Quotient, operands, arithmetic)
            },
            ExpressionNode::Power { base, exponent, .. } => {
                let base_value = base.value_under(arithmetic);
                let exponent_value = exponent.value_under(arithmetic);
                base_value.power(exponent_value, arithmetic)
            },
        }
    }
}

impl Evaluate for ExpressionNode {
    open spec fn evaluable(&self) -> bool {
        self@.well_formed()
    }

    open spec fn evaluated(&self, model: DecimalModel) -> ExpressionValue {
        self@.value(model)
    }

    /// Evaluates the expression.
    ///
    /// Integers are computed here; whatever involves a decimal is computed
    /// by `arithmetic`. The result is the value of the tree under what
    /// `arithmetic` computes.
    fn evaluate<R: Fn(&str) -> DecimalType, A: Fn(
        DecimalOperator,
        DecimalType,
        DecimalType,
    ) -> DecimalType>(&self, arithmetic: &DecimalArithmetic<R, A>) -> (value: ExpressionValue) {
        self.value_under(arithmetic)
    }
}

} // verus!
