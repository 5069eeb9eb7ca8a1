//! The value of the expressions that are equal to a given one.
//!
//! Integer arithmetic wraps around, so that sums and products of integers
//! do not depend on the order of their operands. An expression without a
//! decimal therefore has the value of each of its variants.

use vstd::prelude::*;
use crate::collection::combinations::{lemma_permutations_sum, lemma_sum_one, product_of, sum_of};
use crate::commute::helper::{commuted, iota, orders_of};
use crate::commute::variants::{lemma_commuted_sound, lemma_variant_readable, variant};
use crate::expression::laws::{law_text_keeps_value, lemma_value_shape, read};
use crate::expression::node::{ChainKind, NodeView};
use crate::expression::rereading::readable;
use crate::expression::value::{wrap_integer, DecimalModel, ExpressionValue};

verus! {

/// No decimal stands in the tree.
pub open spec fn integral(t: NodeView) -> bool
    decreases t,
{
    match t {
        NodeView::Decimal { .. } => false,
        NodeView::Parenthesis { inner, .. } => integral(*inner),
        NodeView::Chain { operands, .. } => forall|i: int|
            0 <= i < operands.len() ==> integral(#[trigger] operands[i]),
        NodeView::Power { base, exponent, .. } => integral(*base) && integral(*exponent),
        _ => true,
    }
}

/// The integer of a value that is one; zero for every other value.
pub open spec fn number_of(v: ExpressionValue) -> int {
    match v {
        ExpressionValue::Integer { value } => value as int,
        _ => 0,
    }
}

/// Zero for a value that is an integer, one for every other.
pub open spec fn missing(v: ExpressionValue) -> int {
    if v is Integer {
        0
    } else {
        1
    }
}

/// For each index, the integer of the value of the operand at it.
pub open spec fn number_at(operands: Seq<NodeView>, model: DecimalModel) -> spec_fn(int) -> int {
    |j: int| number_of(operands[j].value(model))
}

/// For each index, whether the value of the operand at it is no integer.
pub open spec fn missing_at(operands: Seq<NodeView>, model: DecimalModel) -> spec_fn(int) -> int {
    |j: int| missing(operands[j].value(model))
}

/// Wrapping a sum around is wrapping the sum of a wrapped number around.
pub proof fn lemma_wrap_add(a: int, b: int)
    ensures
        wrap_integer(wrap_integer(a) + b) == wrap_integer(a + b),
{
    let m = 0x1_0000_0000int;
    let low = a % m;
    assert((low + b) % m == (a + b) % m) by {
        vstd::arithmetic::div_mod::lemma_add_mod_noop(a, b, m);
        vstd::arithmetic::div_mod::lemma_add_mod_noop(low, b, m);
        vstd::arithmetic::div_mod::lemma_mod_twice(a, m);
    }
    assert((low - m + b) % m == (low + b) % m) by {
        vstd::arithmetic::div_mod::lemma_mod_sub_multiples_vanish(low + b, m);
    }
}

/// Wrapping a product around is wrapping the product of a wrapped number
/// around.
pub proof fn lemma_wrap_mul(a: int, b: int)
    ensures
        wrap_integer(wrap_integer(a) * b) == wrap_integer(a * b),
{
    let m = 0x1_0000_0000int;
    let low = a % m;
    assert((low * b) % m == (a * b) % m) by {
        vstd::arithmetic::div_mod::lemma_mul_mod_noop_left(a, b, m);
    }
    assert(((low - m) * b) % m == (low * b) % m) by {
        assert((low - m) * b == m * (-b) + low * b) by (nonlinear_arith);
        vstd::arithmetic::div_mod::lemma_mod_multiples_vanish(-b, low * b, m);
    }
}

/// A 32-bit integer wrapped around is the integer.
pub proof fn lemma_wrap_own(v: i32)
    ensures
        wrap_integer(v as int) == v,
{
}

/// The value of an expression without a decimal is no decimal.
pub proof fn lemma_integral_value(t: NodeView, model: DecimalModel)
    requires
        integral(t),
    ensures
        !(t.value(model) is Decimal),
    decreases t, 1int,
{
    match t {
        NodeView::Parenthesis { inner, .. } => {
            lemma_integral_value(*inner, model);
        },
        NodeView::Chain { kind, operands, .. } => {
            lemma_integral_folded(kind, operands, operands.len() as int, model);
        },
        NodeView::Power { base, exponent, .. } => {
            lemma_integral_value(*base, model);
            lemma_integral_value(*exponent, model);
        },
        _ => {},
    }
}

/// The value of operands without a decimal is no decimal.
pub proof fn lemma_integral_folded(
    kind: ChainKind,
    operands: Seq<NodeView>,
    n: int,
    model: DecimalModel,
)
    requires
        forall|i: int| 0 <= i < operands.len() ==> integral(#[trigger] operands[i]),
    ensures
        !(NodeView::folded(kind, operands, n, model) is Decimal),
    decreases operands, n,
{
    if 1 <= n <= operands.len() {
        lemma_integral_value(operands[n - 1], model);
        if n > 1 {
            lemma_integral_folded(kind, operands, n - 1, model);
        }
    }
}

/// The numbers from zero up to `n` are those up to `n - 1`, and `n - 1`.
pub proof fn lemma_iota_last(n: int)
    requires
        n >= 1,
    ensures
        iota(n).drop_last() == iota(n - 1),
        iota(n).last() == n - 1,
        iota(n).len() == n,
{
    assert(iota(n).drop_last() =~= iota(n - 1));
}

/// What the first `n` operands of a sum or a product without a decimal
/// give: not a number where one of them gives that; else their sum, or
/// their product, wrapped around.
pub proof fn lemma_folded_total(
    kind: ChainKind,
    operands: Seq<NodeView>,
    n: int,
    model: DecimalModel,
)
    requires
        kind == ChainKind::Sum || kind == ChainKind::Product,
        1 <= n <= operands.len(),
        forall|i: int| 0 <= i < operands.len() ==> integral(#[trigger] operands[i]),
    ensures
        sum_of(iota(n), missing_at(operands, model)) >= 0,
        NodeView::folded(kind, operands, n, model) == (if sum_of(
            iota(n),
            missing_at(operands, model),
        ) != 0 {
            ExpressionValue::NaN
        } else if kind == ChainKind::Sum {
            ExpressionValue::Integer {
                value: wrap_integer(sum_of(iota(n), number_at(operands, model))),
            }
        } else {
            ExpressionValue::Integer {
                value: wrap_integer(product_of(iota(n), number_at(operands, model))),
            }
        }),
    decreases n,
{
    let numbers = number_at(operands, model);
    let gaps = missing_at(operands, model);
    let this = operands[n - 1].value(model);
    lemma_integral_value(operands[n - 1], model);
    lemma_iota_last(n);
    if n == 1 {
        assert(iota(1) =~= seq![0int]);
        lemma_sum_one(0int, numbers);
        lemma_sum_one(0int, gaps);
        if this is Integer {
            lemma_wrap_own(this->Integer_value);
        }
    } else {
        lemma_folded_total(kind, operands, n - 1, model);
        let before = NodeView::folded(kind, operands, n - 1, model);
        if before is Integer && this is Integer {
            let v = this->Integer_value as int;
            if kind == ChainKind::Sum {
                lemma_wrap_add(sum_of(iota(n - 1), numbers), v);
            } else {
                lemma_wrap_mul(product_of(iota(n - 1), numbers), v);
            }
        }
    }
}

/// The sum and the product over the indices of operands in another order
/// are the sum and the product over the operands in that order.
pub proof fn lemma_sum_reordered(
    k: int,
    order: Seq<int>,
    here: spec_fn(int) -> int,
    there: spec_fn(int) -> int,
)
    requires
        0 <= k <= order.len(),
        forall|i: int| 0 <= i < order.len() ==> here(i) == there(#[trigger] order[i]),
    ensures
        sum_of(iota(k), here) == sum_of(order.take(k), there),
        product_of(iota(k), here) == product_of(order.take(k), there),
    decreases k,
{
    if k > 0 {
        lemma_sum_reordered(k - 1, order, here, there);
        lemma_iota_last(k);
        assert(order.take(k).drop_last() =~= order.take(k - 1));
        assert(order.take(k).last() == order[k - 1]);
    } else {
        assert(iota(0) =~= Seq::<int>::empty());
        assert(order.take(0) =~= Seq::<int>::empty());
    }
}

/// Operands of the same values, one by one, give the same value.
pub proof fn lemma_folded_same(
    kind: ChainKind,
    a: Seq<NodeView>,
    b: Seq<NodeView>,
    n: int,
    model: DecimalModel,
)
    requires
        a.len() == b.len(),
        forall|i: int| 0 <= i < a.len() ==> (#[trigger] a[i]).value(model) == b[i].value(model),
    ensures
        NodeView::folded(kind, a, n, model) == NodeView::folded(kind, b, n, model),
    decreases n,
{
    if 1 <= n <= a.len() {
        assert(a[n - 1].value(model) == b[n - 1].value(model));
        if n > 1 {
            lemma_folded_same(kind, a, b, n - 1, model);
            assert(a[0].value(model) == b[0].value(model));
        }
    }
}

/// A variant of an expression without a decimal has no decimal.
pub proof fn lemma_variant_integral(u: NodeView, w: NodeView)
    requires
        variant(u, w),
        integral(u),
    ensures
        integral(w),
    decreases u,
{
    match u {
        NodeView::Parenthesis { inner, .. } => {
            lemma_variant_integral(*inner, *w->inner);
        },
        NodeView::Chain { kind, operands, .. } => {
            let n = operands.len() as int;
            let order = choose|order: Seq<int>|
                {
                    &&& #[trigger] orders_of(kind, n).contains(order)
                    &&& order.len() == n
                    &&& forall|i: int|
                        0 <= i < n ==> 0 <= #[trigger] order[i] < n && variant(
                            operands[order[i]],
                            w->operands[i],
                        )
                };
            assert forall|i: int| 0 <= i < n implies integral(#[trigger] w->operands[i]) by {
                assert(0 <= order[i] < n);
                lemma_variant_integral(operands[order[i]], w->operands[i]);
            }
        },
        NodeView::Power { base, exponent, .. } => {
            lemma_variant_integral(*base, *w->base);
            lemma_variant_integral(*exponent, *w->exponent);
        },
        _ => {},
    }
}

/// A variant of an expression without a decimal has the value of the
/// expression.
pub proof fn lemma_variant_value(u: NodeView, w: NodeView, model: DecimalModel)
    requires
        variant(u, w),
        integral(u),
    ensures
        w.value(model) == u.value(model),
    decreases u,
{
    match u {
        NodeView::Parenthesis { inner, .. } => {
            lemma_variant_value(*inner, *w->inner, model);
        },
        NodeView::Chain { kind, operands, .. } => {
            let n = operands.len() as int;
            let others = w->operands;
            let order = choose|order: Seq<int>|
                {
                    &&& #[trigger] orders_of(kind, n).contains(order)
                    &&& order.len() == n
                    &&& forall|i: int|
                        0 <= i < n ==> 0 <= #[trigger] order[i] < n && variant(
                            operands[order[i]],
                            others[i],
                        )
                };
            lemma_variant_integral(u, w);
            assert forall|i: int| 0 <= i < n implies (#[trigger] others[i]).value(model)
                == operands[order[i]].value(model) by {
                assert(0 <= order[i] < n);
                lemma_variant_value(operands[order[i]], others[i], model);
            }
            if n >= 1 {
                match kind {
                    ChainKind::Sum | ChainKind::Product => {
                        lemma_folded_total(kind, operands, n, model);
                        lemma_folded_total(kind, others, n, model);
                        assert(order.take(n) =~= order);
                        assert forall|i: int| 0 <= i < order.len() implies number_at(others, model)(
                            i,
                        ) == number_at(operands, model)(#[trigger] order[i]) by {
                            assert(others[i].value(model) == operands[order[i]].value(model));
                        }
                        assert forall|i: int| 0 <= i < order.len() implies missing_at(others, model)(
                            i,
                        ) == missing_at(operands, model)(#[trigger] order[i]) by {
                            assert(others[i].value(model) == operands[order[i]].value(model));
                        }
                        lemma_sum_reordered(
                            n,
                            order,
                            number_at(others, model),
                            number_at(operands, model),
                        );
                        lemma_sum_reordered(
                            n,
                            order,
                            missing_at(others, model),
                            missing_at(operands, model),
                        );
                        lemma_permutations_sum(iota(n), order, number_at(operands, model));
                        lemma_permutations_sum(iota(n), order, missing_at(operands, model));
                    },
                    ChainKind::Difference | ChainKind::Quotient => {
                        let orders = seq![iota(n)];
                        let q = choose|q: int| 0 <= q < orders.len() && orders[q] == order;
                        assert(order == iota(n));
                        assert forall|i: int| 0 <= i < n implies (#[trigger] others[i]).value(model)
                            == operands[i].value(model) by {
                            assert(order[i] == i);
                        }
                        lemma_folded_same(kind, others, operands, n, model);
                    },
                }
            }
        },
        NodeView::Power { base, exponent, .. } => {
            lemma_variant_value(*base, *w->base, model);
            lemma_variant_value(*exponent, *w->exponent, model);
        },
        _ => {
            lemma_value_shape(u, model);
            lemma_value_shape(w, model);
        },
    }
}

/// Every text that is equal to an expression without a decimal reads as an
/// expression of the same value: for every tree that can be read, and
/// under every arithmetic on decimals.
pub proof fn law_commuted_keeps_value(t: NodeView, x: Seq<char>, model: DecimalModel)
    requires
        readable(t, 5, false),
        integral(t),
        commuted(t).contains(x),
    ensures
        read(x) matches Ok(node) && node.value(model) == t.value(model),
{
    lemma_commuted_sound(t, x);
    let w = choose|w: NodeView| #[trigger] variant(t, w) && w.text(false) == x;
    lemma_variant_readable(t, w, 5);
    lemma_variant_value(t, w, model);
    law_text_keeps_value(w, model);
}

} // verus!
