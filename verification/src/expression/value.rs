//! The value that an expression evaluates to, and the arithmetic on values.
//!
//! A value is an integer, a decimal, or not a number. Integer arithmetic is
//! done here, on 32-bit integers that wrap around. A decimal is held as the
//! 64 bits of a binary floating-point number; arithmetic on decimals is not
//! done here but by a [`DecimalArithmetic`] that the caller supplies, and
//! every result is stated in terms of what that arithmetic returns.

use vstd::prelude::*;
use vstd::arithmetic::power::pow;
use crate::expression::numeral::{integer_numeral, integer_text};

verus! {

pub type IntegerType = i32;

/// A decimal number, held as the bit pattern of a 64-bit binary
/// floating-point number: one sign bit, eleven exponent bits and 52 fraction
/// bits.
#[derive(Debug, Clone, Copy, PartialEq, Eq, Structural)]
pub struct DecimalType {
    pub bits: u64,
}

/// The sign bit of a decimal.
pub const SIGN_BIT: u64 = 0x8000_0000_0000_0000;

/// The bits of a decimal but its sign.
pub const MAGNITUDE_BITS: u64 = 0x7FFF_FFFF_FFFF_FFFF;

/// The magnitude bits of positive and negative infinity; every greater
/// magnitude is not a number.
pub const INFINITY_BITS: u64 = 0x7FF0_0000_0000_0000;

/// The bits of the decimal one.
pub const ONE_BITS: u64 = 0x3FF0_0000_0000_0000;

impl DecimalType {
    /// The decimal is positive or negative zero.
    pub open spec fn zero(self) -> bool {
        self.bits & MAGNITUDE_BITS == 0
    }

    /// The decimal with the opposite sign.
    pub open spec fn negated(self) -> DecimalType {
        DecimalType { bits: self.bits ^ SIGN_BIT }
    }

    /// The decimal is less than zero: its sign is set, and it is neither a
    /// zero nor not a number.
    pub open spec fn negative(self) -> bool {
        &&& self.bits & SIGN_BIT != 0
        &&& self.bits & MAGNITUDE_BITS != 0
        &&& self.bits & MAGNITUDE_BITS <= INFINITY_BITS
    }

    /// The decimal with the given bit pattern.
    pub fn from_bits(bits: u64) -> (decimal: DecimalType)
        ensures
            decimal.bits == bits,
    {
        DecimalType { bits }
    }

    /// The bit pattern of the decimal.
    pub fn to_bits(self) -> (bits: u64)
        ensures
            bits == self.bits,
    {
        self.bits
    }

    /// Whether the decimal is positive or negative zero.
    pub fn is_zero(self) -> (b: bool)
        ensures
            b == self.zero(),
    {
        self.bits & MAGNITUDE_BITS == 0
    }

    /// The decimal with the opposite sign.
    pub fn negate(self) -> (decimal: DecimalType)
        ensures
            decimal == self.negated(),
    {
        DecimalType { bits: self.bits ^ SIGN_BIT }
    }

    /// Whether the decimal is less than zero.
    pub fn is_negative(self) -> (b: bool)
        ensures
            b == self.negative(),
    {
        self.bits & SIGN_BIT != 0 && self.bits & MAGNITUDE_BITS != 0 && self.bits & MAGNITUDE_BITS
            <= INFINITY_BITS
    }
}

/// The operations on two decimals that a [`DecimalArithmetic`] performs.
#[derive(Debug, Clone, Copy, PartialEq, Eq, Structural)]
pub enum DecimalOperator {
    Add,
    Subtract,
    Multiply,
    Divide,
    Power,
}

/// What a decimal arithmetic computes, as two mathematical functions: the
/// decimal that a numeral stands for, and the result of an operation on two
/// decimals.
pub ghost struct DecimalModel {
    pub read: spec_fn(Seq<char>) -> DecimalType,
    pub apply: spec_fn(DecimalOperator, DecimalType, DecimalType) -> DecimalType,
}

/// The arithmetic on decimals that evaluation relies on: `read` converts a
/// numeral to the nearest decimal, `apply` performs an operation on two
/// decimals.
pub struct DecimalArithmetic<R, A> {
    pub read: R,
    pub apply: A,
}

impl<R: Fn(&str) -> DecimalType, A: Fn(DecimalOperator, DecimalType, DecimalType) -> DecimalType> DecimalArithmetic<R, A> {
    /// Both functions may be called on every argument, and what they return
    /// depends on nothing but the text of the numeral, or the operator and
    /// the two decimals.
    pub open spec fn usable(&self) -> bool {
        &&& forall|text: &str| #[trigger] self.read.requires((text,))
        &&& forall|operator: DecimalOperator, left: DecimalType, right: DecimalType| #[trigger]
            self.apply.requires((operator, left, right))
        &&& forall|first: &str, second: &str, a: DecimalType, b: DecimalType|
            first@ == second@ && #[trigger] self.read.ensures((first,), a)
                && #[trigger] self.read.ensures((second,), b) ==> a == b
        &&& forall|operator: DecimalOperator, left: DecimalType, right: DecimalType, a: DecimalType, b: DecimalType| #[trigger]
            self.apply.ensures((operator, left, right), a) && #[trigger] self.apply.ensures(
                (operator, left, right),
                b,
            ) ==> a == b
    }

    /// For some numeral with the text `text`, `read` may return `decimal`.
    pub open spec fn reads(&self, text: Seq<char>, decimal: DecimalType) -> bool {
        exists|numeral: &str| numeral@ == text && #[trigger] self.read.ensures((numeral,), decimal)
    }

    /// The decimal that `read` returns for a numeral with the text `text`.
    pub open spec fn read_value(&self, text: Seq<char>) -> DecimalType {
        choose|decimal: DecimalType| #[trigger] self.reads(text, decimal)
    }

    /// The decimal that `apply` returns.
    pub open spec fn apply_value(
        &self,
        operator: DecimalOperator,
        left: DecimalType,
        right: DecimalType,
    ) -> DecimalType {
        choose|decimal: DecimalType| self.apply.ensures((operator, left, right), decimal)
    }

    /// The two functions that this arithmetic computes.
    pub open spec fn model(&self) -> DecimalModel {
        DecimalModel {
            read: |text: Seq<char>| self.read_value(text),
            apply: |operator: DecimalOperator, left: DecimalType, right: DecimalType|
                self.apply_value(operator, left, right),
        }
    }

    /// Converts the numeral `text` to a decimal.
    pub fn convert(&self, text: &str) -> (decimal: DecimalType)
        requires
            self.usable(),
        ensures
            decimal == (self.model().read)(text@),
    {
        let decimal = (self.read)(text);
        proof {
            assert(self.reads(text@, decimal));
            let chosen = self.read_value(text@);
            assert(self.reads(text@, chosen));
        }
        decimal
    }

    /// Performs `operator` on two decimals.
    pub fn perform(&self, operator: DecimalOperator, left: DecimalType, right: DecimalType) -> (decimal:
        DecimalType)
        requires
            self.usable(),
        ensures
            decimal == (self.model().apply)(operator, left, right),
    {
        (self.apply)(operator, left, right)
    }
}

/// The sign in front of a parenthesis.
#[derive(Debug, Clone, Copy, PartialEq, Eq, Structural)]
pub enum SignType {
    Negative,
    Positive,
}

impl From<bool> for SignType {
    /// Positive for `true`, negative for `false`.
    fn from(value: bool) -> (sign: SignType) {
        if value {
            SignType::Positive
        } else {
            SignType::Negative
        }
    }
}

impl vstd::std_specs::convert::FromSpecImpl<bool> for SignType {
    open spec fn obeys_from_spec() -> bool {
        true
    }

    open spec fn from_spec(value: bool) -> SignType {
        if value {
            SignType::Positive
        } else {
            SignType::Negative
        }
    }
}

impl From<DecimalType> for SignType {
    /// Negative for a decimal less than zero, positive for every other.
    fn from(value: DecimalType) -> (sign: SignType) {
        if value.is_negative() {
            SignType::Negative
        } else {
            SignType::Positive
        }
    }
}

impl vstd::std_specs::convert::FromSpecImpl<DecimalType> for SignType {
    open spec fn obeys_from_spec() -> bool {
        true
    }

    open spec fn from_spec(value: DecimalType) -> SignType {
        if value.negative() {
            SignType::Negative
        } else {
            SignType::Positive
        }
    }
}

impl From<IntegerType> for SignType {
    /// Negative for an integer less than zero, positive for every other.
    fn from(value: IntegerType) -> (sign: SignType) {
        if value < 0 {
            SignType::Negative
        } else {
            SignType::Positive
        }
    }
}

impl vstd::std_specs::convert::FromSpecImpl<IntegerType> for SignType {
    open spec fn obeys_from_spec() -> bool {
        true
    }

    open spec fn from_spec(value: IntegerType) -> SignType {
        if value < 0 {
            SignType::Negative
        } else {
            SignType::Positive
        }
    }
}

impl From<SignType> for DecimalType {
    /// The decimal one with the given sign.
    fn from(value: SignType) -> (decimal: DecimalType) {
        match value {
            SignType::Negative => DecimalType { bits: ONE_BITS | SIGN_BIT },
            SignType::Positive => DecimalType { bits: ONE_BITS },
        }
    }
}

impl vstd::std_specs::convert::FromSpecImpl<SignType> for DecimalType {
    open spec fn obeys_from_spec() -> bool {
        true
    }

    open spec fn from_spec(value: SignType) -> DecimalType {
        match value {
            SignType::Negative => DecimalType { bits: ONE_BITS | SIGN_BIT },
            SignType::Positive => DecimalType { bits: ONE_BITS },
        }
    }
}

impl From<SignType> for IntegerType {
    /// The integer one with the given sign.
    fn from(value: SignType) -> (integer: IntegerType) {
        match value {
            SignType::Negative => -1,
            SignType::Positive => 1,
        }
    }
}

impl vstd::std_specs::convert::FromSpecImpl<SignType> for IntegerType {
    open spec fn obeys_from_spec() -> bool {
        true
    }

    open spec fn from_spec(value: SignType) -> IntegerType {
        match value {
            SignType::Negative => -1i32,
            SignType::Positive => 1i32,
        }
    }
}

/// The 32-bit integer that is congruent to `v` modulo 2^32: what integer
/// arithmetic that wraps around makes of the exact result `v`.
pub open spec fn wrap_integer(v: int) -> IntegerType {
    let low = v % 0x1_0000_0000;
    if low >= 0x8000_0000 {
        (low - 0x1_0000_0000) as IntegerType
    } else {
        low as IntegerType
    }
}

/// The 32-bit integer nearest to `v`.
pub open spec fn clamp_integer(v: int) -> IntegerType {
    if v > IntegerType::MAX {
        IntegerType::MAX
    } else if v < IntegerType::MIN {
        IntegerType::MIN
    } else {
        v as IntegerType
    }
}

/// The quotient of `a` by `b`, rounded towards zero.
pub open spec fn truncated_quotient(a: int, b: int) -> int
    recommends
        b != 0,
{
    if a >= 0 && b > 0 {
        a / b
    } else if a < 0 && b < 0 {
        (-a) / (-b)
    } else if a < 0 {
        -((-a) / b)
    } else {
        -(a / (-b))
    }
}

/// The integer `base` raised to the integer `exponent`: zero for an
/// exponent below zero, else the power, or the nearest 32-bit integer where
/// the power is out of range.
pub open spec fn integer_power(base: IntegerType, exponent: IntegerType) -> IntegerType {
    if exponent < 0 {
        0
    } else {
        clamp_integer(pow(base as int, exponent as nat))
    }
}

/// The 32-bit integer that `wide` wraps around to.
fn wrapped(wide: i64) -> (narrow: IntegerType)
    requires
        -0x4000_0000_0000_0000 <= wide <= 0x4000_0000_0000_0000,
    ensures
        narrow == wrap_integer(wide as int),
{
    let shifted: u64 = if wide >= 0 {
        wide as u64 + 0x4000_0000_0000_0000
    } else {
        0x4000_0000_0000_0000 - ((-wide) as u64)
    };
    let low: u64 = shifted % 0x1_0000_0000;
    assert(low as int == (wide as int) % 0x1_0000_0000);
    if low >= 0x8000_0000 {
        (low as i64 - 0x1_0000_0000) as i32
    } else {
        low as i32
    }
}

/// Raising an integer to the power of another.
pub trait Power<Rhs = Self> {
    type Output;

    /// The power that `power` returns.
    spec fn raised(self, rhs: Rhs) -> Self::Output;

    /// Raises `self` to the power of `rhs`.
    fn power(self, rhs: Rhs) -> (result: Self::Output)
        ensures
            result == self.raised(rhs),
    ;
}

/// The absolute value of `v`.
pub open spec fn magnitude(v: int) -> int {
    if v < 0 {
        -v
    } else {
        v
    }
}

/// The powers of a base of magnitude two or more never shrink in magnitude,
/// and their sign is that of the base where the exponent is odd.
pub proof fn lemma_power_grows(base: int, low: nat, high: nat)
    requires
        magnitude(base) >= 2,
        low <= high,
    ensures
        magnitude(pow(base, high)) >= magnitude(pow(base, low)) >= 1,
        base < 0 && high % 2 == 1 ==> pow(base, high) < 0,
        base > 0 || high % 2 == 0 ==> pow(base, high) > 0,
    decreases high,
{
    reveal(pow);
    if high == 0 {
    } else {
        let previous = pow(base, (high - 1) as nat);
        if low == high {
            lemma_power_grows(base, (high - 1) as nat, (high - 1) as nat);
        } else {
            lemma_power_grows(base, low, (high - 1) as nat);
        }
        assert(pow(base, high) == base * previous);
        assert(magnitude(base * previous) >= magnitude(previous)) by (nonlinear_arith)
            requires
                magnitude(base) >= 2,
        ;
        assert(base > 0 && previous > 0 ==> base * previous > 0) by (nonlinear_arith);
        assert(base < 0 && previous < 0 ==> base * previous > 0) by (nonlinear_arith);
        assert(base < 0 && previous > 0 ==> base * previous < 0) by (nonlinear_arith);
    }
}

impl Power for IntegerType {
    type Output = IntegerType;

    open spec fn raised(self, rhs: IntegerType) -> IntegerType {
        integer_power(self, rhs)
    }

    fn power(self, rhs: IntegerType) -> (result: IntegerType) {
        reveal(pow);
        if rhs < 0 {
            return 0;
        }
        if self == 0 || self == 1 {
            proof {
                if rhs > 0 {
                    vstd::arithmetic::power::lemma0_pow(rhs as nat);
                }
                vstd::arithmetic::power::lemma1_pow(rhs as nat);
            }
            return if rhs == 0 {
                1
            } else {
                self
            };
        }
        let mut result: i64 = 1;
        let mut count: IntegerType = 0;
        while count < rhs
            invariant
                0 <= count <= rhs,
                self != 0 && self != 1,
                result == pow(self as int, count as nat),
                IntegerType::MIN <= result <= IntegerType::MAX,
            decreases rhs - count,
        {
            if self == -1 {
                assert(result == 1 || result == -1) by {
                    lemma_unit_powers(count as nat);
                }
            }
            assert(-0x4000_0000_0000_0000 <= result * self <= 0x4000_0000_0000_0000)
                by (nonlinear_arith)
                requires
                    IntegerType::MIN <= result <= IntegerType::MAX,
                    IntegerType::MIN <= self <= IntegerType::MAX,
            ;
            let next: i64 = result * (self as i64);
            assert(next == pow(self as int, (count + 1) as nat)) by {
                reveal(pow);
                assert(((count + 1) as nat - 1) as nat == count as nat);
                assert(pow(self as int, (count + 1) as nat) == (self as int) * pow(
                    self as int,
                    count as nat,
                ));
                assert((self as int) * (result as int) == (result as int) * (self as int))
                    by (nonlinear_arith);
            }
            if next > 2147483647 || next < -2147483648 {
                proof {
                    assert(self != -1) by {
                        lemma_unit_powers((count + 1) as nat);
                    }
                    lemma_power_grows(self as int, (count + 1) as nat, rhs as nat);
                }
                return if self > 0 || rhs % 2 == 0 {
                    IntegerType::MAX
                } else {
                    IntegerType::MIN
                };
            }
            result = next;
            count = count + 1;
        }
        result as IntegerType
    }
}

/// The value of an expression.
#[derive(Debug, Clone, Copy, PartialEq, Eq, Structural)]
#[allow(inconsistent_fields)]
pub enum ExpressionValue {
    /// Not a number: the result of a division by zero, and of every
    /// operation on such a result.
    NaN,
    Decimal { value: DecimalType },
    Integer { value: IntegerType },
}

impl ExpressionValue {
    /// The value as a decimal: an integer is converted by reading its
    /// numeral.
    pub open spec fn decimal(self, model: DecimalModel) -> DecimalType {
        match self {
            ExpressionValue::NaN => DecimalType { bits: 0 },
            ExpressionValue::Decimal { value } => value,
            ExpressionValue::Integer { value } => (model.read)(integer_text(value as int)),
        }
    }

    /// The value is zero, as an integer or as a decimal.
    pub open spec fn zero(self) -> bool {
        match self {
            ExpressionValue::NaN => false,
            ExpressionValue::Decimal { value } => value.zero(),
            ExpressionValue::Integer { value } => value == 0,
        }
    }

    /// What `operator` makes of two values that are numbers, not both of
    /// them integers: the result of the operation on the two as decimals.
    pub open spec fn mixed(
        self,
        rhs: ExpressionValue,
        operator: DecimalOperator,
        model: DecimalModel,
    ) -> ExpressionValue {
        ExpressionValue::Decimal {
            value: (model.apply)(operator, self.decimal(model), rhs.decimal(model)),
        }
    }

    /// The sum of two values.
    pub open spec fn sum(self, rhs: ExpressionValue, model: DecimalModel) -> ExpressionValue {
        match (self, rhs) {
            (ExpressionValue::NaN, _) => ExpressionValue::NaN,
            (_, ExpressionValue::NaN) => ExpressionValue::NaN,
            (ExpressionValue::Integer { value: a }, ExpressionValue::Integer { value: b }) =>
                ExpressionValue::Integer { value: wrap_integer(a + b) },
            _ => self.mixed(rhs, DecimalOperator::Add, model),
        }
    }

    /// The difference of two values.
    pub open spec fn difference(self, rhs: ExpressionValue, model: DecimalModel) -> ExpressionValue {
        match (self, rhs) {
            (ExpressionValue::NaN, _) => ExpressionValue::NaN,
            (_, ExpressionValue::NaN) => ExpressionValue::NaN,
            (ExpressionValue::Integer { value: a }, ExpressionValue::Integer { value: b }) =>
                ExpressionValue::Integer { value: wrap_integer(a - b) },
            _ => self.mixed(rhs, DecimalOperator::Subtract, model),
        }
    }

    /// The product of two values.
    pub open spec fn product(self, rhs: ExpressionValue, model: DecimalModel) -> ExpressionValue {
        match (self, rhs) {
            (ExpressionValue::NaN, _) => ExpressionValue::NaN,
            (_, ExpressionValue::NaN) => ExpressionValue::NaN,
            (ExpressionValue::Integer { value: a }, ExpressionValue::Integer { value: b }) =>
                ExpressionValue::Integer { value: wrap_integer(a * b) },
            _ => self.mixed(rhs, DecimalOperator::Multiply, model),
        }
    }

    /// The quotient of two values: not a number where the divisor is zero.
    pub open spec fn quotient(self, rhs: ExpressionValue, model: DecimalModel) -> ExpressionValue {
        match (self, rhs) {
            (ExpressionValue::NaN, _) => ExpressionValue::NaN,
            (_, ExpressionValue::NaN) => ExpressionValue::NaN,
            (ExpressionValue::Integer { value: a }, ExpressionValue::Integer { value: b }) => if b
                == 0 {
                ExpressionValue::NaN
            } else {
                ExpressionValue::Integer { value: wrap_integer(truncated_quotient(a as int, b as int)) }
            },
            _ => if rhs.zero() {
                ExpressionValue::NaN
            } else {
                self.mixed(rhs, DecimalOperator::Divide, model)
            },
        }
    }

    /// A value raised to the power of another.
    pub open spec fn raised(self, rhs: ExpressionValue, model: DecimalModel) -> ExpressionValue {
        match (self, rhs) {
            (ExpressionValue::NaN, _) => ExpressionValue::NaN,
            (_, ExpressionValue::NaN) => ExpressionValue::NaN,
            (ExpressionValue::Integer { value: a }, ExpressionValue::Integer { value: b }) =>
                ExpressionValue::Integer { value: integer_power(a, b) },
            _ => self.mixed(rhs, DecimalOperator::Power, model),
        }
    }

    /// The value with the given sign in front of it.
    pub open spec fn signed(self, sign: SignType) -> ExpressionValue {
        match sign {
            SignType::Positive => self,
            SignType::Negative => match self {
                ExpressionValue::NaN => ExpressionValue::NaN,
                ExpressionValue::Decimal { value } => ExpressionValue::Decimal {
                    value: value.negated(),
                },
                ExpressionValue::Integer { value } => ExpressionValue::Integer {
                    value: wrap_integer(-value),
                },
            },
        }
    }

    /// The value as a decimal.
    fn to_decimal<R: Fn(&str) -> DecimalType, A: Fn(
        DecimalOperator,
        DecimalType,
        DecimalType,
    ) -> DecimalType>(self, arithmetic: &DecimalArithmetic<R, A>) -> (decimal: DecimalType)
        requires
            arithmetic.usable(),
            !(self is NaN),
        ensures
            decimal == self.decimal(arithmetic.model()),
    {
        match self {
            ExpressionValue::NaN => DecimalType { bits: 0 },
            ExpressionValue::Decimal { value } => value,
            ExpressionValue::Integer { value } => {
                let numeral = integer_numeral(value);
                arithmetic.convert(numeral.as_str())
            },
        }
    }

    /// Performs `operator` on two values as decimals.
    fn mix<R: Fn(&str) -> DecimalType, A: Fn(DecimalOperator, DecimalType, DecimalType) -> DecimalType>(
        self,
        rhs: ExpressionValue,
        operator: DecimalOperator,
        arithmetic: &DecimalArithmetic<R, A>,
    ) -> (result: ExpressionValue)
        requires
            arithmetic.usable(),
            !(self is NaN),
            !(rhs is NaN),
        ensures
            result == self.mixed(rhs, operator, arithmetic.model()),
    {
        let left = self.to_decimal(arithmetic);
        let right = rhs.to_decimal(arithmetic);
        ExpressionValue::Decimal { value: arithmetic.perform(operator, left, right) }
    }

    /// Adds `rhs` to the value.
    pub fn add<R: Fn(&str) -> DecimalType, A: Fn(DecimalOperator, DecimalType, DecimalType) -> DecimalType>(
        self,
        rhs: ExpressionValue,
        arithmetic: &DecimalArithmetic<R, A>,
    ) -> (result: ExpressionValue)
        requires
            arithmetic.usable(),
        ensures
            result == self.sum(rhs, arithmetic.model()),
    {
        match (self, rhs) {
            (ExpressionValue::NaN, _) => ExpressionValue::NaN,
            (_, ExpressionValue::NaN) => ExpressionValue::NaN,
            (ExpressionValue::Integer { value: a }, ExpressionValue::Integer { value: b }) =>
                ExpressionValue::Integer { value: wrapped(a as i64 + b as i64) },
            _ => self.mix(rhs, DecimalOperator::Add, arithmetic),
        }
    }

    /// Subtracts `rhs` from the value.
    pub fn sub<R: Fn(&str) -> DecimalType, A: Fn(DecimalOperator, DecimalType, DecimalType) -> DecimalType>(
        self,
        rhs: ExpressionValue,
        arithmetic: &DecimalArithmetic<R, A>,
    ) -> (result: ExpressionValue)
        requires
            arithmetic.usable(),
        ensures
            result == self.difference(rhs, arithmetic.model()),
    {
        match (self, rhs) {
            (ExpressionValue::NaN, _) => ExpressionValue::NaN,
            (_, ExpressionValue::NaN) => ExpressionValue::NaN,
            (ExpressionValue::Integer { value: a }, ExpressionValue::Integer { value: b }) =>
                ExpressionValue::Integer { value: wrapped(a as i64 - b as i64) },
            _ => self.mix(rhs, DecimalOperator::Subtract, arithmetic),
        }
    }

    /// Multiplies the value by `rhs`.
    pub fn mul<R: Fn(&str) -> DecimalType, A: Fn(DecimalOperator, DecimalType, DecimalType) -> DecimalType>(
        self,
        rhs: ExpressionValue,
        arithmetic: &DecimalArithmetic<R, A>,
    ) -> (result: ExpressionValue)
        requires
            arithmetic.usable(),
        ensures
            result == self.product(rhs, arithmetic.model()),
    {
        match (self, rhs) {
            (ExpressionValue::NaN, _) => ExpressionValue::NaN,
            (_, ExpressionValue::NaN) => ExpressionValue::NaN,
            (ExpressionValue::Integer { value: a }, ExpressionValue::Integer { value: b }) => {
                assert(-0x4000_0000_0000_0000 <= (a as int) * (b as int) <= 0x4000_0000_0000_0000)
                    by (nonlinear_arith)
                    requires
                        -0x8000_0000 <= a <= 0x7FFF_FFFF,
                        -0x8000_0000 <= b <= 0x7FFF_FFFF,
                ;
                ExpressionValue::Integer { value: wrapped(a as i64 * b as i64) }
            },
            _ => self.mix(rhs, DecimalOperator::Multiply, arithmetic),
        }
    }

    /// Divides the value by `rhs`.
    pub fn div<R: Fn(&str) -> DecimalType, A: Fn(DecimalOperator, DecimalType, DecimalType) -> DecimalType>(
        self,
        rhs: ExpressionValue,
        arithmetic: &DecimalArithmetic<R, A>,
    ) -> (result: ExpressionValue)
        requires
            arithmetic.usable(),
        ensures
            result == self.quotient(rhs, arithmetic.model()),
    {
        match (self, rhs) {
            (ExpressionValue::NaN, _) => ExpressionValue::NaN,
            (_, ExpressionValue::NaN) => ExpressionValue::NaN,
            (ExpressionValue::Integer { value: a }, ExpressionValue::Integer { value: b }) => {
                if b == 0 {
                    ExpressionValue::NaN
                } else {
                    match (a as i64).checked_div(b as i64) {
                        Some(exact) => ExpressionValue::Integer { value: wrapped(exact) },
                        None => ExpressionValue::NaN,
                    }
                }
            },
            (_, ExpressionValue::Decimal { value }) => {
                if value.is_zero() {
                    ExpressionValue::NaN
                } else {
                    self.mix(rhs, DecimalOperator::Divide, arithmetic)
                }
            },
            (_, ExpressionValue::Integer { value }) => {
                if value == 0 {
                    ExpressionValue::NaN
                } else {
                    self.mix(rhs, DecimalOperator::Divide, arithmetic)
                }
            },
        }
    }

    /// Raises the value to the power of `rhs`.
    pub fn power<R: Fn(&str) -> DecimalType, A: Fn(DecimalOperator, DecimalType, DecimalType) -> DecimalType>(
        self,
        rhs: ExpressionValue,
        arithmetic: &DecimalArithmetic<R, A>,
    ) -> (result: ExpressionValue)
        requires
            arithmetic.usable(),
        ensures
            result == self.raised(rhs, arithmetic.model()),
    {
        match (self, rhs) {
            (ExpressionValue::NaN, _) => ExpressionValue::NaN,
            (_, ExpressionValue::NaN) => ExpressionValue::NaN,
            (ExpressionValue::Integer { value: a }, ExpressionValue::Integer { value: b }) =>
                ExpressionValue::Integer { value: Power::power(a, b) },
            _ => self.mix(rhs, DecimalOperator::Power, arithmetic),
        }
    }

    /// Puts `sign` in front of the value.
    pub fn with_sign(self, sign: SignType) -> (result: ExpressionValue)
        ensures
            result == self.signed(sign),
    {
        match sign {
            SignType::Positive => self,
            SignType::Negative => match self {
                ExpressionValue::NaN => ExpressionValue::NaN,
                ExpressionValue::Decimal { value } => ExpressionValue::Decimal {
                    value: value.negate(),
                },
                ExpressionValue::Integer { value } => ExpressionValue::Integer {
                    value: wrapped(-(value as i64)),
                },
            },
        }
    }
}

/// Not a number absorbs every operation, and every division by zero gives
/// not a number.
pub proof fn law_not_a_number_absorbs(value: ExpressionValue, model: DecimalModel)
    ensures
        value.sum(ExpressionValue::NaN, model) is NaN,
        ExpressionValue::NaN.sum(value, model) is NaN,
        value.difference(ExpressionValue::NaN, model) is NaN,
        ExpressionValue::NaN.difference(value, model) is NaN,
        value.product(ExpressionValue::NaN, model) is NaN,
        ExpressionValue::NaN.product(value, model) is NaN,
        value.quotient(ExpressionValue::NaN, model) is NaN,
        ExpressionValue::NaN.quotient(value, model) is NaN,
        value.raised(ExpressionValue::NaN, model) is NaN,
        ExpressionValue::NaN.raised(value, model) is NaN,
        forall|divisor: ExpressionValue| divisor.zero() ==> value.quotient(divisor, model) is NaN,
{
}

/// Every power of minus one is one or minus one.
proof fn lemma_unit_powers(exponent: nat)
    ensures
        pow(-1, exponent) == 1 || pow(-1, exponent) == -1,
    decreases exponent,
{
    reveal(pow);
    if exponent > 0 {
        lemma_unit_powers((exponent - 1) as nat);
    }
}

} // verus!
