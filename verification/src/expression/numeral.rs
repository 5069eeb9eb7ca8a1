//! Numerals: the digits that stand for a number in a text.
//!
//! An integer is written with an optional minus sign and its decimal digits.
//! A decimal is held exactly as it was written, reduced to a sign, its
//! significant digits and a power of ten, so that numerals for the same
//! number give the same literal.

use vstd::prelude::*;

verus! {

/// The character for the digit `d`.
pub open spec fn digit_char(d: int) -> char {
    if d == 0 {
        '0'
    } else if d == 1 {
        '1'
    } else if d == 2 {
        '2'
    } else if d == 3 {
        '3'
    } else if d == 4 {
        '4'
    } else if d == 5 {
        '5'
    } else if d == 6 {
        '6'
    } else if d == 7 {
        '7'
    } else if d == 8 {
        '8'
    } else {
        '9'
    }
}

/// `c` is one of the ten digits.
pub open spec fn is_digit(c: char) -> bool {
    '0' <= c <= '9'
}

/// The number that the digit `c` stands for.
pub open spec fn digit_value(c: char) -> int {
    c as u32 - '0' as u32
}

/// The digits of `n`, most significant first.
pub open spec fn natural_text(n: nat) -> Seq<char>
    decreases n,
{
    if n < 10 {
        seq![digit_char(n as int)]
    } else {
        natural_text(n / 10).push(digit_char((n % 10) as int))
    }
}

/// The numeral for the integer `v`: a minus sign where it is negative, and
/// its digits.
pub open spec fn integer_text(v: int) -> Seq<char> {
    if v < 0 {
        seq!['-'] + natural_text((-v) as nat)
    } else {
        natural_text(v as nat)
    }
}

/// The number that the digits `cs` stand for, most significant first.
pub open spec fn digits_value(cs: Seq<char>) -> nat
    decreases cs.len(),
{
    if cs.len() == 0 {
        0
    } else {
        (10 * digits_value(cs.drop_last()) + digit_value(cs.last())) as nat
    }
}

/// The characters for the digits `ds`.
pub open spec fn digit_chars(ds: Seq<u8>) -> Seq<char> {
    Seq::new(ds.len(), |i: int| digit_char(ds[i] as int))
}

/// The numbers that the digits `cs` stand for.
pub open spec fn digit_values(cs: Seq<char>) -> Seq<u8> {
    Seq::new(cs.len(), |i: int| digit_value(cs[i]) as u8)
}

/// `n` zeros.
pub open spec fn zeros(n: nat) -> Seq<char> {
    Seq::new(n, |i: int| '0')
}

/// Number of zeros at the front of `ds`.
pub open spec fn leading_zeros(ds: Seq<u8>) -> nat
    decreases ds.len(),
{
    if ds.len() > 0 && ds[0] == 0 {
        1 + leading_zeros(ds.drop_first())
    } else {
        0
    }
}

/// Number of zeros at the back of `ds`.
pub open spec fn trailing_zeros(ds: Seq<u8>) -> nat
    decreases ds.len(),
{
    if ds.len() > 0 && ds.last() == 0 {
        1 + trailing_zeros(ds.drop_last())
    } else {
        0
    }
}

/// What a decimal literal holds: the number is the integer that `digits`
/// stand for, times ten to the power of `exponent`, negated where `negative`
/// is set.
pub ghost struct DecimalView {
    pub negative: bool,
    pub digits: Seq<u8>,
    pub exponent: int,
}

impl DecimalView {
    /// The literal is reduced: its digits are digits, the first and the last
    /// of them are not zero, zero has no digits and the exponent zero, and
    /// the exponent fits in 64 bits.
    pub open spec fn reduced(self) -> bool {
        &&& forall|i: int| 0 <= i < self.digits.len() ==> #[trigger] self.digits[i] <= 9
        &&& self.digits.len() > 0 ==> self.digits[0] != 0 && self.digits.last() != 0
        &&& self.digits.len() == 0 ==> self.exponent == 0
        &&& i64::MIN <= self.exponent <= i64::MAX
    }

    /// The digits and what follows them in the numeral for the literal,
    /// without its sign.
    pub open spec fn unsigned_text(self) -> Seq<char> {
        let count = self.digits.len() as int;
        if count == 0 {
            seq!['0', '.', '0']
        } else if self.exponent == 0 {
            digit_chars(self.digits) + seq!['.', '0']
        } else if self.exponent > 0 {
            digit_chars(self.digits) + seq!['e'] + natural_text(self.exponent as nat)
        } else if count > -self.exponent {
            digit_chars(self.digits.take(count + self.exponent)) + seq!['.'] + digit_chars(
                self.digits.skip(count + self.exponent),
            )
        } else {
            seq!['0', '.'] + zeros((-self.exponent - count) as nat) + digit_chars(self.digits)
        }
    }

    /// The numeral for the literal: a minus sign where it is negative; then
    /// its digits, with a point among them or zeros and a point before them
    /// where the exponent is negative, with `.0` after them where it is
    /// zero, and with `e` and the exponent after them where it is positive.
    pub open spec fn text(self) -> Seq<char> {
        if self.negative {
            seq!['-'] + self.unsigned_text()
        } else {
            self.unsigned_text()
        }
    }
}

/// The literal that a numeral with the digits `whole` before the point, the
/// digits `fraction` after it and the digits `power` after the `e` stands
/// for, or `None` where its exponent does not fit in 64 bits.
pub open spec fn decimal_of(
    negative: bool,
    whole: Seq<char>,
    fraction: Seq<char>,
    power: Seq<char>,
) -> Option<DecimalView> {
    let all = digit_values(whole + fraction);
    let lead = leading_zeros(all);
    let trail = trailing_zeros(all);
    let exponent = digits_value(power) - fraction.len() + trail;
    if lead == all.len() {
        Some(DecimalView { negative, digits: Seq::empty(), exponent: 0 })
    } else if i64::MIN <= exponent <= i64::MAX {
        Some(DecimalView { negative, digits: all.subrange(lead as int, all.len() - trail), exponent })
    } else {
        None
    }
}

/// The integer that a numeral with the digits `digits` stands for, negated
/// where `negative` is set, or `None` where it does not fit in 32 bits.
pub open spec fn integer_of(negative: bool, digits: Seq<char>) -> Option<i32> {
    let value = if negative {
        -digits_value(digits)
    } else {
        digits_value(digits) as int
    };
    if i32::MIN <= value <= i32::MAX {
        Some(value as i32)
    } else {
        None
    }
}

/// A decimal number as it was written.
#[derive(Debug, PartialEq)]
pub struct DecimalLiteral {
    negative: bool,
    digits: Vec<u8>,
    exponent: i64,
}

impl View for DecimalLiteral {
    type V = DecimalView;

    closed spec fn view(&self) -> DecimalView {
        DecimalView { negative: self.negative, digits: self.digits@, exponent: self.exponent as int }
    }
}

/// Appends the character `c` to `text`, by `String::push`.
#[verifier::external_body]
pub(crate) fn push_char(text: &mut String, c: char)
    ensures
        final(text)@ == old(text)@.push(c),
{
    text.push(c)
}

/// The character for the digit `d`.
pub fn digit_to_char(d: u8) -> (c: char)
    requires
        d <= 9,
    ensures
        c == digit_char(d as int),
        is_digit(c),
        digit_value(c) == d,
{
    match d {
        0 => '0',
        1 => '1',
        2 => '2',
        3 => '3',
        4 => '4',
        5 => '5',
        6 => '6',
        7 => '7',
        8 => '8',
        _ => '9',
    }
}

/// The number that the digit `c` stands for.
pub fn char_to_digit(c: char) -> (d: u8)
    requires
        is_digit(c),
    ensures
        d == digit_value(c),
        d <= 9,
        digit_char(d as int) == c,
{
    let code: u32 = c as u32;
    (code - 48) as u8
}

/// Appends the digits of `n` to `text`.
pub fn push_natural(text: &mut String, n: u64)
    ensures
        final(text)@ == old(text)@ + natural_text(n as nat),
    decreases n,
{
    if n >= 10 {
        push_natural(text, n / 10);
    }
    push_char(text, digit_to_char((n % 10) as u8));
    proof {
        if n >= 10 {
            assert(final(text)@ =~= old(text)@ + natural_text(n as nat));
        } else {
            assert(final(text)@ =~= old(text)@ + natural_text(n as nat));
        }
    }
}

/// The numeral for the integer `value`.
pub fn integer_numeral(value: i32) -> (text: String)
    ensures
        text@ == integer_text(value as int),
{
    let mut text = String::new();
    if value < 0 {
        push_char(&mut text, '-');
        push_natural(&mut text, (-(value as i64)) as u64);
        proof {
            assert(text@ =~= integer_text(value as int));
        }
    } else {
        push_natural(&mut text, value as u64);
        proof {
            assert(text@ =~= integer_text(value as int));
        }
    }
    text
}

/// A run of `n` zeros at the front of `ds`, followed by another digit or
/// the end, is all of its leading zeros.
pub proof fn lemma_leading_zeros(ds: Seq<u8>, n: int)
    requires
        0 <= n <= ds.len(),
        forall|i: int| 0 <= i < n ==> ds[i] == 0,
        n < ds.len() ==> ds[n] != 0,
    ensures
        leading_zeros(ds) == n,
    decreases n,
{
    if n > 0 {
        lemma_leading_zeros(ds.drop_first(), n - 1);
    }
}

/// A run of `n` zeros at the back of `ds`, preceded by another digit or the
/// start, is all of its trailing zeros.
pub proof fn lemma_trailing_zeros(ds: Seq<u8>, n: int)
    requires
        0 <= n <= ds.len(),
        forall|i: int| ds.len() - n <= i < ds.len() ==> ds[i] == 0,
        n < ds.len() ==> ds[ds.len() - n - 1] != 0,
    ensures
        trailing_zeros(ds) == n,
    decreases n,
{
    if n > 0 {
        lemma_trailing_zeros(ds.drop_last(), n - 1);
    }
}

/// The leading zeros of digits are zeros, and the digit after them is none.
pub proof fn lemma_leading_zeros_are(ds: Seq<u8>)
    ensures
        leading_zeros(ds) <= ds.len(),
        forall|i: int| 0 <= i < leading_zeros(ds) ==> ds[i] == 0,
        leading_zeros(ds) < ds.len() ==> ds[leading_zeros(ds) as int] != 0,
    decreases ds.len(),
{
    if ds.len() > 0 && ds[0] == 0 {
        let rest = ds.drop_first();
        lemma_leading_zeros_are(rest);
        assert forall|i: int| 0 <= i < leading_zeros(ds) implies ds[i] == 0 by {
            if i > 0 {
                assert(ds[i] == rest[i - 1]);
            }
        }
        if leading_zeros(ds) < ds.len() {
            assert(ds[leading_zeros(ds) as int] == rest[leading_zeros(rest) as int]);
        }
    }
}

/// The trailing zeros of digits are zeros, and the digit before them is
/// none.
pub proof fn lemma_trailing_zeros_are(ds: Seq<u8>)
    ensures
        trailing_zeros(ds) <= ds.len(),
        forall|i: int| ds.len() - trailing_zeros(ds) <= i < ds.len() ==> ds[i] == 0,
        trailing_zeros(ds) < ds.len() ==> ds[ds.len() - trailing_zeros(ds) - 1] != 0,
    decreases ds.len(),
{
    if ds.len() > 0 && ds.last() == 0 {
        let rest = ds.drop_last();
        lemma_trailing_zeros_are(rest);
        assert forall|i: int| ds.len() - trailing_zeros(ds) <= i < ds.len() implies ds[i] == 0 by {
            if i < ds.len() - 1 {
                assert(ds[i] == rest[i]);
            }
        }
        if trailing_zeros(ds) < ds.len() {
            assert(ds[ds.len() - trailing_zeros(ds) - 1] == rest[rest.len() - trailing_zeros(rest)
                - 1]);
        }
    }
}

/// The literal that the digits of a numeral stand for is reduced.
pub proof fn lemma_decimal_of_reduced(
    negative: bool,
    whole: Seq<char>,
    fraction: Seq<char>,
    power: Seq<char>,
)
    requires
        forall|i: int| 0 <= i < whole.len() ==> is_digit(#[trigger] whole[i]),
        forall|i: int| 0 <= i < fraction.len() ==> is_digit(#[trigger] fraction[i]),
    ensures
        decimal_of(negative, whole, fraction, power) matches Some(value) ==> value.reduced(),
{
    let all = digit_values(whole + fraction);
    lemma_leading_zeros_are(all);
    lemma_trailing_zeros_are(all);
    let lead = leading_zeros(all) as int;
    let trail = trailing_zeros(all) as int;
    assert forall|i: int| 0 <= i < all.len() implies #[trigger] all[i] <= 9 by {
        let c = (whole + fraction)[i];
        if i < whole.len() {
            assert(c == whole[i]);
        } else {
            assert(c == fraction[i - whole.len()]);
        }
    }
    if lead < all.len() {
        // a digit that is not zero stands before the trailing zeros
        assert(lead < all.len() - trail) by {
            if lead >= all.len() - trail {
                assert(all[lead] == 0);
            }
        }
        let digits = all.subrange(lead, all.len() - trail);
        assert(digits[0] == all[lead]);
        assert(digits.last() == all[all.len() - trail - 1]);
        assert forall|i: int| 0 <= i < digits.len() implies #[trigger] digits[i] <= 9 by {
            assert(digits[i] == all[lead + i]);
        }
    }
}

/// The number that digits stand for is at least the number that any of
/// their prefixes stands for.
pub proof fn lemma_digits_value_grows(cs: Seq<char>, k: int)
    requires
        0 <= k <= cs.len(),
        forall|i: int| 0 <= i < cs.len() ==> is_digit(#[trigger] cs[i]),
    ensures
        digits_value(cs.take(k)) <= digits_value(cs),
    decreases cs.len() - k,
{
    if k == cs.len() {
        assert(cs.take(k) =~= cs);
    } else {
        lemma_digits_value_grows(cs, k + 1);
        assert(cs.take(k + 1).drop_last() =~= cs.take(k));
    }
}

/// Appends the characters for the digits of `digits` from `from` up to `to`
/// to `text`.
fn push_digits(text: &mut String, digits: &Vec<u8>, from: usize, to: usize)
    requires
        from <= to <= digits.len(),
        forall|i: int| 0 <= i < digits.len() ==> #[trigger] digits[i] <= 9,
    ensures
        final(text)@ == old(text)@ + digit_chars(digits@.subrange(from as int, to as int)),
{
    let mut i: usize = from;
    proof {
        assert(text@ =~= old(text)@ + digit_chars(digits@.subrange(from as int, from as int)));
    }
    while i < to
        invariant
            from <= i <= to <= digits.len(),
            forall|i: int| 0 <= i < digits.len() ==> #[trigger] digits[i] <= 9,
            text@ == old(text)@ + digit_chars(digits@.subrange(from as int, i as int)),
        decreases to - i,
    {
        let ghost before = text@;
        push_char(text, digit_to_char(digits[i]));
        proof {
            assert(text@ =~= old(text)@ + digit_chars(digits@.subrange(from as int, i + 1)));
        }
        i += 1;
    }
}

/// The numbers that the digits `cs` stand for, appended to `values`.
fn push_values(values: &mut Vec<u8>, cs: &Vec<char>)
    requires
        forall|i: int| 0 <= i < cs.len() ==> is_digit(#[trigger] cs[i]),
    ensures
        final(values)@ == old(values)@ + digit_values(cs@),
{
    let mut i: usize = 0;
    proof {
        assert(values@ =~= old(values)@ + digit_values(cs@.take(0)));
    }
    while i < cs.len()
        invariant
            i <= cs.len(),
            forall|i: int| 0 <= i < cs.len() ==> is_digit(#[trigger] cs[i]),
            values@ == old(values)@ + digit_values(cs@.take(i as int)),
        decreases cs.len() - i,
    {
        values.push(char_to_digit(cs[i]));
        proof {
            assert(values@ =~= old(values)@ + digit_values(cs@.take(i + 1)));
        }
        i += 1;
    }
    proof {
        assert(cs@.take(cs.len() as int) =~= cs@);
    }
}

/// The number that the digits `cs` stand for, or `None` where it is greater
/// than `limit`.
fn number_of(cs: &Vec<char>, limit: u128) -> (number: Option<u128>)
    requires
        forall|i: int| 0 <= i < cs.len() ==> is_digit(#[trigger] cs[i]),
        limit <= 0x1_0000_0000_0000_0000_0000,
    ensures
        number is Some <==> digits_value(cs@) <= limit,
        number matches Some(n) ==> n == digits_value(cs@),
{
    let mut number: u128 = 0;
    let mut i: usize = 0;
    proof {
        assert(cs@.take(0) =~= Seq::<char>::empty());
    }
    while i < cs.len()
        invariant
            i <= cs.len(),
            forall|i: int| 0 <= i < cs.len() ==> is_digit(#[trigger] cs[i]),
            limit <= 0x1_0000_0000_0000_0000_0000,
            number == digits_value(cs@.take(i as int)),
            number <= limit,
        decreases cs.len() - i,
    {
        let digit = char_to_digit(cs[i]);
        proof {
            assert(cs@.take(i + 1).drop_last() =~= cs@.take(i as int));
            lemma_digits_value_grows(cs@, i + 1);
        }
        let next: u128 = number * 10 + digit as u128;
        if next > limit {
            return None;
        }
        number = next;
        i += 1;
    }
    proof {
        assert(cs@.take(cs.len() as int) =~= cs@);
    }
    Some(number)
}

/// The integer that a numeral with the digits `digits` stands for, negated
/// where `negative` is set, or `None` where it does not fit in 32 bits.
pub fn integer_from_digits(negative: bool, digits: &Vec<char>) -> (integer: Option<i32>)
    requires
        forall|i: int| 0 <= i < digits.len() ==> is_digit(#[trigger] digits[i]),
    ensures
        integer == integer_of(negative, digits@),
{
    match number_of(digits, 0x8000_0000) {
        None => None,
        Some(number) => {
            if negative {
                Some((-(number as i64)) as i32)
            } else if number <= 0x7FFF_FFFF {
                Some(number as i32)
            } else {
                None
            }
        },
    }
}

impl Clone for DecimalLiteral {
    fn clone(&self) -> (literal: DecimalLiteral)
        ensures
            literal@ == self@,
    {
        proof {
            use_type_invariant(self);
        }
        let digits = self.digits.clone();
        proof {
            assert(digits@ =~= self.digits@);
        }
        DecimalLiteral { negative: self.negative, digits, exponent: self.exponent }
    }
}

impl DecimalLiteral {
    /// Every literal is reduced.
    #[verifier::type_invariant]
    spec fn kept_reduced(self) -> bool {
        self@.reduced()
    }

    /// The sign of the literal: `true` for a minus sign.
    pub fn is_negative(&self) -> (negative: bool)
        ensures
            negative == self@.negative,
    {
        self.negative
    }

    /// The significant digits of the literal, most significant first.
    pub fn digits(&self) -> (digits: &Vec<u8>)
        ensures
            digits@ == self@.digits,
    {
        &self.digits
    }

    /// The power of ten that the digits of the literal are multiplied by.
    pub fn exponent(&self) -> (exponent: i64)
        ensures
            exponent == self@.exponent,
    {
        self.exponent
    }

    /// The literal with the given sign, digits and exponent, or `None`
    /// where they are not reduced.
    pub fn new(negative: bool, digits: Vec<u8>, exponent: i64) -> (literal: Option<DecimalLiteral>)
        ensures
            literal is Some <==> (DecimalView {
                negative,
                digits: digits@,
                exponent: exponent as int,
            }).reduced(),
            literal matches Some(l) ==> l@ == (DecimalView {
                negative,
                digits: digits@,
                exponent: exponent as int,
            }),
    {
        let count = digits.len();
        if count == 0 {
            if exponent != 0 {
                return None;
            }
        } else if digits[0] == 0 || digits[count - 1] == 0 {
            return None;
        }
        let mut i: usize = 0;
        while i < count
            invariant
                i <= count == digits.len(),
                forall|j: int| 0 <= j < i ==> #[trigger] digits[j] <= 9,
            decreases count - i,
        {
            if digits[i] > 9 {
                return None;
            }
            i += 1;
        }
        Some(DecimalLiteral { negative, digits, exponent })
    }

    /// The literal that a numeral with the digits `whole` before the point,
    /// the digits `fraction` after it and the digits `power` after the `e`
    /// stands for, or `None` where its exponent does not fit in 64 bits.
    pub fn from_digits(
        negative: bool,
        whole: &Vec<char>,
        fraction: &Vec<char>,
        power: &Vec<char>,
    ) -> (literal: Option<DecimalLiteral>)
        requires
            forall|i: int| 0 <= i < whole.len() ==> is_digit(#[trigger] whole[i]),
            forall|i: int| 0 <= i < fraction.len() ==> is_digit(#[trigger] fraction[i]),
            forall|i: int| 0 <= i < power.len() ==> is_digit(#[trigger] power[i]),
        ensures
            literal is Some <==> decimal_of(negative, whole@, fraction@, power@) is Some,
            literal matches Some(l) ==> Some(l@) == decimal_of(
                negative,
                whole@,
                fraction@,
                power@,
            ) && l@.reduced(),
    {
        let mut all: Vec<u8> = Vec::new();
        push_values(&mut all, whole);
        push_values(&mut all, fraction);
        proof {
            assert(all@ =~= digit_values(whole@ + fraction@));
        }
        let count = all.len();
        let mut lead: usize = 0;
        while lead < count && all[lead] == 0
            invariant
                lead <= count == all.len(),
                forall|i: int| 0 <= i < lead ==> all[i] == 0,
            decreases count - lead,
        {
            lead += 1;
        }
        proof {
            lemma_leading_zeros(all@, lead as int);
        }
        if lead == count {
            return Some(DecimalLiteral { negative, digits: Vec::new(), exponent: 0 });
        }
        let mut trail: usize = 0;
        while trail < count && all[count - trail - 1] == 0
            invariant
                trail <= count == all.len(),
                forall|i: int| count - trail <= i < count ==> all[i] == 0,
            decreases count - trail,
        {
            trail += 1;
        }
        proof {
            lemma_trailing_zeros(all@, trail as int);
        }
        let scale = match number_of(power, 0x1_0000_0000_0000_0000_0000) {
            None => {
                return None;
            },
            Some(scale) => scale,
        };
        let exponent: i128 = scale as i128 - fraction.len() as i128 + trail as i128;
        if exponent > 0x7FFF_FFFF_FFFF_FFFF || exponent < -0x8000_0000_0000_0000 {
            return None;
        }
        let mut digits: Vec<u8> = Vec::new();
        let mut i: usize = lead;
        while i < count - trail
            invariant
                lead <= i <= count - trail,
                count == all.len(),
                digits@ == all@.subrange(lead as int, i as int),
            decreases count - trail - i,
        {
            digits.push(all[i]);
            proof {
                assert(digits@ =~= all@.subrange(lead as int, i + 1));
            }
            i += 1;
        }
        Some(DecimalLiteral { negative, digits, exponent: exponent as i64 })
    }

    /// The numeral for the literal.
    pub fn numeral(&self) -> (text: String)
        ensures
            text@ == self@.text(),
    {
        proof {
            use_type_invariant(self);
        }
        let mut text = String::new();
        if self.negative {
            push_char(&mut text, '-');
        }
        let ghost sign = text@;
        let count = self.digits.len();
        if count == 0 {
            push_char(&mut text, '0');
            push_char(&mut text, '.');
            push_char(&mut text, '0');
        } else if self.exponent == 0 {
            push_digits(&mut text, &self.digits, 0, count);
            push_char(&mut text, '.');
            push_char(&mut text, '0');
            proof {
                assert(self.digits@.subrange(0, count as int) =~= self.digits@);
            }
        } else if self.exponent > 0 {
            push_digits(&mut text, &self.digits, 0, count);
            push_char(&mut text, 'e');
            push_natural(&mut text, self.exponent as u64);
            proof {
                assert(self.digits@.subrange(0, count as int) =~= self.digits@);
            }
        } else {
            let shift: u64 = ((-1 - self.exponent) as u64) + 1;
            if count as u64 > shift {
                let split: usize = count - shift as usize;
                push_digits(&mut text, &self.digits, 0, split);
                push_char(&mut text, '.');
                push_digits(&mut text, &self.digits, split, count);
            } else {
                push_char(&mut text, '0');
                push_char(&mut text, '.');
                let padding: u64 = shift - count as u64;
                let mut i: u64 = 0;
                let ghost start = text@;
                proof {
                    assert(text@ =~= start + zeros(0));
                }
                while i < padding
                    invariant
                        i <= padding,
                        text@ == start + zeros(i as nat),
                    decreases padding - i,
                {
                    push_char(&mut text, '0');
                    proof {
                        assert(text@ =~= start + zeros((i + 1) as nat));
                    }
                    i += 1;
                }
                push_digits(&mut text, &self.digits, 0, count);
                proof {
                    assert(self.digits@.subrange(0, count as int) =~= self.digits@);
                }
            }
        }
        proof {
            assert(text@ =~= sign + self@.unsigned_text());
            assert(text@ =~= self@.text());
        }
        text
    }
}

} // verus!
