//! What the grammar reads in the text of a number.
//!
//! The numeral of an integer reads as that integer, and the numeral of a
//! decimal literal as that literal, wherever the numeral stands in a text
//! and is followed by a blank, a closing bracket or the end of the text.

use vstd::prelude::*;
use crate::expression::grammar::{
    at, lemma_run_end_unique, number, run_end, span, spaces, CharClass, Parsed,
};
use crate::expression::node::NodeView;
use crate::expression::numeral::{
    decimal_of, digit_char, digit_chars, digit_value, digit_values, digits_value, integer_of, integer_text, is_digit, lemma_leading_zeros, lemma_trailing_zeros, natural_text, zeros, DecimalView,
};
use crate::scan::context::ScanPosition;

verus! {

/// The text `x` stands in `rest` from index `k` on.
#[verifier::opaque]
pub open spec fn holds(rest: Seq<char>, k: int, x: Seq<char>) -> bool {
    &&& 0 <= k
    &&& k + x.len() <= rest.len()
    &&& rest.subrange(k, k + x.len()) == x
}

/// At index `j` the text ends, or a blank or a closing bracket stands.
pub open spec fn stops(rest: Seq<char>, j: int) -> bool {
    j == rest.len() || (0 <= j < rest.len() && (rest[j] == ' ' || rest[j] == ')'))
}

/// Every character of `cs` is a digit.
pub open spec fn all_digits(cs: Seq<char>) -> bool {
    forall|i: int| 0 <= i < cs.len() ==> is_digit(#[trigger] cs[i])
}

/// A text that stands in `rest` gives its characters there.
pub proof fn lemma_holds(rest: Seq<char>, k: int, x: Seq<char>)
    requires
        holds(rest, k, x),
    ensures
        0 <= k,
        k + x.len() <= rest.len(),
        forall|i: int| 0 <= i < x.len() ==> rest[k + i] == #[trigger] x[i],
{
    reveal(holds);
    assert forall|i: int| 0 <= i < x.len() implies rest[k + i] == #[trigger] x[i] by {
        assert(rest.subrange(k, k + x.len())[i] == rest[k + i]);
    }
}

/// A text that stands in `rest` as the concatenation of two stands there
/// as the first, followed by the second.
pub proof fn lemma_holds_split(rest: Seq<char>, k: int, a: Seq<char>, b: Seq<char>)
    requires
        holds(rest, k, a + b),
    ensures
        holds(rest, k, a),
        holds(rest, k + a.len(), b),
{
    reveal(holds);
    lemma_holds(rest, k, a + b);
    assert(rest.subrange(k, k + a.len()) =~= a) by {
        assert forall|i: int| 0 <= i < a.len() implies rest[k + i] == a[i] by {
            assert((a + b)[i] == a[i]);
        }
    }
    assert(rest.subrange(k + a.len(), k + a.len() + b.len()) =~= b) by {
        assert forall|i: int| 0 <= i < b.len() implies rest[k + a.len() + i] == b[i] by {
            assert((a + b)[a.len() + i] == b[i]);
        }
    }
}

/// No whitespace is skipped at a character that is none.
pub proof fn lemma_no_spaces(rest: Seq<char>, k: int)
    requires
        0 <= k <= rest.len(),
        k < rest.len() ==> !CharClass::Space.accepts(rest[k]),
    ensures
        spaces(rest, k) == k,
{
    reveal(holds);
    lemma_run_end_unique(rest, k, CharClass::Space, k);
}

/// Digits that stand in `rest` before a character that is no digit are
/// the run of digits there.
pub proof fn lemma_digit_run(rest: Seq<char>, k: int, cs: Seq<char>)
    requires
        holds(rest, k, cs),
        all_digits(cs),
        k + cs.len() < rest.len() ==> !is_digit(rest[k + cs.len()]),
    ensures
        run_end(rest, k, CharClass::Digit) == k + cs.len(),
{
    reveal(holds);
    lemma_holds(rest, k, cs);
    assert forall|i: int| k <= i < k + cs.len() implies CharClass::Digit.accepts(
        #[trigger] rest[i],
    ) by {
        assert(rest[k + (i - k)] == cs[i - k]);
    }
    lemma_run_end_unique(rest, k, CharClass::Digit, k + cs.len());
}

/// The digits of a number are digits, and stand for the number.
pub proof fn lemma_natural_text(n: nat)
    ensures
        all_digits(natural_text(n)),
        natural_text(n).len() >= 1,
        digits_value(natural_text(n)) == n,
    decreases n,
{
    reveal(holds);
    if n < 10 {
        let cs = natural_text(n);
        assert(cs.drop_last() =~= Seq::<char>::empty());
        assert(digits_value(cs.drop_last()) == 0);
        assert(digit_value(digit_char(n as int)) == n);
    } else {
        lemma_natural_text(n / 10);
        let cs = natural_text(n);
        assert(cs.drop_last() =~= natural_text(n / 10));
        assert(digit_value(digit_char((n % 10) as int)) == n % 10);
        assert forall|i: int| 0 <= i < cs.len() implies is_digit(#[trigger] cs[i]) by {
            if i < cs.len() - 1 {
                assert(cs[i] == natural_text(n / 10)[i]);
            }
        }
    }
}

/// The characters for digits are digits, and stand for the digits.
pub proof fn lemma_digit_chars(ds: Seq<u8>)
    requires
        forall|i: int| 0 <= i < ds.len() ==> #[trigger] ds[i] <= 9,
    ensures
        all_digits(digit_chars(ds)),
        digit_values(digit_chars(ds)) == ds,
{
    reveal(holds);
    assert forall|i: int| 0 <= i < ds.len() implies is_digit(#[trigger] digit_chars(ds)[i])
        && digit_value(digit_chars(ds)[i]) == ds[i] by {
        let d = ds[i];
        assert(digit_value(digit_char(d as int)) == d);
    }
    assert(digit_values(digit_chars(ds)) =~= ds);
}

/// The numeral with the given parts: a minus sign where `negative` is set,
/// the digits `whole`, a point and the digits `fraction` where `pointed`
/// is set, and `e` and the digits `power` where `marked` is set.
pub open spec fn numeral(
    negative: bool,
    whole: Seq<char>,
    pointed: bool,
    fraction: Seq<char>,
    marked: bool,
    power: Seq<char>,
) -> Seq<char> {
    (if negative {
        seq!['-']
    } else {
        Seq::<char>::empty()
    }) + whole + (if pointed {
        seq!['.'] + fraction
    } else {
        Seq::<char>::empty()
    }) + (if marked {
        seq!['e'] + power
    } else {
        Seq::<char>::empty()
    })
}

/// What a numeral with the given parts reads as, where it stands from
/// index `k` up to index `end`.
pub open spec fn numeral_read(
    rest: Seq<char>,
    origin: ScanPosition,
    k: int,
    end: int,
    negative: bool,
    whole: Seq<char>,
    pointed: bool,
    fraction: Seq<char>,
    marked: bool,
    power: Seq<char>,
) -> Parsed {
    let position = span(rest, origin, k, end);
    if pointed || marked {
        match decimal_of(negative, whole, fraction, power) {
            Some(value) => Ok((end, NodeView::Decimal { position, value })),
            None => Err(crate::expression::error::ParsingError::Number(position)),
        }
    } else {
        match integer_of(negative, whole) {
            Some(value) => Ok((end, NodeView::Integer { position, value })),
            None => Err(crate::expression::error::ParsingError::Number(position)),
        }
    }
}

/// A numeral that stands in a text before a blank, a closing bracket or the
/// end reads as the number that its parts stand for.
pub proof fn lemma_numeral_reads(
    rest: Seq<char>,
    origin: ScanPosition,
    k: int,
    negative: bool,
    whole: Seq<char>,
    pointed: bool,
    fraction: Seq<char>,
    marked: bool,
    power: Seq<char>,
)
    requires
        holds(rest, k, numeral(negative, whole, pointed, fraction, marked, power)),
        stops(rest, k + numeral(negative, whole, pointed, fraction, marked, power).len()),
        all_digits(whole),
        whole.len() >= 1,
        all_digits(fraction),
        pointed ==> fraction.len() >= 1,
        !pointed ==> fraction.len() == 0,
        all_digits(power),
        marked ==> power.len() >= 1,
        !marked ==> power.len() == 0,
    ensures
        number(rest, origin, k) == numeral_read(
            rest,
            origin,
            k,
            k + numeral(negative, whole, pointed, fraction, marked, power).len(),
            negative,
            whole,
            pointed,
            fraction,
            marked,
            power,
        ),
{
    reveal(holds);
    let x = numeral(negative, whole, pointed, fraction, marked, power);
    let sign = if negative {
        seq!['-']
    } else {
        Seq::<char>::empty()
    };
    let tail_point = if pointed {
        seq!['.'] + fraction
    } else {
        Seq::<char>::empty()
    };
    let tail_mark = if marked {
        seq!['e'] + power
    } else {
        Seq::<char>::empty()
    };
    let end = k + x.len();
    assert(x == sign + whole + tail_point + tail_mark);
    lemma_holds_split(rest, k, sign + whole + tail_point, tail_mark);
    lemma_holds_split(rest, k, sign + whole, tail_point);
    lemma_holds_split(rest, k, sign, whole);
    let whole_start = k + sign.len();
    let whole_end = whole_start + whole.len();
    let fraction_end = whole_end + tail_point.len();
    assert(end == fraction_end + tail_mark.len());
    lemma_holds(rest, whole_start, whole);
    lemma_holds(rest, k, sign);
    lemma_holds(rest, whole_end, tail_point);
    lemma_holds(rest, fraction_end, tail_mark);
    // the sign
    if negative {
        assert(rest[k + 0] == sign[0]);
    } else {
        assert(rest[whole_start + 0] == whole[0]);
        assert(is_digit(whole[0]));
    }
    lemma_no_spaces(rest, k);
    assert(at(rest, k, '-') == negative);
    // the digits before the point
    if pointed {
        assert(rest[whole_end + 0] == tail_point[0]);
    } else if marked {
        assert(rest[fraction_end + 0] == tail_mark[0]);
    }
    lemma_digit_run(rest, whole_start, whole);
    assert(at(rest, whole_end, '.') == pointed);
    // the digits after the point
    let fraction_start = if pointed {
        whole_end + 1
    } else {
        whole_end
    };
    if pointed {
        lemma_holds_split(rest, whole_end, seq!['.'], fraction);
        if marked {
            assert(rest[fraction_end + 0] == tail_mark[0]);
        }
        lemma_digit_run(rest, fraction_start, fraction);
        assert(rest.subrange(fraction_start, fraction_end) == fraction);
    } else {
        assert(rest.subrange(fraction_start, fraction_end) =~= fraction);
    }
    // the digits after the mark
    if marked {
        assert(rest[fraction_end + 0] == tail_mark[0]);
    }
    assert(at(rest, fraction_end, 'e') == marked);
    assert(marked || !at(rest, fraction_end, 'E'));
    let power_start = if marked {
        fraction_end + 1
    } else {
        fraction_end
    };
    if marked {
        lemma_holds_split(rest, fraction_end, seq!['e'], power);
        lemma_digit_run(rest, power_start, power);
        assert(rest.subrange(power_start, end) == power);
    } else {
        assert(rest.subrange(power_start, end) =~= power);
    }
    assert(rest.subrange(whole_start, whole_end) == whole);
}

/// The digits of a literal between zeros: where the digits of a numeral
/// are those of a reduced literal with `lead` zeros before them and
/// `trail` zeros after them, and the exponents agree, the numeral stands
/// for the literal.
pub proof fn lemma_decimal_of(
    d: DecimalView,
    whole: Seq<char>,
    fraction: Seq<char>,
    power: Seq<char>,
    lead: int,
    trail: int,
)
    requires
        d.reduced(),
        d.digits.len() > 0,
        0 <= lead,
        0 <= trail,
        digit_values(whole + fraction).len() == lead + d.digits.len() + trail,
        forall|i: int| 0 <= i < lead ==> digit_values(whole + fraction)[i] == 0,
        forall|i: int|
            0 <= i < d.digits.len() ==> digit_values(whole + fraction)[lead + i] == d.digits[i],
        forall|i: int|
            lead + d.digits.len() <= i < lead + d.digits.len() + trail ==> digit_values(
                whole + fraction,
            )[i] == 0,
        digits_value(power) - fraction.len() + trail == d.exponent,
    ensures
        decimal_of(d.negative, whole, fraction, power) == Some(d),
{
    reveal(holds);
    let all = digit_values(whole + fraction);
    let count = d.digits.len() as int;
    assert(all[lead + 0] == d.digits[0]);
    assert(all[lead + (count - 1)] == d.digits[count - 1]);
    lemma_leading_zeros(all, lead);
    lemma_trailing_zeros(all, trail);
    assert(all.subrange(lead, all.len() - trail) =~= d.digits);
}

/// What the numeral of a decimal literal reads as.
pub open spec fn decimal_read(d: DecimalView, rest: Seq<char>, origin: ScanPosition, k: int) -> Parsed {
    Ok(
        (
            k + d.text().len(),
            NodeView::Decimal { position: span(rest, origin, k, k + d.text().len()), value: d },
        ),
    )
}

/// The numeral of zero reads as zero.
proof fn lemma_decimal_zero(d: DecimalView, rest: Seq<char>, origin: ScanPosition, k: int)
    requires
        d.reduced(),
        d.digits.len() == 0,
        holds(rest, k, d.text()),
        stops(rest, k + d.text().len()),
    ensures
        number(rest, origin, k) == decimal_read(d, rest, origin, k),
{
    let none = Seq::<char>::empty();
    let zero = seq!['0'];
    assert(all_digits(zero));
    assert(all_digits(none));
    let x = numeral(d.negative, zero, true, zero, false, none);
    assert(x =~= d.text());
    lemma_numeral_reads(rest, origin, k, d.negative, zero, true, zero, false, none);
    let all = digit_values(zero + zero);
    assert(all.len() == 2);
    assert(digit_value('0') == 0);
    lemma_leading_zeros(all, 2);
    assert(d.digits =~= Seq::<u8>::empty());
    assert(decimal_of(d.negative, zero, zero, none) == Some(d));
}

/// The numeral of a literal with the exponent zero reads as the literal.
proof fn lemma_decimal_whole(d: DecimalView, rest: Seq<char>, origin: ScanPosition, k: int)
    requires
        d.reduced(),
        d.digits.len() > 0,
        d.exponent == 0,
        holds(rest, k, d.text()),
        stops(rest, k + d.text().len()),
    ensures
        number(rest, origin, k) == decimal_read(d, rest, origin, k),
{
    let count = d.digits.len() as int;
    let chars = digit_chars(d.digits);
    lemma_digit_chars(d.digits);
    let none = Seq::<char>::empty();
    let zero = seq!['0'];
    assert(all_digits(zero));
    assert(all_digits(none));
    let x = numeral(d.negative, chars, true, zero, false, none);
    assert(x =~= d.text());
    lemma_numeral_reads(rest, origin, k, d.negative, chars, true, zero, false, none);
    assert(digit_value('0') == 0);
    assert(digits_value(none) == 0);
    assert forall|i: int| 0 <= i < count implies digit_values(chars + zero)[0 + i] == d.digits[i] by {
        assert((chars + zero)[i] == chars[i]);
    }
    lemma_decimal_of(d, chars, zero, none, 0, 1);
}

/// The numeral of a literal with a positive exponent reads as the literal.
proof fn lemma_decimal_power(d: DecimalView, rest: Seq<char>, origin: ScanPosition, k: int)
    requires
        d.reduced(),
        d.digits.len() > 0,
        d.exponent > 0,
        holds(rest, k, d.text()),
        stops(rest, k + d.text().len()),
    ensures
        number(rest, origin, k) == decimal_read(d, rest, origin, k),
{
    let chars = digit_chars(d.digits);
    lemma_digit_chars(d.digits);
    let none = Seq::<char>::empty();
    assert(all_digits(none));
    let power = natural_text(d.exponent as nat);
    lemma_natural_text(d.exponent as nat);
    let x = numeral(d.negative, chars, false, none, true, power);
    assert(x =~= d.text());
    lemma_numeral_reads(rest, origin, k, d.negative, chars, false, none, true, power);
    assert(chars + none =~= chars);
    lemma_decimal_of(d, chars, none, power, 0, 0);
}

/// The numeral of a literal with the point among its digits reads as the
/// literal.
proof fn lemma_decimal_split(d: DecimalView, rest: Seq<char>, origin: ScanPosition, k: int)
    requires
        d.reduced(),
        d.exponent < 0,
        d.digits.len() > -d.exponent,
        holds(rest, k, d.text()),
        stops(rest, k + d.text().len()),
    ensures
        number(rest, origin, k) == decimal_read(d, rest, origin, k),
{
    let count = d.digits.len() as int;
    let chars = digit_chars(d.digits);
    lemma_digit_chars(d.digits);
    let none = Seq::<char>::empty();
    assert(all_digits(none));
    let split = count + d.exponent;
    let front = digit_chars(d.digits.take(split));
    let back = digit_chars(d.digits.skip(split));
    lemma_digit_chars(d.digits.take(split));
    lemma_digit_chars(d.digits.skip(split));
    let x = numeral(d.negative, front, true, back, false, none);
    assert(x =~= d.text());
    lemma_numeral_reads(rest, origin, k, d.negative, front, true, back, false, none);
    assert(front + back =~= chars);
    assert(digits_value(none) == 0);
    lemma_decimal_of(d, front, back, none, 0, 0);
}

/// The numeral of a literal with the point before its digits reads as the
/// literal.
proof fn lemma_decimal_padded(d: DecimalView, rest: Seq<char>, origin: ScanPosition, k: int)
    requires
        d.reduced(),
        d.exponent < 0,
        0 < d.digits.len() <= -d.exponent,
        holds(rest, k, d.text()),
        stops(rest, k + d.text().len()),
    ensures
        number(rest, origin, k) == decimal_read(d, rest, origin, k),
{
    let count = d.digits.len() as int;
    let chars = digit_chars(d.digits);
    lemma_digit_chars(d.digits);
    let none = Seq::<char>::empty();
    let zero = seq!['0'];
    assert(all_digits(zero));
    assert(all_digits(none));
    let padding = -d.exponent - count;
    let fraction = zeros(padding as nat) + chars;
    assert(all_digits(fraction)) by {
        assert forall|i: int| 0 <= i < fraction.len() implies is_digit(#[trigger] fraction[i]) by {
            if i >= padding {
                assert(fraction[i] == chars[i - padding]);
            }
        }
    }
    let x = numeral(d.negative, zero, true, fraction, false, none);
    assert(x =~= d.text());
    lemma_numeral_reads(rest, origin, k, d.negative, zero, true, fraction, false, none);
    assert(digit_value('0') == 0);
    assert(digits_value(none) == 0);
    let all = digit_values(zero + fraction);
    assert forall|i: int| 0 <= i < 1 + padding implies all[i] == 0 by {
        if i > 0 {
            assert((zero + fraction)[i] == fraction[i - 1]);
        }
    }
    assert forall|i: int| 0 <= i < count implies all[1 + padding + i] == d.digits[i] by {
        assert((zero + fraction)[1 + padding + i] == chars[i]);
    }
    lemma_decimal_of(d, zero, fraction, none, 1 + padding, 0);
}

/// The numeral of a decimal literal reads as the literal.
pub proof fn lemma_decimal_reads(d: DecimalView, rest: Seq<char>, origin: ScanPosition, k: int)
    requires
        d.reduced(),
        holds(rest, k, d.text()),
        stops(rest, k + d.text().len()),
    ensures
        number(rest, origin, k) == decimal_read(d, rest, origin, k),
{
    if d.digits.len() == 0 {
        lemma_decimal_zero(d, rest, origin, k);
    } else if d.exponent == 0 {
        lemma_decimal_whole(d, rest, origin, k);
    } else if d.exponent > 0 {
        lemma_decimal_power(d, rest, origin, k);
    } else if d.digits.len() > -d.exponent {
        lemma_decimal_split(d, rest, origin, k);
    } else {
        lemma_decimal_padded(d, rest, origin, k);
    }
}

/// The numeral of an integer reads as the integer.
pub proof fn lemma_integer_reads(v: i32, rest: Seq<char>, origin: ScanPosition, k: int)
    requires
        holds(rest, k, integer_text(v as int)),
        stops(rest, k + integer_text(v as int).len()),
    ensures
        number(rest, origin, k) == Ok::<(int, NodeView), crate::expression::error::ParsingError>(
            (
                k + integer_text(v as int).len(),
                NodeView::Integer {
                    position: span(rest, origin, k, k + integer_text(v as int).len()),
                    value: v,
                },
            ),
        ),
{
    reveal(holds);
    let magnitude: nat = if v < 0 {
        (-v) as nat
    } else {
        v as nat
    };
    let digits = natural_text(magnitude);
    let none = Seq::<char>::empty();
    lemma_natural_text(magnitude);
    assert(all_digits(none));
    assert(numeral(v < 0, digits, false, none, false, none) =~= integer_text(v as int));
    lemma_numeral_reads(rest, origin, k, v < 0, digits, false, none, false, none);
    assert(integer_of(v < 0, digits) == Some(v));
}

} // verus!
