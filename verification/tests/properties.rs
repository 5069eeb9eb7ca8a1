use expression_calculator::collection::link_list::LinkList;
use expression_calculator::expression::error::ParsingError;
use expression_calculator::expression::format::format_fully_parenthesized;
use expression_calculator::expression::node::{Evaluate, ExpressionNode, Position};
use expression_calculator::expression::numeral::{integer_numeral, DecimalLiteral};
use expression_calculator::expression::parse::{parse, parse_expression};
use expression_calculator::expression::position::ParsePosition;
use expression_calculator::expression::value::{
    DecimalArithmetic, DecimalOperator, DecimalType, ExpressionValue, Power, SignType,
};
use expression_calculator::scan::context::{
    beginning, scan_literal, scan_n_chars, scan_one_or_more_chars, scan_zero_or_more_chars,
    ScanContext, ScanPosition,
};
use expression_calculator::scan::scanner::scan_any;

type ScannerFn = fn(&str, ScanContext) -> ScanContext;

fn arithmetic() -> DecimalArithmetic<
    impl Fn(&str) -> DecimalType,
    impl Fn(DecimalOperator, DecimalType, DecimalType) -> DecimalType,
> {
    DecimalArithmetic {
        read: |text: &str| DecimalType::from_bits(text.parse::<f64>().unwrap().to_bits()),
        apply: |operator: DecimalOperator, left: DecimalType, right: DecimalType| {
            let a = f64::from_bits(left.to_bits());
            let b = f64::from_bits(right.to_bits());
            let result = match operator {
                DecimalOperator::Add => a + b,
                DecimalOperator::Subtract => a - b,
                DecimalOperator::Multiply => a * b,
                DecimalOperator::Divide => a / b,
                DecimalOperator::Power => a.powf(b),
            };
            DecimalType::from_bits(result.to_bits())
        },
    }
}

fn decimal(value: f64) -> ExpressionValue {
    ExpressionValue::Decimal { value: DecimalType::from_bits(value.to_bits()) }
}

fn integer(value: i32) -> ExpressionValue {
    ExpressionValue::Integer { value }
}

fn evaluate(text: &str) -> ExpressionValue {
    let (_, node) = parse(text, beginning()).unwrap();
    node.evaluate(&arithmetic())
}

fn span(from: usize, to: usize) -> ParsePosition {
    ParsePosition {
        start: ScanPosition::new(from, from, 0, 0, 0),
        end: ScanPosition::new(to, to, 0, 0, 0),
    }
}

#[test]
fn empty_input_is_the_end_of_the_input() {
    assert_eq!(parse("", beginning()), Err(ParsingError::EndOfInput(span(0, 0))));
}

#[test]
fn whitespace_alone_is_the_end_of_the_input() {
    assert_eq!(parse("   ", beginning()), Err(ParsingError::EndOfInput(span(3, 3))));
    assert!(matches!(parse(" \t\r\n ", beginning()), Err(ParsingError::EndOfInput(_))));
}

#[test]
fn a_missing_operand_is_the_end_of_the_input() {
    assert_eq!(parse("1 + ", beginning()), Err(ParsingError::EndOfInput(span(4, 4))));
    assert_eq!(parse("1 +", beginning()), Err(ParsingError::EndOfInput(span(3, 3))));
}

#[test]
fn junk_for_an_operand_is_a_number_error() {
    assert_eq!(parse("1 + x", beginning()), Err(ParsingError::Number(span(4, 4))));
    assert_eq!(parse("1 + -", beginning()), Err(ParsingError::EndOfInput(span(4, 5))));
    assert_eq!(parse("1 + -x", beginning()), Err(ParsingError::Number(span(4, 5))));
}

#[test]
fn trailing_garbage_is_extra_input() {
    assert_eq!(parse("1 + 2 x y", beginning()), Err(ParsingError::ExtraInput(span(6, 9))));
    assert_eq!(parse("1 2", beginning()), Err(ParsingError::ExtraInput(span(2, 3))));
    assert_eq!(parse("(1))", beginning()), Err(ParsingError::ExtraInput(span(3, 4))));
}

#[test]
fn a_missing_bracket_is_an_error() {
    assert_eq!(parse("(1 + 2", beginning()), Err(ParsingError::EndOfInput(span(0, 6))));
    assert_eq!(parse("(1 + 2 3", beginning()), Err(ParsingError::Number(span(0, 7))));
}

#[test]
fn missing_digits_are_an_error() {
    assert_eq!(parse("1.", beginning()), Err(ParsingError::EndOfInput(span(0, 2))));
    assert_eq!(parse("1.x", beginning()), Err(ParsingError::Number(span(0, 2))));
    assert_eq!(parse("1e", beginning()), Err(ParsingError::EndOfInput(span(0, 2))));
    assert_eq!(parse("1e-3", beginning()), Err(ParsingError::Number(span(0, 2))));
}

#[test]
fn an_integer_out_of_range_is_a_number_error() {
    assert_eq!(parse("2147483648", beginning()), Err(ParsingError::Number(span(0, 10))));
    assert_eq!(evaluate("2147483647"), integer(2147483647));
    assert_eq!(evaluate("-2147483648"), integer(-2147483648));
    assert_eq!(parse("-2147483649", beginning()), Err(ParsingError::Number(span(0, 11))));
    assert_eq!(evaluate("0000000000000000001"), integer(1));
}

#[test]
fn a_context_that_is_not_live_is_refused() {
    let beyond = ScanPosition::new(9, 9, 0, 0, 0);
    assert_eq!(
        parse("1 + 2", (true, beyond)),
        Err(ParsingError::EndOfInput(ParsePosition { start: beyond, end: beyond }))
    );
    let inside = ScanPosition::new(2, 2, 0, 0, 0);
    assert_eq!(
        parse("1 + 2", (false, inside)),
        Err(ParsingError::Number(ParsePosition { start: inside, end: inside }))
    );
}

#[test]
fn parse_returns_the_context_after_the_expression() {
    let (context, node) = parse(" 1 + 2  ", beginning()).unwrap();
    assert_eq!(context, (true, ScanPosition::new(6, 6, 0, 0, 0)));
    assert_eq!(node.position(), span(1, 6));
}

#[test]
fn positions_count_lines_and_wide_characters() {
    let (context, node) = parse("1\n ×\n2", beginning()).unwrap();
    assert_eq!(context, (true, ScanPosition::new(7, 6, 2, 6, 5)));
    match node {
        ExpressionNode::Product { operands, .. } => {
            assert_eq!(operands.len(), 2);
            assert_eq!(
                operands[1].position(),
                ParsePosition {
                    start: ScanPosition::new(6, 5, 2, 6, 5),
                    end: ScanPosition::new(7, 6, 2, 6, 5),
                }
            );
        }
        other => panic!("not a product: {:?}", other),
    }
}

#[test]
fn values_of_expressions() {
    assert_eq!(evaluate("1234"), integer(1234));
    assert_eq!(evaluate("-1234.0"), decimal(-1234.0));
    assert_eq!(evaluate("1 + 2 + 3"), integer(6));
    assert_eq!(evaluate("1 - 2 - 3"), integer(-4));
    assert_eq!(evaluate("3 / 0 / 1"), ExpressionValue::NaN);
    assert_eq!(evaluate("2.0 ^ -1"), decimal(0.5));
    assert_eq!(
        evaluate("(((10 + 5) * -6) - -20 / -2 * 3 + -((5*2)^2) - (-5 * -2 * 5))"),
        integer(-270)
    );
}

#[test]
fn operators_bind_in_the_order_of_the_grammar() {
    assert_eq!(evaluate("1 + 2 * 3"), integer(7));
    assert_eq!(evaluate("2 * 3 - 1 * 4"), integer(2));
    assert_eq!(evaluate("8 / 2 * 3"), integer(12));
    assert_eq!(evaluate("2 * 8 / 4"), integer(4));
    assert_eq!(evaluate("1 - 6 / 3"), integer(-1));
    assert_eq!(evaluate("2 ^ 3 / 4"), integer(2));
    assert_eq!(evaluate("6 ÷ 3 × 2"), integer(4));
}

#[test]
fn integer_arithmetic_wraps_and_truncates() {
    assert_eq!(evaluate("2147483647 + 1"), integer(-2147483648));
    assert_eq!(evaluate("-2147483648 - 1"), integer(2147483647));
    assert_eq!(evaluate("65536 * 65536"), integer(0));
    assert_eq!(evaluate("-2147483648 / -1"), integer(-2147483648));
    assert_eq!(evaluate("-(-2147483648)"), integer(-2147483648));
    assert_eq!(evaluate("7 / 2"), integer(3));
    assert_eq!(evaluate("-7 / 2"), integer(-3));
    assert_eq!(evaluate("7 / -2"), integer(-3));
    assert_eq!(evaluate("-7 / -2"), integer(3));
}

#[test]
fn integer_powers() {
    assert_eq!(Power::power(3, 2), 9);
    assert_eq!(Power::power(3, 0), 1);
    assert_eq!(Power::power(0, 0), 1);
    assert_eq!(Power::power(0, 5), 0);
    assert_eq!(Power::power(3, -1), 0);
    assert_eq!(Power::power(1, -1), 0);
    assert_eq!(Power::power(-2, 31), i32::MIN);
    assert_eq!(Power::power(2, 31), i32::MAX);
    assert_eq!(Power::power(-2, 32), i32::MAX);
    assert_eq!(Power::power(-2, 33), i32::MIN);
    assert_eq!(Power::power(-1, 2147483647), -1);
    assert_eq!(Power::power(-1, 2147483646), 1);
    assert_eq!(Power::power(10, 9), 1000000000);
    assert_eq!(Power::power(10, 10), i32::MAX);
}

#[test]
fn not_a_number_absorbs_every_operation() {
    let a = arithmetic();
    let nan = ExpressionValue::NaN;
    for value in [integer(3), decimal(1.5), nan] {
        assert_eq!(value.add(nan, &a), nan);
        assert_eq!(nan.add(value, &a), nan);
        assert_eq!(value.sub(nan, &a), nan);
        assert_eq!(nan.sub(value, &a), nan);
        assert_eq!(value.mul(nan, &a), nan);
        assert_eq!(nan.mul(value, &a), nan);
        assert_eq!(value.div(nan, &a), nan);
        assert_eq!(nan.div(value, &a), nan);
        assert_eq!(value.power(nan, &a), nan);
        assert_eq!(nan.power(value, &a), nan);
        assert_eq!(value.div(integer(0), &a), nan);
        assert_eq!(value.div(decimal(0.0), &a), nan);
        assert_eq!(value.div(decimal(-0.0), &a), nan);
    }
    assert_eq!(nan.with_sign(SignType::Negative), nan);
    assert_eq!(evaluate("1 + 2 / 0 * 3 - 4 ^ 2"), nan);
    assert_eq!(ExpressionNode::NaN.evaluate(&a), nan);
}

#[test]
fn mixed_arithmetic_is_decimal() {
    assert_eq!(evaluate("1 + 2.5"), decimal(3.5));
    assert_eq!(evaluate("2.5 - 1"), decimal(1.5));
    assert_eq!(evaluate("3 * 0.5"), decimal(1.5));
    assert_eq!(evaluate("3 / 2.0"), decimal(1.5));
    assert_eq!(evaluate("-(2.5)"), decimal(-2.5));
    assert_eq!(evaluate("1.5e2"), decimal(150.0));
    assert_eq!(evaluate("0.001"), decimal(0.001));
    assert_eq!(evaluate("12345678901234567890.5"), decimal(12345678901234567890.5));
}

#[test]
fn signs_convert() {
    assert_eq!(SignType::from(true), SignType::Positive);
    assert_eq!(SignType::from(false), SignType::Negative);
    assert_eq!(SignType::from(-3), SignType::Negative);
    assert_eq!(SignType::from(0), SignType::Positive);
    assert_eq!(SignType::from(DecimalType::from_bits((-0.5f64).to_bits())), SignType::Negative);
    assert_eq!(SignType::from(DecimalType::from_bits((-0.0f64).to_bits())), SignType::Positive);
    assert_eq!(SignType::from(DecimalType::from_bits(f64::NAN.to_bits())), SignType::Positive);
    assert_eq!(i32::from(SignType::Negative), -1);
    assert_eq!(i32::from(SignType::Positive), 1);
    assert_eq!(DecimalType::from(SignType::Negative).to_bits(), (-1.0f64).to_bits());
    assert_eq!(DecimalType::from(SignType::Positive).to_bits(), 1.0f64.to_bits());
}

#[test]
fn numerals() {
    assert_eq!(integer_numeral(0), "0");
    assert_eq!(integer_numeral(-7), "-7");
    assert_eq!(integer_numeral(i32::MIN), "-2147483648");
    assert_eq!(integer_numeral(1234567890), "1234567890");
    let text = |negative: bool, digits: &[u8], exponent: i64| {
        DecimalLiteral::new(negative, digits.to_vec(), exponent).unwrap().numeral()
    };
    assert_eq!(text(false, &[], 0), "0.0");
    assert_eq!(text(true, &[], 0), "-0.0");
    assert_eq!(text(false, &[1, 2, 3, 4], 0), "1234.0");
    assert_eq!(text(true, &[1, 5], 2), "-15e2");
    assert_eq!(text(false, &[1, 2, 3, 4], -2), "12.34");
    assert_eq!(text(false, &[1, 2, 3, 4], -4), "0.1234");
    assert_eq!(text(false, &[1, 2, 3, 4], -6), "0.001234");
    assert_eq!(DecimalLiteral::new(false, vec![0, 1], 0), None);
    assert_eq!(DecimalLiteral::new(false, vec![1, 0], 0), None);
    assert_eq!(DecimalLiteral::new(false, vec![10], 0), None);
    assert_eq!(DecimalLiteral::new(false, vec![], 1), None);
}

#[test]
fn texts_of_expressions() {
    let text = |s: &str| expression_calculator::expression::format::format(&parse(s, beginning()).unwrap().1);
    let full = |s: &str| format_fully_parenthesized(&parse(s, beginning()).unwrap().1);
    assert_eq!(text(" 1+2 *3 "), "1 + 2 * 3");
    assert_eq!(text("-( 4/2 )^2-1"), "-(4 / 2) ^ 2 - 1");
    assert_eq!(text("1.50 + 2e3 + 0.0 - -0.25"), "1.5 + 2e3 + 0.0 - -0.25");
    assert_eq!(text("6 ÷ 3 × 2"), "6 / 3 * 2");
    assert_eq!(full("1 + 2 * 3"), "(1 + (2 * 3))");
    assert_eq!(full("(1 + 2) * 3"), "((1 + 2) * 3)");
    assert_eq!(full("-(1 + 2) ^ 2"), "(-(1 + 2) ^ 2)");
    assert_eq!(full("((7))"), "((7))");
    assert_eq!(full("7"), "7");
    assert_eq!(expression_calculator::expression::format::format(&ExpressionNode::NaN), "NaN");
}

#[test]
fn the_text_of_an_expression_reads_as_the_expression() {
    let a = arithmetic();
    for s in [
        "1",
        "-2.5",
        "1 + 2 * 3 - 4 / 5 ^ 6",
        "-(1 + 2) * (3 - -4)",
        "1e3 + 0.001 + 100.0",
        "((1))",
        "2 ^ (1 + 1)",
        "1 - 2 - 3 + 4 + 5",
    ] {
        let (_, node) = parse(s, beginning()).unwrap();
        let (_, again) = parse(&expression_calculator::expression::format::format(&node), beginning()).unwrap();
        assert_eq!(expression_calculator::expression::format::format(&again), expression_calculator::expression::format::format(&node), "{}", s);
        assert_eq!(again.evaluate(&a), node.evaluate(&a), "{}", s);
        let (_, full) = parse(&format_fully_parenthesized(&node), beginning()).unwrap();
        assert_eq!(full.evaluate(&a), node.evaluate(&a), "{}", s);
    }
}

#[test]
fn every_scanner_moves_forward_and_stays_in_the_text() {
    let s = "ab\ncd\n\nβ";
    let starts = [
        ScanPosition::default(),
        ScanPosition::new(2, 2, 0, 0, 0),
        ScanPosition::new(3, 3, 1, 3, 3),
        ScanPosition::new(s.len(), 8, 3, 7, 7),
    ];
    for start in starts {
        let results = [
            scan_literal(s, (true, start), "\ncd"),
            scan_literal(s, (true, start), "zz"),
            scan_zero_or_more_chars(s, (true, start), |c| c != 'd'),
            scan_one_or_more_chars(s, (true, start), |c| c == '\n'),
            scan_n_chars(s, (true, start), 4, |c| c != 'β'),
        ];
        for (_, end) in results {
            assert!(end.byte_index >= start.byte_index);
            assert!(end.byte_index <= s.len());
            let consumed = &s[start.byte_index..end.byte_index];
            assert_eq!(end.line_index - start.line_index, consumed.matches('\n').count());
            assert_eq!(end.char_index - start.char_index, consumed.chars().count());
        }
    }
}

#[test]
fn a_scanner_that_fails_stops_at_the_mismatch() {
    let s = "ab\ncd";
    let start = (true, ScanPosition::default());
    assert_eq!(scan_literal(s, start, "ab\nx"), (false, ScanPosition::new(3, 3, 1, 3, 3)));
    assert_eq!(scan_n_chars(s, start, 3, |c| c != '\n'), (false, ScanPosition::new(2, 2, 0, 0, 0)));
    assert_eq!(scan_literal(s, start, "\n"), (false, ScanPosition::default()));
    assert_eq!(scan_n_chars(s, start, 9, |_| true), (false, ScanPosition::new(5, 5, 1, 3, 3)));
}

#[test]
fn a_choice_of_scanners_takes_the_first_that_matches() {
    let s = "42abc";
    let context = (true, ScanPosition::default());
    let letters: ScannerFn = |s, c| scan_one_or_more_chars(s, c, |ch| ch.is_alphabetic());
    let digits: ScannerFn = |s, c| scan_one_or_more_chars(s, c, |ch| ch.is_ascii_digit());
    assert_eq!(scan_any(s, context, [letters, digits]), (true, ScanPosition::new(2, 2, 0, 0, 0)));
    assert_eq!(scan_any(s, context, [digits, letters]), (true, ScanPosition::new(2, 2, 0, 0, 0)));
    assert_eq!(scan_any(s, context, [letters, letters]), (false, ScanPosition::default()));
    let none: [ScannerFn; 0] = [];
    assert_eq!(scan_any(s, context, none), context);
    let beyond = (true, ScanPosition::new(9, 9, 0, 0, 0));
    assert_eq!(scan_any(s, beyond, [digits]), (false, beyond.1));
}

#[test]
fn lists_convert_to_and_from_vectors() {
    let list = LinkList::from_vec(vec![1, 2, 3]);
    assert_eq!(list, LinkList::of_three(1, 2, 3));
    assert_eq!(list.to_vec(), vec![1, 2, 3]);
    assert_eq!(LinkList::<i32>::from_vec(Vec::new()), LinkList::new());
}

#[test]
fn combinations_of_lists_follow_the_order_of_the_lists() {
    let lists = LinkList::of_three(
        LinkList::of_two('a', 'b'),
        LinkList::of_two('c', 'd'),
        LinkList::of_two('e', 'f'),
    );
    let combinations: Vec<Vec<char>> =
        lists.combinations().to_vec().iter().map(|list| list.to_vec()).collect();
    assert_eq!(
        combinations,
        vec![
            vec!['a', 'c', 'e'],
            vec!['a', 'c', 'f'],
            vec!['a', 'd', 'e'],
            vec!['a', 'd', 'f'],
            vec!['b', 'c', 'e'],
            vec!['b', 'c', 'f'],
            vec!['b', 'd', 'e'],
            vec!['b', 'd', 'f'],
        ]
    );
    let nothing: LinkList<LinkList<char>> = LinkList::new();
    assert_eq!(nothing.combinations(), LinkList::of_one(LinkList::new()));
    let hole = LinkList::of_two(LinkList::of_one('a'), LinkList::new());
    assert_eq!(hole.combinations(), LinkList::new());
}

#[test]
fn parse_expression_leaves_what_follows() {
    let (context, _) = parse_expression("1 + 2 )", beginning()).unwrap();
    assert_eq!(context, (true, ScanPosition::new(5, 5, 0, 0, 0)));
}

/// A small generator of expression texts from a seed.
fn generated(seed: &mut u64, depth: u32) -> String {
    *seed = seed.wrapping_mul(6364136223846793005).wrapping_add(1442695040888963407);
    let choice = (*seed >> 33) % if depth == 0 { 3 } else { 9 };
    match choice {
        0 => format!("{}", (*seed >> 40) % 50),
        1 => format!("-{}", (*seed >> 40) % 9 + 1),
        2 => format!("{}.{}", (*seed >> 40) % 20, (*seed >> 45) % 100),
        3 => format!("({})", generated(seed, depth - 1)),
        4 => format!("-({})", generated(seed, depth - 1)),
        5 => format!("{} + {}", generated(seed, depth - 1), generated(seed, depth - 1)),
        6 => format!("{} * {}", generated(seed, depth - 1), generated(seed, depth - 1)),
        7 => format!("{} - {}", generated(seed, depth - 1), generated(seed, depth - 1)),
        _ => format!("{} / {}", generated(seed, depth - 1), generated(seed, depth - 1)),
    }
}

#[test]
fn generated_expressions_read_back() {
    let a = arithmetic();
    let mut seed = 7u64;
    for _ in 0..300 {
        let text = generated(&mut seed, 3);
        let (_, node) = parse(&text, beginning()).unwrap();
        let plain = expression_calculator::expression::format::format(&node);
        let (_, again) = parse(&plain, beginning()).unwrap();
        assert_eq!(expression_calculator::expression::format::format(&again), plain, "{}", text);
        assert_eq!(again.evaluate(&a), node.evaluate(&a), "{}", text);
        let full = format_fully_parenthesized(&node);
        let (_, wrapped) = parse(&full, beginning()).unwrap();
        assert_eq!(wrapped.evaluate(&a), node.evaluate(&a), "{}", text);
    }
}
