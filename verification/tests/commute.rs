use expression_calculator::collection::link_list::LinkList;
use expression_calculator::commute::helper::{
    areExpressionsEquivalent, commute, formatStringOperands, generateCommutedExpressions,
    removeParenthesis,
};
use expression_calculator::expression::error::ParsingError;
use expression_calculator::expression::node::Evaluate;
use expression_calculator::expression::value::{
    DecimalArithmetic, DecimalOperator, DecimalType,
};
use expression_calculator::expression::parse::parse;
use expression_calculator::scan::context::beginning;

fn equivalent(target: &str, candidate: &str) -> Result<bool, ParsingError> {
    areExpressionsEquivalent(target.to_string(), candidate.to_string())
}

#[test]
fn products_are_equivalent_in_every_order() {
    assert_eq!(equivalent("1 * 2 * 3", "3 * 2 * 1"), Ok(true));
    assert_eq!(equivalent("1 * 2 * 3", "2 * 1 * 3"), Ok(true));
    assert_eq!(equivalent("1 * 2 * 3", "1 * 2 * 4"), Ok(false));
}

#[test]
fn sums_of_products_are_equivalent_in_every_order() {
    assert_eq!(equivalent("2 * 3 + 4 * 5", "5 * 4 + 3 * 2"), Ok(true));
    assert_eq!(equivalent("2 * 3 + 4 * 5", "4 * 5 + 2 * 3"), Ok(true));
    assert_eq!(equivalent("2 * 3 + 4 * 5", "2 * 4 + 3 * 5"), Ok(false));
}

#[test]
fn differences_do_not_commute() {
    assert_eq!(equivalent("2 - 3", "3 - 2"), Ok(false));
    assert_eq!(equivalent("2 - 3", "2 - 3"), Ok(true));
    assert_eq!(equivalent("6 / 3", "3 / 6"), Ok(false));
    assert_eq!(equivalent("2 ^ 3", "3 ^ 2"), Ok(false));
}

#[test]
fn operands_of_differences_still_commute() {
    assert_eq!(equivalent("2 * 3 - 4 * 5", "3 * 2 - 5 * 4"), Ok(true));
    assert_eq!(equivalent("2 * 3 - 4 * 5", "4 * 5 - 2 * 3"), Ok(false));
}

#[test]
fn an_expression_is_equivalent_to_itself() {
    for text in ["1", "-2.5", "1 + 2", "(1 + 2) * 3", "-(4 / 2) ^ 2 - 1", "1 + 2 * 3 - 4 / 5"] {
        assert_eq!(equivalent(text, text), Ok(true), "{}", text);
    }
}

#[test]
fn equivalence_is_symmetric_on_examples() {
    let texts = ["1 + 2", "2 + 1", "1 - 2", "2 * (1 + 3)", "(3 + 1) * 2", "1 + 2 + 3", "3 + 1 + 2"];
    for a in texts {
        for b in texts {
            assert_eq!(equivalent(a, b), equivalent(b, a), "{} and {}", a, b);
        }
    }
}

#[test]
fn outer_parentheses_do_not_matter() {
    assert_eq!(equivalent("(1 + 2)", "2 + 1"), Ok(true));
    assert_eq!(equivalent("1 + 2", "((2 + 1))"), Ok(true));
}

#[test]
fn equivalence_returns_the_error_of_reading() {
    assert!(matches!(equivalent("1 +", "1"), Err(ParsingError::EndOfInput(_))));
    assert!(matches!(equivalent("1", "1 2"), Err(ParsingError::ExtraInput(_))));
    assert!(matches!(equivalent("", "1"), Err(ParsingError::EndOfInput(_))));
}

#[test]
fn a_product_of_three_has_six_orders() {
    let (_, node) = parse("1 * 2 * 3", beginning()).unwrap();
    let mut texts = commute(&node);
    texts.sort();
    assert_eq!(
        texts,
        vec!["1 * 2 * 3", "1 * 3 * 2", "2 * 1 * 3", "2 * 3 * 1", "3 * 1 * 2", "3 * 2 * 1"]
    );
}

#[test]
fn a_difference_keeps_its_order() {
    let (_, node) = parse("2 * 3 - 4 * 5", beginning()).unwrap();
    let mut texts = commute(&node);
    texts.sort();
    assert_eq!(texts, vec!["2 * 3 - 4 * 5", "2 * 3 - 5 * 4", "3 * 2 - 4 * 5", "3 * 2 - 5 * 4"]);
}

#[test]
fn a_parenthesis_keeps_its_brackets_and_sign() {
    let (_, node) = parse("-(1 + 2)", beginning()).unwrap();
    let mut texts = commute(&node);
    texts.sort();
    assert_eq!(texts, vec!["-(1 + 2)", "-(2 + 1)"]);
}

#[test]
fn a_number_commutes_to_itself() {
    let (_, node) = parse(" 42 ", beginning()).unwrap();
    assert_eq!(commute(&node), vec!["42"]);
    let (_, node) = parse("2.50e1", beginning()).unwrap();
    assert_eq!(commute(&node), vec!["25.0"]);
}

#[test]
fn every_commuted_text_parses() {
    let (_, node) = parse("(1 + 2) * 3 * (4 - 5)", beginning()).unwrap();
    for text in commute(&node) {
        assert!(parse(&text, beginning()).is_ok(), "{}", text);
    }
}

#[test]
fn generated_expressions_come_as_a_list() {
    let list = generateCommutedExpressions("1 + 2").unwrap();
    assert_eq!(list.len(), 2);
    assert!(!list.find(&"1 + 2".to_string()).is_empty());
    assert!(!list.find(&"2 + 1".to_string()).is_empty());
    assert!(matches!(generateCommutedExpressions("1 + "), Err(ParsingError::EndOfInput(_))));
}

#[test]
fn outer_parentheses_are_removed() {
    assert_eq!(removeParenthesis("((1 + 2))".to_string()), Ok("1 + 2".to_string()));
    assert_eq!(removeParenthesis("(1) + 2".to_string()), Ok("(1) + 2".to_string()));
    assert_eq!(removeParenthesis("-(1 + 2)".to_string()), Ok("-(1 + 2)".to_string()));
    assert!(matches!(removeParenthesis("(1".to_string()), Err(ParsingError::EndOfInput(_))));
}

#[test]
fn operands_are_joined_with_the_operator_between_spaces() {
    let operands = LinkList::of_three("a".to_string(), "b".to_string(), "c".to_string());
    assert_eq!(formatStringOperands(operands, "+".to_string()), "a + b + c");
    assert_eq!(formatStringOperands(LinkList::of_one("a".to_string()), "*".to_string()), "a");
    assert_eq!(formatStringOperands(LinkList::new(), "*".to_string()), "");
}

#[test]
fn every_commuted_text_of_integers_has_the_value_of_the_expression() {
    let arithmetic = DecimalArithmetic {
        read: |text: &str| DecimalType::from_bits(text.parse::<f64>().unwrap().to_bits()),
        apply: |_: DecimalOperator, left: DecimalType, _: DecimalType| left,
    };
    for text in ["1 + 2 * 3 + 4", "(7 - 2) * 3 * (4 + 5 / 0)", "2147483647 + 1 + -5 * 2 ^ 3", "8 / 2 - 3 + 1"] {
        let (_, node) = parse(text, beginning()).unwrap();
        let value = node.evaluate(&arithmetic);
        for other in commute(&node) {
            let (_, again) = parse(&other, beginning()).unwrap();
            assert_eq!(again.evaluate(&arithmetic), value, "{} and {}", text, other);
        }
    }
}

/// A small generator of expression texts with few operands from a seed.
fn generated(seed: &mut u64, depth: u32) -> String {
    *seed = seed.wrapping_mul(6364136223846793005).wrapping_add(1442695040888963407);
    let choice = (*seed >> 33) % if depth == 0 { 2 } else { 7 };
    match choice {
        0 => format!("{}", (*seed >> 40) % 50),
        1 => format!("-{}", (*seed >> 40) % 9 + 1),
        2 => format!("({})", generated(seed, depth - 1)),
        3 => format!("{} + {}", generated(seed, depth - 1), generated(seed, depth - 1)),
        4 => format!("{} * {}", generated(seed, depth - 1), generated(seed, depth - 1)),
        5 => format!("{} - {}", generated(seed, depth - 1), generated(seed, depth - 1)),
        _ => format!("{} / {}", generated(seed, depth - 1), generated(seed, depth - 1)),
    }
}

#[test]
fn generated_expressions_are_equivalent_to_themselves_and_symmetric() {
    let mut seed = 11u64;
    let mut texts = Vec::new();
    for _ in 0..12 {
        texts.push(generated(&mut seed, 2));
    }
    for a in &texts {
        assert_eq!(equivalent(a, a), Ok(true), "{}", a);
        for b in &texts {
            assert_eq!(equivalent(a, b), equivalent(b, a), "{} and {}", a, b);
        }
    }
}
