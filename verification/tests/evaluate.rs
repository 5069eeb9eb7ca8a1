use expression_calculator::expression::node::Evaluate;
use expression_calculator::expression::parse::parse_expression;
use expression_calculator::expression::value::{
    DecimalArithmetic, DecimalOperator, DecimalType, ExpressionValue,
};
use expression_calculator::scan::context::beginning;

fn arithmetic() -> DecimalArithmetic<
    impl Fn(&str) -> DecimalType,
    impl Fn(DecimalOperator, DecimalType, DecimalType) -> DecimalType,
> {
    DecimalArithmetic {
        read: |text: &str| DecimalType::from_bits(text.parse::<f64>().unwrap().to_bits()),
        apply: |operator: DecimalOperator, left: DecimalType, right: DecimalType| {
            let a = f64::from_bits(left.to_bits());
            let b = f64::from_bits(right.to_bits());
            let result = match operator {
                DecimalOperator::Add => a + b,
                DecimalOperator::Subtract => a - b,
                DecimalOperator::Multiply => a * b,
                DecimalOperator::Divide => a / b,
                DecimalOperator::Power => a.powf(b),
            };
            DecimalType::from_bits(result.to_bits())
        },
    }
}

fn decimal(value: f64) -> ExpressionValue {
    ExpressionValue::Decimal { value: DecimalType::from_bits(value.to_bits()) }
}



#[test]
fn test_evaluate_integer() {
    let s = "1234";
    let (_result_context, result_node) = parse_expression(s, beginning()).unwrap();
    assert_eq!(result_node.evaluate(&arithmetic()), ExpressionValue::Integer { value: 1234 });
}

#[test]
fn test_evaluate_negative_integer() {
    let s = "-1234";
    let (_result_context, result_node) = parse_expression(s, beginning()).unwrap();
    assert_eq!(result_node.evaluate(&arithmetic()), ExpressionValue::Integer { value: -1234 });
}

#[test]
fn test_evaluate_decimal() {
    let s = "1234.0";
    let (_result_context, result_node) = parse_expression(s, beginning()).unwrap();
    assert_eq!(result_node.evaluate(&arithmetic()), decimal(1234.0));
}

#[test]
fn test_evaluate_negative_decimal() {
    let s = "-1234.0";
    let (_result_context, result_node) = parse_expression(s, beginning()).unwrap();
    assert_eq!(result_node.evaluate(&arithmetic()), decimal(-1234.0));
}

#[test]
fn test_evaluate_scientific() {
    let s = "1234e0";
    let (_result_context, result_node) = parse_expression(s, beginning()).unwrap();
    assert_eq!(result_node.evaluate(&arithmetic()), decimal(1234.0));
}

#[test]
fn test_evaluate_negative_scientific() {
    let s = "-1234E0";
    let (_result_context, result_node) = parse_expression(s, beginning()).unwrap();
    assert_eq!(result_node.evaluate(&arithmetic()), decimal(-1234.0));
}

#[test]
fn test_evaluate_parenthesis() {
    let s = "(1234)";
    let (_result_context, result_node) = parse_expression(s, beginning()).unwrap();
    assert_eq!(result_node.evaluate(&arithmetic()), ExpressionValue::Integer { value: 1234 });
}

#[test]
fn test_evaluate_negative_parenthesis() {
    let s = "-(1234)";
    let (_result_context, result_node) = parse_expression(s, beginning()).unwrap();
    assert_eq!(result_node.evaluate(&arithmetic()), ExpressionValue::Integer { value: -1234 });
}

#[test]
fn test_evaluate_integer_sum() {
    let s = " 1 + 2 + 3 ";
    let (_result_context, result_node) = parse_expression(s, beginning()).unwrap();
    assert_eq!(result_node.evaluate(&arithmetic()), ExpressionValue::Integer { value: 6 });
}

#[test]
fn test_evaluate_decimal_sum() {
    let s = " 1 + 2 + 3.0 ";
    let (_result_context, result_node) = parse_expression(s, beginning()).unwrap();
    assert_eq!(result_node.evaluate(&arithmetic()), decimal(6.0));
}

#[test]
fn test_evaluate_integer_difference() {
    let s = " 1 - 2 - 3 ";
    let (_result_context, result_node) = parse_expression(s, beginning()).unwrap();
    assert_eq!(result_node.evaluate(&arithmetic()), ExpressionValue::Integer { value: -4 });
}

#[test]
fn test_evaluate_decimal_difference() {
    let s = " 1 - 2 - 3.0 ";
    let (_result_context, result_node) = parse_expression(s, beginning()).unwrap();
    assert_eq!(result_node.evaluate(&arithmetic()), decimal(-4.0));
}

#[test]
fn test_evaluate_integer_product() {
    let s = " 1 * 2 * 3 ";
    let (_result_context, result_node) = parse_expression(s, beginning()).unwrap();
    assert_eq!(result_node.evaluate(&arithmetic()), ExpressionValue::Integer { value: 6 });
}

#[test]
fn test_evaluate_decimal_product() {
    let s = " 1 * 2 * 3.0 ";
    let (_result_context, result_node) = parse_expression(s, beginning()).unwrap();
    assert_eq!(result_node.evaluate(&arithmetic()), decimal(6.0));
}

#[test]
fn test_evaluate_integer_quotient() {
    let s = " 3 / 2 / 1";
    let (_result_context, result_node) = parse_expression(s, beginning()).unwrap();
    assert_eq!(result_node.evaluate(&arithmetic()), ExpressionValue::Integer { value: 1 });
}

#[test]
fn test_evaluate_decimal_quotient() {
    let s = " 3.0 / 2 / 1.0 ";
    let (_result_context, result_node) = parse_expression(s, beginning()).unwrap();
    assert_eq!(result_node.evaluate(&arithmetic()), decimal(1.5));
}

#[test]
fn test_evaluate_divide_by_zero() {
    let s = " 3 / 0 / 1 ";
    let (_result_context, result_node) = parse_expression(s, beginning()).unwrap();
    assert_eq!(result_node.evaluate(&arithmetic()), ExpressionValue::NaN);

    let s = " 3.0 / 0.0 / 1.0 ";
    let (_result_context, result_node) = parse_expression(s, beginning()).unwrap();
    assert_eq!(result_node.evaluate(&arithmetic()), ExpressionValue::NaN);
}

#[test]
fn test_evaluate_integer_power() {
    let s = " 3^2";
    let (_result_context, result_node) = parse_expression(s, beginning()).unwrap();
    assert_eq!(result_node.evaluate(&arithmetic()), ExpressionValue::Integer { value: 9 });

    let s = " 3^0";
    let (_result_context, result_node) = parse_expression(s, beginning()).unwrap();
    assert_eq!(result_node.evaluate(&arithmetic()), ExpressionValue::Integer { value: 1 });

    let s = " 3^-1";
    let (_result_context, result_node) = parse_expression(s, beginning()).unwrap();
    assert_eq!(result_node.evaluate(&arithmetic()), ExpressionValue::Integer { value: 0 });
}

#[test]
fn test_evaluate_decimal_power() {
    let s = " 3.0^2 ";
    let (_result_context, result_node) = parse_expression(s, beginning()).unwrap();
    assert_eq!(result_node.evaluate(&arithmetic()), decimal(9.0));

    let s = " 3.0^2.0 ";
    let (_result_context, result_node) = parse_expression(s, beginning()).unwrap();
    assert_eq!(result_node.evaluate(&arithmetic()), decimal(9.0));

    let s = " 3^2.0 ";
    let (_result_context, result_node) = parse_expression(s, beginning()).unwrap();
    assert_eq!(result_node.evaluate(&arithmetic()), decimal(9.0));

    let s = " 3.0^0 ";
    let (_result_context, result_node) = parse_expression(s, beginning()).unwrap();
    assert_eq!(result_node.evaluate(&arithmetic()), decimal(1.0));

    let s = " 2.0^-1 ";
    let (_result_context, result_node) = parse_expression(s, beginning()).unwrap();
    assert_eq!(result_node.evaluate(&arithmetic()), decimal(0.5));
}

#[test]
fn test_evaluate_integer_expression() {
    let s = " (((10 + 5) * -6) - -20 / -2 * 3 + -((5*2)^2) - (-5 * -2 * 5)) ";
    let (_result_context, result_node) = parse_expression(s, beginning()).unwrap();
    assert_eq!(result_node.evaluate(&arithmetic()), ExpressionValue::Integer { value: -270 });
}

#[test]
fn test_evaluate_decimal_expression() {
    let s = " (((10 + 5) * -6) - -20.0 / -2 * 3 + -((5*2)^2) - (-5 * -2 * 5)) ";
    let (_result_context, result_node) = parse_expression(s, beginning()).unwrap();
    assert_eq!(result_node.evaluate(&arithmetic()), decimal(-270.0));
}
