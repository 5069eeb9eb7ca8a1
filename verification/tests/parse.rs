use expression_calculator::expression::node::ExpressionNode;
use expression_calculator::expression::numeral::DecimalLiteral;
use expression_calculator::expression::parse::{
    parse_difference, parse_expression, parse_number, parse_power, parse_product, parse_quotient,
    parse_sum, parse_value,
};
use expression_calculator::expression::position::ParsePosition;
use expression_calculator::expression::value::SignType;
use expression_calculator::scan::context::ScanPosition;

fn decimal_literal(negative: bool, digits: &[u8], exponent: i64) -> DecimalLiteral {
    DecimalLiteral::new(negative, digits.to_vec(), exponent).unwrap()
}



#[test]
fn parse_test_parse_number_integer() {
    let s = "1234";
    let start = ScanPosition::default();
    let context = (true, start);

    let (result_context, result_node) = parse_number(s, context).unwrap();
    let expected_end = ScanPosition::new(s.len(), s.chars().count(), 0, 0, 0);
    assert_eq!((true, expected_end), result_context);
    assert_eq!(ExpressionNode::Integer{
        position: ParsePosition { start: start, end: expected_end },
        value: 1234
    }, result_node);
}

#[test]
fn parse_test_parse_number_decimal() {
    let s = "1234.0";
    let start = ScanPosition::default();
    let context = (true, start);

    let (result_context, result_node) = parse_number(s, context).unwrap();
    let expected_end = ScanPosition::new(s.len(), s.chars().count(), 0, 0, 0);
    assert_eq!((true, expected_end), result_context);
    assert_eq!(ExpressionNode::Decimal{
        position: ParsePosition { start: start, end: expected_end },
        value: decimal_literal(false, &[1, 2, 3, 4], 0)
    }, result_node);
}

#[test]
fn parse_test_parse_number_scientific() {
    let s = "123.4e1";
    let start = ScanPosition::default();
    let context = (true, start);

    let (result_context, result_node) = parse_number(s, context).unwrap();
    let expected_end = ScanPosition::new(s.len(), s.chars().count(), 0, 0, 0);
    assert_eq!((true, expected_end), result_context);
    assert_eq!(ExpressionNode::Decimal{
        position: ParsePosition { start: start, end: expected_end },
        value: decimal_literal(false, &[1, 2, 3, 4], 0)
    }, result_node);

    let s = "123.4E1";
    let start = ScanPosition::default();
    let context = (true, start);

    let (result_context, result_node) = parse_number(s, context).unwrap();
    let expected_end = ScanPosition::new(s.len(), s.chars().count(), 0, 0, 0);
    assert_eq!((true, expected_end), result_context);
    assert_eq!(ExpressionNode::Decimal{
        position: ParsePosition { start: start, end: expected_end },
        value: decimal_literal(false, &[1, 2, 3, 4], 0)
    }, result_node);
}

#[test]
fn parse_test_parse_parenthesis_integer() {
    let s = " ( 1234 ) ";
    let start = ScanPosition::new(1, 1, 0, 0, 0);
    let context = (true, start);

    let (result_context, result_node) = parse_value(s, context).unwrap();
    let expected_end = ScanPosition::new(s.len() - 1, s.chars().count() - 1, 0, 0, 0);
    assert_eq!((true, expected_end), result_context);
    assert_eq!(ExpressionNode::Parenthesis{
        position: ParsePosition {
            start: start,
            end: expected_end
        },
        sign: SignType::Positive,
        inner: Box::new(ExpressionNode::Integer {
            position: ParsePosition {
                start: ScanPosition::new(3, 3, 0, 0, 0),
                end: ScanPosition::new(7, 7, 0, 0, 0)
            },
            value: 1234
        })
    }, result_node);
}

#[test]
fn parse_test_parse_parenthesis_negative_integer() {
    let s = " ( -1234 ) ";
    let start = ScanPosition::new(1, 1, 0, 0, 0);
    let context = (true, start);

    let (result_context, result_node) = parse_value(s, context).unwrap();
    let expected_end = ScanPosition::new(s.len() - 1, s.chars().count() - 1, 0, 0, 0);
    assert_eq!((true, expected_end), result_context);
    assert_eq!(ExpressionNode::Parenthesis{
        position: ParsePosition {
            start: start,
            end: expected_end
        },
        sign: SignType::Positive,
        inner: Box::new(ExpressionNode::Integer {
            position: ParsePosition {
                start: ScanPosition::new(3, 3, 0, 0, 0),
                end: ScanPosition::new(8, 8, 0, 0, 0)
            },
            value: -1234
        })
    }, result_node);
}

#[test]
fn parse_test_parse_parenthesis_negative_decimal() {
    let s = " ( -1234.0 ) ";
    let start = ScanPosition::new(0, 0, 0, 0, 0);
    let context = (true, start);

    let (result_context, result_node) = parse_value(s, context).unwrap();
    let expected_end = ScanPosition::new(s.len()- 1, s.chars().count() - 1, 0, 0, 0);
    assert_eq!((true, expected_end), result_context);
    assert_eq!(ExpressionNode::Parenthesis{
        position: ParsePosition {
            start: ScanPosition::new(1, 1, 0, 0, 0),
            end: expected_end
        },
        sign: SignType::Positive,
        inner: Box::new(ExpressionNode::Decimal {
            position: ParsePosition {
                start: ScanPosition::new(3, 3, 0, 0, 0),
                end: ScanPosition::new(10, 10, 0, 0, 0)
            },
            value: decimal_literal(true, &[1, 2, 3, 4], 0)
        })
    }, result_node);
}

#[test]
fn parse_test_parse_parenthesis_negative() {
    let s = " -( 1234 ) ";
    let start = ScanPosition::new(0, 0, 0, 0, 0);
    let context = (true, start);

    let (result_context, result_node) = parse_value(s, context).unwrap();
    let expected_end = ScanPosition::new(s.len() - 1, s.chars().count() - 1, 0, 0, 0);
    assert_eq!((true, expected_end), result_context);
    assert_eq!(ExpressionNode::Parenthesis{
        position: ParsePosition {
            start: ScanPosition::new(1, 1, 0, 0, 0),
            end: expected_end },
        sign: SignType::Negative,
        inner: Box::new(ExpressionNode::Integer {
            position: ParsePosition {
                start: ScanPosition::new(4, 4, 0, 0, 0),
                end: ScanPosition::new(8, 8, 0, 0, 0)
            },
            value: 1234
        })
    }, result_node);
}

#[test]
fn parse_test_parse_parenthesis_nested() {
    let s = " -( -( 1234 ) ) ";
    let start = ScanPosition::new(0, 0, 0, 0, 0);
    let context = (true, start);

    let (result_context, result_node) = parse_value(s, context).unwrap();
    let expected_end = ScanPosition::new(s.len() - 1, s.chars().count() - 1, 0, 0, 0);
    assert_eq!((true, expected_end), result_context);
    assert_eq!(ExpressionNode::Parenthesis{
        position: ParsePosition {
            start: ScanPosition::new(1, 1, 0, 0, 0),
            end: expected_end
        },
        sign: SignType::Negative,
        inner: Box::new(ExpressionNode::Parenthesis {
            position: ParsePosition {
                start: ScanPosition::new(4, 4, 0, 0, 0),
                end: ScanPosition::new(13, 13, 0, 0, 0)
            },
            sign: SignType::Negative,
            inner: Box::new(ExpressionNode::Integer {
                position: ParsePosition {
                    start: ScanPosition::new(7, 7, 0, 0, 0),
                    end: ScanPosition::new(11, 11, 0, 0, 0)
                },
                value: 1234
            })
        })
    }, result_node);
}

#[test]
fn parse_test_parse_sum() {
    let s = " 2 + 3 ";
    let start = ScanPosition::new(0, 0, 0, 0, 0);
    let context = (true, start);

    let (result_context, result_node) = parse_sum(s, context).unwrap();
    println!("{:?}", result_node);
    let expected_end = ScanPosition::new(s.len() - 1, s.chars().count() - 1, 0, 0, 0);
    assert_eq!((true, expected_end), result_context);
    assert_eq!(ExpressionNode::Sum{
        position: ParsePosition {
            start: ScanPosition::new(1, 1, 0, 0, 0),
            end: expected_end
        },
        operands: vec!(
            ExpressionNode::Integer {
                position: ParsePosition {
                    start: ScanPosition::new(1, 1, 0, 0, 0),
                    end: ScanPosition::new(2, 2, 0, 0, 0)
                },
                value: 2
            },
            ExpressionNode::Integer {
                position: ParsePosition {
                    start: ScanPosition::new(5, 5, 0, 0, 0),
                    end: ScanPosition::new(6, 6, 0, 0, 0)
                },
                value: 3
            }
        )
    }, result_node);
}

#[test]
fn parse_test_parse_sum_complex() {
    let s = " ( 1234 ) + -2^16 + -( 30.0^2 + 78.0  ) ";
    let start = ScanPosition::new(0, 0, 0, 0, 0);
    let context = (true, start);

    let (result_context, result_node) = parse_sum(s, context).unwrap();
    // println!("{:?}", result_node);
    let expected_end = ScanPosition::new(s.len() - 1, s.chars().count() - 1, 0, 0, 0);
    assert_eq!((true, expected_end), result_context);
    assert_eq!(ExpressionNode::Sum{
        position: ParsePosition {
            start: ScanPosition::new(1, 1, 0, 0, 0),
            end: expected_end
        },
        operands: vec!(
            ExpressionNode::Parenthesis {
                position: ParsePosition {
                    start: ScanPosition::new(1, 1, 0, 0, 0),
                    end: ScanPosition::new(9, 9, 0, 0, 0)
                },
                sign: SignType::Positive,
                inner: Box::new(ExpressionNode::Integer {
                    position: ParsePosition {
                        start: ScanPosition::new(3, 3, 0, 0, 0),
                        end: ScanPosition::new(7, 7, 0, 0, 0)
                    },
                    value: 1234
                }),
            },
            ExpressionNode::Power {
                position: ParsePosition {
                    start: ScanPosition::new(12, 12, 0, 0, 0),
                    end: ScanPosition::new(17, 17, 0, 0, 0)
                },
                base: Box::new(ExpressionNode::Integer {
                    position: ParsePosition {
                        start: ScanPosition::new(12, 12, 0, 0, 0),
                        end: ScanPosition::new(14, 14, 0, 0, 0)
                    },
                    value: -2
                }),
                exponent: Box::new(ExpressionNode::Integer {
                    position: ParsePosition {
                        start: ScanPosition::new(15, 15, 0, 0, 0),
                        end: ScanPosition::new(17, 17, 0, 0, 0)
                    },
                    value: 16
                }),
            },
            ExpressionNode::Parenthesis {
                position: ParsePosition {
                    start: ScanPosition::new(20, 20, 0, 0, 0),
                    end: ScanPosition::new(39, 39, 0, 0, 0)
                },
                sign: SignType::Negative,
                inner: Box::new(ExpressionNode::Sum{
                    position: ParsePosition {
                        start: ScanPosition::new(23, 23, 0, 0, 0),
                        end: ScanPosition::new(36, 36, 0, 0, 0)
                    },
                    operands: vec!(
                        ExpressionNode::Power {
                            position: ParsePosition {
                                start: ScanPosition::new(23, 23, 0, 0, 0),
                                end: ScanPosition::new(29, 29, 0, 0, 0)
                            },
                            base: Box::new(ExpressionNode::Decimal {
                                position: ParsePosition {
                                    start: ScanPosition::new(23, 23, 0, 0, 0),
                                    end: ScanPosition::new(27, 27, 0, 0, 0)
                                },
                                value: decimal_literal(false, &[3], 1)
                            }),
                            exponent: Box::new(ExpressionNode::Integer {
                                position: ParsePosition {
                                    start: ScanPosition::new(28, 28, 0, 0, 0),
                                    end: ScanPosition::new(29, 29, 0, 0, 0)
                                },
                                value: 2
                            }),
                        },
                        ExpressionNode::Decimal {
                            position: ParsePosition {
                                start: ScanPosition::new(32, 32, 0, 0, 0),
                                end: ScanPosition::new(36, 36, 0, 0, 0)
                            },
                            value: decimal_literal(false, &[7, 8], 0)
                        },
                    ),
                }),
            },
        )
    }, result_node);
}

#[test]
fn parse_test_parse_difference() {
    let s = " 2 - 3 ";
    let start = ScanPosition::new(0, 0, 0, 0, 0);
    let context = (true, start);

    let (result_context, result_node) = parse_difference(s, context).unwrap();
    println!("{:?}", result_node);
    let expected_end = ScanPosition::new(s.len() - 1, s.chars().count() - 1, 0, 0, 0);
    assert_eq!((true, expected_end), result_context);
    assert_eq!(ExpressionNode::Difference{
        position: ParsePosition {
            start: ScanPosition::new(1, 1, 0, 0, 0),
            end: expected_end
        },
        operands: vec!(
            ExpressionNode::Integer {
                position: ParsePosition {
                    start: ScanPosition::new(1, 1, 0, 0, 0),
                    end: ScanPosition::new(2, 2, 0, 0, 0)
                },
                value: 2
            },
            ExpressionNode::Integer {
                position: ParsePosition {
                    start: ScanPosition::new(5, 5, 0, 0, 0),
                    end: ScanPosition::new(6, 6, 0, 0, 0)
                },
                value: 3
            }
        )
    }, result_node);
}

#[test]
fn parse_test_parse_difference_complex() {
    let s = " ( 1234 ) - -2^16 - -( 30.0^2 - 78.0  ) ";
    let start = ScanPosition::new(0, 0, 0, 0, 0);
    let context = (true, start);

    let (result_context, result_node) = parse_difference(s, context).unwrap();
    // println!("{:?}", result_node);
    let expected_end = ScanPosition::new(s.len() - 1, s.chars().count() - 1, 0, 0, 0);
    assert_eq!((true, expected_end), result_context);
    assert_eq!(ExpressionNode::Difference {
        position: ParsePosition {
            start: ScanPosition::new(1, 1, 0, 0, 0),
            end: expected_end
        },
        operands: vec!(
            ExpressionNode::Parenthesis {
                position: ParsePosition {
                    start: ScanPosition::new(1, 1, 0, 0, 0),
                    end: ScanPosition::new(9, 9, 0, 0, 0)
                },
                sign: SignType::Positive,
                inner: Box::new(ExpressionNode::Integer {
                    position: ParsePosition {
                        start: ScanPosition::new(3, 3, 0, 0, 0),
                        end: ScanPosition::new(7, 7, 0, 0, 0)
                    },
                    value: 1234
                }),
            },
            ExpressionNode::Power {
                position: ParsePosition {
                    start: ScanPosition::new(12, 12, 0, 0, 0),
                    end: ScanPosition::new(17, 17, 0, 0, 0)
                },
                base: Box::new(ExpressionNode::Integer {
                    position: ParsePosition {
                        start: ScanPosition::new(12, 12, 0, 0, 0),
                        end: ScanPosition::new(14, 14, 0, 0, 0)
                    },
                    value: -2
                }),
                exponent: Box::new(ExpressionNode::Integer {
                    position: ParsePosition {
                        start: ScanPosition::new(15, 15, 0, 0, 0),
                        end: ScanPosition::new(17, 17, 0, 0, 0)
                    },
                    value: 16
                }),
            },
            ExpressionNode::Parenthesis {
                position: ParsePosition {
                    start: ScanPosition::new(20, 20, 0, 0, 0),
                    end: ScanPosition::new(39, 39, 0, 0, 0)
                },
                sign: SignType::Negative,
                inner: Box::new(ExpressionNode::Difference{
                    position: ParsePosition {
                        start: ScanPosition::new(23, 23, 0, 0, 0),
                        end: ScanPosition::new(36, 36, 0, 0, 0)
                    },
                    operands: vec!(
                        ExpressionNode::Power {
                            position: ParsePosition {
                                start: ScanPosition::new(23, 23, 0, 0, 0),
                                end: ScanPosition::new(29, 29, 0, 0, 0)
                            },
                            base: Box::new(ExpressionNode::Decimal {
                                position: ParsePosition {
                                    start: ScanPosition::new(23, 23, 0, 0, 0),
                                    end: ScanPosition::new(27, 27, 0, 0, 0)
                                },
                                value: decimal_literal(false, &[3], 1)
                            }),
                            exponent: Box::new(ExpressionNode::Integer {
                                position: ParsePosition {
                                    start: ScanPosition::new(28, 28, 0, 0, 0),
                                    end: ScanPosition::new(29, 29, 0, 0, 0)
                                },
                                value: 2
                            }),
                        },
                        ExpressionNode::Decimal {
                            position: ParsePosition {
                                start: ScanPosition::new(32, 32, 0, 0, 0),
                                end: ScanPosition::new(36, 36, 0, 0, 0)
                            },
                            value: decimal_literal(false, &[7, 8], 0)
                        },
                    ),
                }),
            },
        )
    }, result_node);
}

#[test]
fn parse_test_parse_product() {
    let s = " 2 * 3 ";
    let start = ScanPosition::new(0, 0, 0, 0, 0);
    let context = (true, start);

    let (result_context, result_node) = parse_product(s, context).unwrap();
    println!("{:?}", result_node);
    let expected_end = ScanPosition::new(s.len() - 1, s.chars().count() - 1, 0, 0, 0);
    assert_eq!((true, expected_end), result_context);
    assert_eq!(ExpressionNode::Product{
        position: ParsePosition {
            start: ScanPosition::new(1, 1, 0, 0, 0),
            end: expected_end
        },
        operands: vec!(
            ExpressionNode::Integer {
                position: ParsePosition {
                    start: ScanPosition::new(1, 1, 0, 0, 0),
                    end: ScanPosition::new(2, 2, 0, 0, 0)
                },
                value: 2
            },
            ExpressionNode::Integer {
                position: ParsePosition {
                    start: ScanPosition::new(5, 5, 0, 0, 0),
                    end: ScanPosition::new(6, 6, 0, 0, 0)
                },
                value: 3
            }
        )
    }, result_node);
}


#[test]
fn parse_test_parse_quotient() {
    let s = " 2 / 3 ";
    let start = ScanPosition::new(0, 0, 0, 0, 0);
    let context = (true, start);

    let (result_context, result_node) = parse_quotient(s, context).unwrap();
    println!("{:?}", result_node);
    let expected_end = ScanPosition::new(s.len() - 1, s.chars().count() - 1, 0, 0, 0);
    assert_eq!((true, expected_end), result_context);
    assert_eq!(ExpressionNode::Quotient{
        position: ParsePosition {
            start: ScanPosition::new(1, 1, 0, 0, 0),
            end: expected_end
        },
        operands: vec!(
            ExpressionNode::Integer {
                position: ParsePosition {
                    start: ScanPosition::new(1, 1, 0, 0, 0),
                    end: ScanPosition::new(2, 2, 0, 0, 0)
                },
                value: 2
            },
            ExpressionNode::Integer {
                position: ParsePosition {
                    start: ScanPosition::new(5, 5, 0, 0, 0),
                    end: ScanPosition::new(6, 6, 0, 0, 0)
                },
                value: 3
            }
        )
    }, result_node);
}


#[test]
fn parse_test_parse_power() {
    let s = " 2^3 ";
    let start = ScanPosition::new(0, 0, 0, 0, 0);
    let context = (true, start);

    let (result_context, result_node) = parse_power(s, context).unwrap();
    println!("{:?}", result_node);
    let expected_end = ScanPosition::new(s.len() - 1, s.chars().count() - 1, 0, 0, 0);
    assert_eq!((true, expected_end), result_context);
    assert_eq!(ExpressionNode::Power{
        position: ParsePosition {
            start: ScanPosition::new(1, 1, 0, 0, 0),
            end: expected_end
        },
        base: Box::new(ExpressionNode::Integer {
            position: ParsePosition {
                start: ScanPosition::new(1, 1, 0, 0, 0),
                end: ScanPosition::new(2, 2, 0, 0, 0)
            },
            value: 2
        }),
        exponent: Box::new(ExpressionNode::Integer {
            position: ParsePosition {
                start: ScanPosition::new(3, 3, 0, 0, 0),
                end: ScanPosition::new(4, 4, 0, 0, 0)
            },
            value: 3
        })
    }, result_node);
}

#[test]
fn parse_test_parse_power_complex() {
    let s = " (0.0+2)^(1.0+2) ";
    let start = ScanPosition::new(0, 0, 0, 0, 0);
    let context = (true, start);

    let (result_context, result_node) = parse_power(s, context).unwrap();
    println!("{:?}", result_node);
    let expected_end = ScanPosition::new(s.len() - 1, s.chars().count() - 1, 0, 0, 0);
    assert_eq!((true, expected_end), result_context);
    assert_eq!(ExpressionNode::Power{
        position: ParsePosition {
            start: ScanPosition::new(1, 1, 0, 0, 0),
            end: expected_end
        },
        base: Box::new(ExpressionNode::Parenthesis {
            position: ParsePosition {
                start: ScanPosition::new(1, 1, 0, 0, 0),
                end: ScanPosition::new(8, 8, 0, 0, 0)
            },
            sign: SignType::Positive,
            inner: Box::new(ExpressionNode::Sum{
                position: ParsePosition {
                    start: ScanPosition::new(2, 2, 0, 0, 0),
                    end: ScanPosition::new(7, 7, 0, 0, 0)
                },
                operands: vec!(
                    ExpressionNode::Decimal {
                        position: ParsePosition {
                            start: ScanPosition::new(2, 2, 0, 0, 0),
                            end: ScanPosition::new(5, 5, 0, 0, 0)
                        },
                        value: decimal_literal(false, &[], 0)
                    },
                    ExpressionNode::Integer {
                        position: ParsePosition {
                            start: ScanPosition::new(6, 6, 0, 0, 0),
                            end: ScanPosition::new(7, 7, 0, 0, 0)
                        },
                        value: 2
                    },
                ),
            }),
        }),
        exponent: Box::new(ExpressionNode::Parenthesis {
            position: ParsePosition {
                start: ScanPosition::new(9, 9, 0, 0, 0),
                end: ScanPosition::new(16, 16, 0, 0, 0)
            },
            sign: SignType::Positive,
            inner: Box::new(ExpressionNode::Sum{
                position: ParsePosition {
                    start: ScanPosition::new(10, 10, 0, 0, 0),
                    end: ScanPosition::new(15, 15, 0, 0, 0)
                },
                operands: vec!(
                    ExpressionNode::Decimal {
                        position: ParsePosition {
                            start: ScanPosition::new(10, 10, 0, 0, 0),
                            end: ScanPosition::new(13, 13, 0, 0, 0)
                        },
                        value: decimal_literal(false, &[1], 0)
                    },
                    ExpressionNode::Integer {
                        position: ParsePosition {
                            start: ScanPosition::new(14, 14, 0, 0, 0),
                            end: ScanPosition::new(15, 15, 0, 0, 0)
                        },
                        value: 2
                    },
                ),
            }),
        }),
    }, result_node);
}

#[test]
fn parse_test_parse_expression() {
    let s = " ( 1234 ) - -2^16 - -( 30.0^2 + 78.0  ) ";
    let start = ScanPosition::new(0, 0, 0, 0, 0);
    let context = (true, start);

    let (result_context, result_node) = parse_expression(s, context).unwrap();
    // println!("{:?}", result_node);
    let expected_end = ScanPosition::new(s.len() - 1, s.chars().count() - 1, 0, 0, 0);
    assert_eq!((true, expected_end), result_context);
    assert_eq!(ExpressionNode::Difference {
        position: ParsePosition {
            start: ScanPosition::new(1, 1, 0, 0, 0),
            end: expected_end
        },
        operands: vec!(
            ExpressionNode::Parenthesis {
                position: ParsePosition {
                    start: ScanPosition::new(1, 1, 0, 0, 0),
                    end: ScanPosition::new(9, 9, 0, 0, 0)
                },
                sign: SignType::Positive,
                inner: Box::new(ExpressionNode::Integer {
                    position: ParsePosition {
                        start: ScanPosition::new(3, 3, 0, 0, 0),
                        end: ScanPosition::new(7, 7, 0, 0, 0)
                    },
                    value: 1234
                }),
            },
            ExpressionNode::Power {
                position: ParsePosition {
                    start: ScanPosition::new(12, 12, 0, 0, 0),
                    end: ScanPosition::new(17, 17, 0, 0, 0)
                },
                base: Box::new(ExpressionNode::Integer {
                    position: ParsePosition {
                        start: ScanPosition::new(12, 12, 0, 0, 0),
                        end: ScanPosition::new(14, 14, 0, 0, 0)
                    },
                    value: -2
                }),
                exponent: Box::new(ExpressionNode::Integer {
                    position: ParsePosition {
                        start: ScanPosition::new(15, 15, 0, 0, 0),
                        end: ScanPosition::new(17, 17, 0, 0, 0)
                    },
                    value: 16
                }),
            },
            ExpressionNode::Parenthesis {
                position: ParsePosition {
                    start: ScanPosition::new(20, 20, 0, 0, 0),
                    end: ScanPosition::new(39, 39, 0, 0, 0)
                },
                sign: SignType::Negative,
                inner: Box::new(ExpressionNode::Sum{
                    position: ParsePosition {
                        start: ScanPosition::new(23, 23, 0, 0, 0),
                        end: ScanPosition::new(36, 36, 0, 0, 0)
                    },
                    operands: vec!(
                        ExpressionNode::Power {
                            position: ParsePosition {
                                start: ScanPosition::new(23, 23, 0, 0, 0),
                                end: ScanPosition::new(29, 29, 0, 0, 0)
                            },
                            base: Box::new(ExpressionNode::Decimal {
                                position: ParsePosition {
                                    start: ScanPosition::new(23, 23, 0, 0, 0),
                                    end: ScanPosition::new(27, 27, 0, 0, 0)
                                },
                                value: decimal_literal(false, &[3], 1)
                            }),
                            exponent: Box::new(ExpressionNode::Integer {
                                position: ParsePosition {
                                    start: ScanPosition::new(28, 28, 0, 0, 0),
                                    end: ScanPosition::new(29, 29, 0, 0, 0)
                                },
                                value: 2
                            }),
                        },
                        ExpressionNode::Decimal {
                            position: ParsePosition {
                                start: ScanPosition::new(32, 32, 0, 0, 0),
                                end: ScanPosition::new(36, 36, 0, 0, 0)
                            },
                            value: decimal_literal(false, &[7, 8], 0)
                        },
                    ),
                }),
            },
        )
    }, result_node);
}

