use rollkit::{parse, parse_integer, BinaryOperator, Expr, Literal, RangeLiteral};

#[test]
fn test_integer_parsing() {
    let cases = vec![
        ("42", Ok(42)),
        ("-42", Ok(-42)),
        ("9223372036854775807", Ok(9223372036854775807)),
        ("-9223372036854775808", Ok(-9223372036854775808)),
        ("9223372036854775808", Err(())),  // Overflow
        ("-9223372036854775809", Err(())), // Underflow
    ];

    for (input, expected) in cases {
        let result = parse_integer(input);
        match (&result, expected) {
            (Ok(val), Ok(exp)) => assert_eq!(*val, exp, "Input: {}", input),
            (Err(_), Err(())) => {} // Expected error
            _ => panic!("Unexpected result for input {}: {:?}", input, result),
        }
    }
}

#[test]
fn test_parse_overflow_literals() {
    assert!(parse("9223372036854775807").is_ok());
    assert!(parse("9223372036854775808").is_err());
    assert!(parse("-9223372036854775808").is_ok());
    assert!(parse("-9223372036854775809").is_err());
    let errs = parse("9223372036854775808").unwrap_err();
    assert_eq!(errs.len(), 1);
    assert_eq!(errs[0].message, "illegal integer literal: out of range");
    assert_eq!(errs[0].start, 0);
    assert_eq!(errs[0].end, 19);
}

#[test]
fn test_format_inline() {
    let expr = parse("2d6 + 3").unwrap();
    assert_eq!(expr.format_inline(), "((2 d 6) + 3)");
}

#[test]
fn test_parse_structure() {
    assert_eq!(
        parse("2d6 + 3"),
        Ok(Expr::BinaryOp {
            left: Box::new(Expr::BinaryOp {
                left: Box::new(Expr::Literal(Literal::Int(2))),
                op: BinaryOperator::DiceRoll,
                right: Box::new(Expr::Literal(Literal::Int(6))),
            }),
            op: BinaryOperator::Addition,
            right: Box::new(Expr::Literal(Literal::Int(3))),
        })
    );
}

#[test]
fn test_precedence_and_associativity() {
    assert_eq!(parse("1+2*3").unwrap().format_inline(), "(1 + (2 * 3))");
    assert_eq!(parse("4d6kh3").unwrap().format_inline(), "((4 d 6) kh 3)");
    assert_eq!(parse("2d3d4").unwrap().format_inline(), "(2 d (3 d 4))");
    assert_eq!(parse("1-2-3").unwrap().format_inline(), "((1 - 2) - 3)");
    assert_eq!(parse("1<2<3").unwrap().format_inline(), "((1 < 2) < 3)");
    assert_eq!(parse("1 <= 2 == 0").unwrap().format_inline(), "((1 <= 2) == 0)");
    assert_eq!(parse("2*3+4").unwrap().format_inline(), "((2 * 3) + 4)");
    assert_eq!(parse("(1+2)*3").unwrap().format_inline(), "((1 + 2) * 3)");
}

#[test]
fn test_parse_lists_and_strong_lists() {
    assert_eq!(parse("{1,2,3}"), Ok(Expr::Literal(Literal::List(vec![1, 2, 3]))));
    assert_eq!(parse("{5}"), Ok(Expr::Literal(Literal::List(vec![5]))));
    assert_eq!(parse("{1, 2, 3,}"), Ok(Expr::Literal(Literal::List(vec![1, 2, 3]))));
    let strong = parse("{2d6}").unwrap();
    assert!(matches!(strong, Expr::StrongList(_)));
    assert_eq!(strong.format_inline(), "{(2 d 6)}");
}

#[test]
fn test_parse_brace_errors() {
    // empty braces, and mixed contents with several elements, are errors
    assert!(parse("{}").is_err());
    assert!(parse("{1, 2d6}").is_err());
    let errs = parse("{1, 2d6}").unwrap_err();
    assert!(errs[0]
        .message
        .contains("all integers (a list) or a single expression (a strong list)"));
}

#[test]
fn test_parse_ranges() {
    assert_eq!(
        parse("[1, 10, 2]"),
        Ok(Expr::Literal(Literal::Range(RangeLiteral {
            start: 1,
            end: 10,
            step: Some(2),
        })))
    );
    assert_eq!(
        parse("[1, 10]"),
        Ok(Expr::Literal(Literal::Range(RangeLiteral {
            start: 1,
            end: 10,
            step: None,
        })))
    );
    assert!(parse("[1, 10, 2] + 5").is_ok());
    assert_eq!(parse("[1, 10, 2]").unwrap().format_inline(), "[1, 10, 2]");
    assert_eq!(parse("[1, 10]").unwrap().format_inline(), "[1, 10]");
}

#[test]
fn test_parse_function_calls() {
    assert!(parse("max(3d6)").is_ok());
    assert_eq!(parse("max(3d6)").unwrap().format_inline(), "max((3 d 6))");
    assert_eq!(parse("min(1, 2, 3)").unwrap().format_inline(), "min(1, 2, 3)");
    assert_eq!(parse("f()").unwrap().format_inline(), "f()");
    // a bare identifier without an argument list is not an expression
    assert!(parse("max").is_err());
}

#[test]
fn test_parse_rejects_bad_input() {
    assert!(parse("1+").is_err());
    assert!(parse("").is_err());
    assert!(parse("1 2").is_err());
    assert!(parse("(1+2").is_err());
    assert!(parse("$").is_err());
    let errs = parse("1 2").unwrap_err();
    assert!(!errs.is_empty());
}

#[test]
fn test_parse_dice_on_list() {
    assert!(parse("4d{1,2,3}kh2").is_ok());
    assert_eq!(parse("4d{1,2,3}kh2").unwrap().format_inline(), "((4 d {1, 2, 3}) kh 2)");
}
