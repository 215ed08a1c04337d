use calc_expr::expression::{parse_expression, SyntaxError};
use calc_expr::parser::{
    determine_precedence, int_of_digits, NodeBinExpr, NodeExpr, NodeExprCos, NodeExprFloat,
    NodeExprInt, NodeExprLn, NodeExprLog, NodeExprSin, Operation, ParseError, Parser,
};
use calc_expr::tokenizer::{Token, TokenType, TokenizeError, Tokenizer};

fn create_parser(input: &str) -> Parser {
    let mut tokenizer = Tokenizer::new(input);
    let tokens = tokenizer.tokenize().unwrap();
    Parser::new(tokens)
}

fn int_leaf(val: i32) -> NodeExpr {
    NodeExpr::INT(Box::new(NodeExprInt { val }))
}

fn bin(operation: Operation, lhs: NodeExpr, rhs: NodeExpr) -> NodeExpr {
    NodeExpr::BIN(Box::new(NodeBinExpr { operation, lhs, rhs }))
}

#[test]
fn test_parse_number() {
    let mut parser = create_parser("42");
    assert_eq!(parser.parse(), Ok(NodeExpr::INT(Box::from(NodeExprInt { val: 42 }))));
}

#[test]
fn test_parse_float() {
    let mut parser = create_parser("3.14");
    match parser.parse() {
        Ok(NodeExpr::FLOAT(f)) => {
            assert_eq!(f.val, "3.14");
            assert_eq!(f.val.parse::<f32>().unwrap(), 3.14);
        }
        other => panic!("not a float literal: {:?}", other),
    }
}

#[test]
fn test_simple_addition() {
    let mut parser = create_parser("1 + 2");
    let expected = Ok(NodeExpr::BIN(Box::from(NodeBinExpr {
        operation: Operation::ADD,
        lhs: NodeExpr::INT(Box::from(NodeExprInt { val: 1 })),
        rhs: NodeExpr::INT(Box::from(NodeExprInt { val: 2 })),
    })));
    assert_eq!(parser.parse(), expected);
}

#[test]
fn test_precedence() {
    let mut parser = create_parser("1 + 2 * 3");
    let expected = Ok(NodeExpr::BIN(Box::from(NodeBinExpr {
        operation: Operation::ADD,
        lhs: NodeExpr::INT(Box::from(NodeExprInt { val: 1 })),
        rhs: NodeExpr::BIN(Box::from(NodeBinExpr {
            operation: Operation::MUL,
            lhs: NodeExpr::INT(Box::from(NodeExprInt { val: 2 })),
            rhs: NodeExpr::INT(Box::from(NodeExprInt { val: 3 })),
        })),
    })));
    assert_eq!(parser.parse(), expected);
}

#[test]
fn test_parentheses() {
    let mut parser = create_parser("(1 + 2) * 3");
    let expected = Ok(NodeExpr::BIN(Box::new(NodeBinExpr {
        operation: Operation::MUL,
        lhs: NodeExpr::BIN(Box::new(NodeBinExpr {
            operation: Operation::ADD,
            lhs: NodeExpr::INT(Box::new(NodeExprInt { val: 1 })),
            rhs: NodeExpr::INT(Box::new(NodeExprInt { val: 2 })),
        })),
        rhs: NodeExpr::INT(Box::new(NodeExprInt { val: 3 })),
    })));
    assert_eq!(parser.parse(), expected);
}

#[test]
fn test_missing_closing_parenthesis() {
    let mut parser = create_parser("(1 + 2");
    assert_eq!(parser.parse(), Err(ParseError::UnmatchedParenthesis));
}

#[test]
fn largest_integer_literal() {
    let mut parser = create_parser("2147483647");
    assert_eq!(parser.parse(), Ok(int_leaf(i32::MAX)));
}

#[test]
fn integer_literal_overflow() {
    let mut parser = create_parser("2147483648");
    assert_eq!(parser.parse(), Err(ParseError::NumericLiteralOverflow("2147483648".to_string())));
}

#[test]
fn int_of_digits_values() {
    assert_eq!(int_of_digits(&"0".to_string()), Some(0));
    assert_eq!(int_of_digits(&"007".to_string()), Some(7));
    assert_eq!(int_of_digits(&"65536".to_string()), Some(65536));
    assert_eq!(int_of_digits(&"99999999999".to_string()), None);
}

#[test]
fn base_two_logarithm_call() {
    let mut parser = create_parser("log(1024)");
    assert_eq!(parser.parse(), Ok(NodeExpr::LOG(Box::new(NodeExprLog { expr: int_leaf(1024) }))));
}

#[test]
fn functions_wrap_one_operand() {
    let mut parser = create_parser("sin(1) + cos(2) * ln((3 - 4))");
    let expected = bin(
        Operation::ADD,
        NodeExpr::SIN(Box::new(NodeExprSin { expr: int_leaf(1) })),
        bin(
            Operation::MUL,
            NodeExpr::COS(Box::new(NodeExprCos { expr: int_leaf(2) })),
            NodeExpr::LN(Box::new(NodeExprLn { expr: bin(Operation::SUB, int_leaf(3), int_leaf(4)) })),
        ),
    );
    assert_eq!(parser.parse(), Ok(expected));
}

#[test]
fn equal_precedence_groups_from_the_left() {
    let mut parser = create_parser("2 ^ 3 ^ 2");
    let expected = bin(Operation::EXP, bin(Operation::EXP, int_leaf(2), int_leaf(3)), int_leaf(2));
    assert_eq!(parser.parse(), Ok(expected));

    let mut parser = create_parser("8 - 4 / 2 - 1");
    let expected = bin(
        Operation::SUB,
        bin(Operation::SUB, int_leaf(8), bin(Operation::DIV, int_leaf(4), int_leaf(2))),
        int_leaf(1),
    );
    assert_eq!(parser.parse(), Ok(expected));
}

#[test]
fn tighter_operator_after_a_looser_one() {
    let mut parser = create_parser("1 + 2 ^ 3 * 4");
    let expected = bin(
        Operation::ADD,
        int_leaf(1),
        bin(Operation::MUL, bin(Operation::EXP, int_leaf(2), int_leaf(3)), int_leaf(4)),
    );
    assert_eq!(parser.parse(), Ok(expected));
}

#[test]
fn function_argument_is_one_operand() {
    let mut parser = create_parser("sin(1 + 2)");
    assert_eq!(parser.parse(), Err(ParseError::UnmatchedParenthesis));
}

#[test]
fn function_without_parenthesis() {
    let mut parser = create_parser("sin 1");
    assert_eq!(parser.parse(), Err(ParseError::MissingFunctionCallParens));
}

#[test]
fn function_without_operand() {
    let mut parser = create_parser("cos(");
    assert_eq!(parser.parse(), Err(ParseError::MissingFunctionOperand));
}

#[test]
fn operand_cannot_start_with_an_operator() {
    let mut parser = create_parser("* 2");
    assert_eq!(parser.parse(), Err(ParseError::UnexpectedToken(TokenType::MUL)));
    let mut parser = create_parser("()");
    assert_eq!(parser.parse(), Err(ParseError::UnexpectedToken(TokenType::CloseParen)));
}

#[test]
fn input_ends_where_an_operand_is_due() {
    let mut parser = create_parser("");
    assert_eq!(parser.parse(), Err(ParseError::UnexpectedEndOfInput));
    let mut parser = create_parser("1 +");
    assert_eq!(parser.parse(), Err(ParseError::UnexpectedEndOfInput));
    let mut parser = create_parser("(1 +");
    assert_eq!(parser.parse(), Err(ParseError::UnmatchedParenthesis));
}

#[test]
fn tokens_after_the_expression_are_left() {
    let mut parser = create_parser("1 2");
    assert_eq!(parser.parse(), Ok(int_leaf(1)));
    assert_eq!(parser.token_index, 1);
}

#[test]
fn next_op_respects_the_minimum() {
    let parser = create_parser("* 1");
    assert_eq!(parser.next_op(1), Some((Operation::MUL, 1)));
    assert_eq!(parser.next_op(2), None);
    let parser = create_parser("1");
    assert_eq!(parser.next_op(0), None);
}

#[test]
fn parser_peek_and_consume() {
    let mut parser = create_parser("( 1");
    assert_eq!(parser.peek(), Some(&Token { token_type: TokenType::OpenParen, value: None }));
    assert_eq!(
        parser.consume(),
        Some(&Token { token_type: TokenType::OpenParen, value: None })
    );
    assert_eq!(parser.peek().map(|t| t.token_type), Some(TokenType::INT));
    assert!(parser.consume().is_some());
    assert_eq!(parser.consume(), None);
}

#[test]
fn precedence_levels() {
    assert_eq!(determine_precedence(&TokenType::ADD), 0);
    assert_eq!(determine_precedence(&TokenType::SUB), 0);
    assert_eq!(determine_precedence(&TokenType::MUL), 1);
    assert_eq!(determine_precedence(&TokenType::DIV), 1);
    assert_eq!(determine_precedence(&TokenType::EXP), 2);
    assert_eq!(determine_precedence(&TokenType::OpenParen), -1);
}

#[test]
fn parse_bin_expr_from_a_given_operand() {
    let mut parser = create_parser("* 3 + 4");
    assert_eq!(
        parser.parse_bin_expr(int_leaf(2), 1),
        Ok(bin(Operation::MUL, int_leaf(2), int_leaf(3)))
    );
    assert_eq!(parser.token_index, 2);
}

#[test]
fn parse_expression_from_text() {
    assert_eq!(
        parse_expression("(1 + 2) * 3"),
        Ok(bin(Operation::MUL, bin(Operation::ADD, int_leaf(1), int_leaf(2)), int_leaf(3)))
    );
    assert_eq!(
        parse_expression("(1 + 2"),
        Err(SyntaxError::Parse(ParseError::UnmatchedParenthesis))
    );
    assert_eq!(
        parse_expression("abc"),
        Err(SyntaxError::Tokenize(TokenizeError::InvalidFunctionName("abc".to_string())))
    );
    assert_eq!(
        parse_expression("1.2.3"),
        Err(SyntaxError::Tokenize(TokenizeError::MalformedNumber("1.2.3".to_string())))
    );
}

#[test]
fn float_literal_keeps_its_text() {
    match parse_expression("0.5_0 + 1") {
        Ok(NodeExpr::BIN(b)) => {
            assert_eq!(b.lhs, NodeExpr::FLOAT(Box::new(NodeExprFloat { val: "0.50".to_string() })));
            assert_eq!(b.rhs, int_leaf(1));
        }
        other => panic!("not a sum: {:?}", other),
    }
}
