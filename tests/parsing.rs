use scanner::lexer::{Expression, Literal};
use scanner::tokens::{Token, TokenType};
use scanner::{Parser, Scanner};
use std::rc::Rc;

#[test]
fn test_parser() {
    let input = "1 + 2 * 3";
    let mut scanner = Scanner::new(input);
    let tokens = scanner.scan_tokens();
    let mut parser = Parser::new(tokens);
    let expression = parser.parse().unwrap();

    assert_eq!(expression, Expression::Binary {
        left: Rc::new(Expression::Literal(Literal::NUMBER(Token::new(TokenType::Number, "1".to_string(), Some("1".to_string()), 1)))),
        operator: Token::new(TokenType::Plus, "+".to_string(), None, 1),
        right: Rc::new(Expression::Binary {
            left: Rc::new(Expression::Literal(Literal::NUMBER(Token::new(TokenType::Number, "2".to_string(), Some("2".to_string()), 1)))),
            operator: Token::new(TokenType::Star, "*".to_string(), None, 1),
            right: Rc::new(Expression::Literal(Literal::NUMBER(Token::new(TokenType::Number, "3".to_string(), Some("3".to_string()), 1)))),
        }),
    });


}

#[test]
fn test_parser2() {
    let input = "1 + 2 * 3 - 4";
    let mut scanner = Scanner::new(input);
    let tokens = scanner.scan_tokens();
    let mut parser = Parser::new(tokens);
    let expression = parser.parse().unwrap();
    assert!(matches!(expression, Expression::Binary {
        left: _,
        operator: _,
        right: _,
    }));

}

#[test]
fn test_grouping() {
    let input = "(1 + 2) * 3 - 4";
    println!("Test Grouping");
    let mut scanner = Scanner::new(input);
    let tokens = scanner.scan_tokens();
    let mut parser = Parser::new(tokens);
    let expression = parser.parse().unwrap();
    assert!(matches!(expression, Expression::Binary {
        left: _,
        operator: _,
        right: _,
    }));
}

#[test]
fn test_unary() {
    let input = "-1";
    let mut scanner = Scanner::new(input);
    let tokens = scanner.scan_tokens();
    let mut parser = Parser::new(tokens);
    let expression = parser.parse().unwrap();
    assert!(matches!(expression, Expression::Unary {
        operator: _,
        value: _,
    }));
}

#[test]
fn test_primary() {
    let input = "1";
    let mut scanner = Scanner::new(input);
    let tokens = scanner.scan_tokens();
    let mut parser = Parser::new(tokens);
    let expression = parser.parse().unwrap();
    assert!(matches!(expression, Expression::Literal(Literal::NUMBER(_))));
}

#[test]
fn test_factor() {
    let input = "1 * 2";
    let mut scanner = Scanner::new(input);
    let tokens = scanner.scan_tokens();
    let mut parser = Parser::new(tokens);
    let expression = parser.parse().unwrap();
    assert!(matches!(expression, Expression::Binary {
        left: _,
        operator: _,
        right: _,
    }));
}

#[test]
fn test_term() {
    let input = "1 + 2";
    let mut scanner = Scanner::new(input);
    let tokens = scanner.scan_tokens();
    let mut parser = Parser::new(tokens);
    let expression = parser.parse().unwrap();
    assert!(matches!(expression, Expression::Binary {
        left: _,
        operator: _,
        right: _,
    }));
}

#[test]
fn test_comparison() {
    let input = "1 > 2";
    let mut scanner = Scanner::new(input);
    let tokens = scanner.scan_tokens();
    let mut parser = Parser::new(tokens);
    let expression = parser.parse().unwrap();
    assert!(matches!(expression, Expression::Binary {
        left: _,
        operator: _,
        right: _,
    }));
}

#[test]
fn test_equality() {
    let input = "1 == 2";
    let mut scanner = Scanner::new(input);
    let tokens = scanner.scan_tokens();
    let mut parser = Parser::new(tokens);
    let expression = parser.parse().unwrap();
    assert!(matches!(expression, Expression::Binary {
        left: _,
        operator: _,
        right: _,
    }));
}

#[test]
fn parser_test_expression() {
    let input = "1";
    let mut scanner = Scanner::new(input);
    let tokens = scanner.scan_tokens();
    let mut parser = Parser::new(tokens);
    let expression = parser.parse().unwrap();
    assert!(matches!(expression, Expression::Literal(Literal::NUMBER(_))));
}
