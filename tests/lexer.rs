use scanner::lexer::{Expression, Literal};
use scanner::tokens::{Token, TokenType};
use std::rc::Rc;

#[test]
fn print_number_literal() {
    let expr = Expression::Literal(Literal::NUMBER(Token {
        token_type: TokenType::Number,
        lexeme: "42".to_string(),
        literal: None,
        line: 1,
    }));

    assert_eq!(Rc::new(expr).print(), "42");
}

#[test]
fn print_unary_expression() {
    let expr = Expression::Unary {
        operator: Token {
            token_type: TokenType::Minus,
            lexeme: "-".to_string(),
            literal: None,
            line: 1,
        },
        value: Rc::new(Expression::Literal(Literal::NUMBER(Token {
            token_type: TokenType::Number,
            lexeme: "42".to_string(),
            literal: None,
            line: 1,
        }))),
    };

    assert_eq!(Rc::new(expr).print(), "(- 42)");
}

#[test]
fn print_binary_expression() {
    let left = Rc::new(Expression::Literal(Literal::NUMBER(Token {
        token_type: TokenType::Number,
        lexeme: "1".to_string(),
        literal: None,
        line: 1,
    })));

    let right = Rc::new(Expression::Literal(Literal::NUMBER(Token {
        token_type: TokenType::Number,
        lexeme: "2".to_string(),
        literal: None,
        line: 1,
    })));

    let expr = Expression::Binary {
        left,
        operator: Token {
            token_type: TokenType::Plus,
            lexeme: "+".to_string(),
            literal: None,
            line: 1,
        },
        right,
    };

    assert_eq!(Rc::new(expr).print(), "(+ 1 2)");
}

#[test]
fn print_grouping_expression() {
    let expr = Expression::Grouping {
        interior: Rc::new(Expression::Literal(Literal::NUMBER(Token {
            token_type: TokenType::Number,
            lexeme: "42".to_string(),
            literal: None,
            line: 1,
        })),
        ),
    };

    assert_eq!(Rc::new(expr).print(), "(group 42)");
}

#[test]
fn print_nested_expression() {
    let left = Rc::new(Expression::Literal(Literal::NUMBER(Token {
        token_type: TokenType::Number,
        lexeme: "1".to_string(),
        literal: None,
        line: 1,
    })));

    let right = Rc::new(Expression::Literal(Literal::NUMBER(Token {
        token_type: TokenType::Number,
        lexeme: "2".to_string(),
        literal: None,
        line: 1,
    })));

    let expr = Expression::Binary {
        left,
        operator: Token {
            token_type: TokenType::Plus,
            lexeme: "+".to_string(),
            literal: None,
            line: 1,
        },
        right,
    };

    let outer_expr = Expression::Unary {
        operator: Token {
            token_type: TokenType::Minus,
            lexeme: "-".to_string(),
            literal: None,
            line: 1,
        },
        value: Rc::new(expr),
    };

    assert_eq!(Rc::new(outer_expr).print(), "(- (+ 1 2))");
}

#[test]
fn print_literal_nil() {
    let expr = Expression::Literal(Literal::KEYWORD(Token {
        token_type: TokenType::Nil,
        lexeme: "nil".to_string(),
        literal: None,
        line: 1,
    }));

    assert_eq!(Rc::new(expr).print(), "nil");
}
