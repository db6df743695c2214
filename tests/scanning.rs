use scanner::tokens::{Token, TokenType};
use scanner::Scanner;

#[test]
fn test_token() {
    let token = Token::new(TokenType::And, "and".to_string(), None, 1);
    assert_eq!(token.into_string(), "And and");
}

#[test]
fn test_word() {
    let mut scanner = Scanner::new("and");
    let tokens = scanner.scan_tokens();
    println!("{:?}", tokens);
    assert_eq!(tokens.len(), 2 as usize);
    assert_eq!(tokens[0].clone().into_string(), "And and");
    assert_eq!(tokens[1].clone().into_string(), "Eof ");
}

#[test]
fn test_string() {
    let mut scanner = Scanner::new(format!("{}and{}", '"', '"').as_str());
    let tokens = scanner.scan_tokens();
    println!("{:?}", tokens);
    assert_eq!(tokens.len(), 2 as usize);
    assert_eq!(tokens[1].clone().into_string(), "Eof ");
}

#[test]
fn test_number() {
    let mut scanner = Scanner::new("123");
    let tokens = scanner.scan_tokens();
    println!("{:?}", tokens);
    assert_eq!(tokens.len(), 2 as usize);
    assert_eq!(tokens[0].clone().into_string(), "Number 123");
    assert_eq!(tokens[1].clone().into_string(), "Eof ");
}

#[test]
fn test_block() {
    let block_comment = "hello //* hello * hello  *//";
    let mut scanner = Scanner::new(block_comment);
    let tokens = scanner.scan_tokens();
    println!("{:?}", tokens);
    assert_eq!(tokens[0].clone().into_string(), "Identifier hello");
}

#[test]
fn test_line() {
    let block_comment = "hello //* hello * hello  *//";
    let mut scanner = Scanner::new(block_comment);
    let tokens = scanner.scan_tokens();
    println!("{:?}", tokens);
    assert_eq!(tokens[0].clone().into_string(), "Identifier hello");
}

#[test]
fn test_line_comment() {
    let block_comment = "hello // hello * hello  *//";
    let mut scanner = Scanner::new(block_comment);
    let tokens = scanner.scan_tokens();
    println!("{:?}", tokens);
    assert_eq!(tokens[0].clone().into_string(), "Identifier hello");
}

#[test]
fn lib_test_expression() {
    let block_comment = "1 + 2";
    let mut scanner = Scanner::new(block_comment);
    let tokens = scanner.scan_tokens();
    println!("{:?}", tokens);
    assert_eq!(tokens[0].clone().into_string(), "Number 1");
    assert_eq!(tokens[1].clone().into_string(), "Plus +");
    assert_eq!(tokens[2].clone().into_string(), "Number 2");
}
