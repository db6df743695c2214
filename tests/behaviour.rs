use scanner::errors::{error, token_error};
use scanner::helpers::{is_alpha, is_alphanumeric, is_digit};
use scanner::lexer::{Expression, Literal, AST};
use scanner::tokens::{Keywords, Token, TokenType};
use scanner::{Parser, Scanner};
use std::rc::Rc;

fn scan(source: &str) -> (Vec<Token>, Vec<String>) {
    let mut scanner = Scanner::new(source);
    let tokens = scanner.scan_tokens();
    let diagnostics = scanner.diagnostics().iter().map(|d| d.text()).collect();
    (tokens, diagnostics)
}

fn texts(tokens: &[Token]) -> Vec<String> {
    tokens.iter().map(|t| t.clone().into_string()).collect()
}

fn render(source: &str) -> Option<String> {
    let (tokens, _) = scan(source);
    let mut parser = Parser::new(tokens);
    parser.parse().map(|e| e.print())
}

#[test]
fn precedence_of_factor_over_term() {
    assert_eq!(render("1 + 2 * 3").unwrap(), "(+ 1 (* 2 3))");
}

#[test]
fn subtraction_associates_left() {
    assert_eq!(render("1 - 2 - 3").unwrap(), "(- (- 1 2) 3)");
}

#[test]
fn grouping_overrides_precedence() {
    assert_eq!(render("(1 + 2) * 3").unwrap(), "(* (group (+ 1 2)) 3)");
}

#[test]
fn unary_operators_nest() {
    assert_eq!(render("-1").unwrap(), "(- 1)");
    assert_eq!(render("!!true").unwrap(), "(! (! true))");
}

#[test]
fn comparison_and_equality_levels() {
    assert_eq!(render("1 < 2 == 3 >= 4").unwrap(), "(== (< 1 2) (>= 3 4))");
    assert_eq!(render("1 != 2 / 3").unwrap(), "(!= 1 (/ 2 3))");
}

#[test]
fn rendering_is_stable_on_literals() {
    for source in ["42", "4.25", "\"text\"", "true", "false", "nil"] {
        let once = render(source).unwrap();
        let twice = render(&once).unwrap();
        assert_eq!(once, twice);
        assert_eq!(once, source);
    }
}

#[test]
fn empty_input_gives_only_end_of_input() {
    let (tokens, diagnostics) = scan("");
    assert_eq!(texts(&tokens), vec!["Eof "]);
    assert!(diagnostics.is_empty());
}

#[test]
fn exactly_one_end_of_input_at_the_end() {
    let (tokens, _) = scan("var x = (1 + \"a\") // c\n/* d */ @");
    let eofs = tokens.iter().filter(|t| t.token_type == TokenType::Eof).count();
    assert_eq!(eofs, 1);
    assert_eq!(tokens.last().unwrap().token_type, TokenType::Eof);
}

#[test]
fn number_literals_carry_their_canonical_value() {
    let (tokens, _) = scan("007.50 3.0 12 0");
    let literals: Vec<Option<String>> = tokens.iter().map(|t| t.literal.clone()).collect();
    assert_eq!(
        literals,
        vec![
            Some("7.5".to_string()),
            Some("3".to_string()),
            Some("12".to_string()),
            Some("0".to_string()),
            None
        ]
    );
    assert_eq!(tokens[0].lexeme, "007.50");
}

#[test]
fn trailing_point_is_not_part_of_a_number() {
    let (tokens, _) = scan("1.");
    assert_eq!(texts(&tokens), vec!["Number 1", "Dot .", "Eof "]);
}

#[test]
fn string_literal_is_the_text_between_quotes() {
    let (tokens, diagnostics) = scan("\"a\nb\nc\" x");
    assert_eq!(tokens[0].token_type, TokenType::String);
    assert_eq!(tokens[0].lexeme, "\"a\nb\nc\"");
    assert_eq!(tokens[0].literal, Some("a\nb\nc".to_string()));
    assert_eq!(tokens[0].line, 1);
    assert_eq!(tokens[1].line, 3);
    assert_eq!(tokens[2].line, 3);
    assert!(diagnostics.is_empty());
    let (tokens, _) = scan("\"and\"");
    assert_eq!(tokens[0].clone().into_string(), "String \"and\"");
}

#[test]
fn unterminated_string_reports_once() {
    let (tokens, diagnostics) = scan("1 \"abc\ndef");
    assert_eq!(texts(&tokens), vec!["Number 1", "String \"abc\ndef", "Eof "]);
    assert_eq!(tokens[1].literal, Some("abc\ndef".to_string()));
    assert_eq!(diagnostics, vec!["[line 2] Error : Error: Unterminated string"]);
}

#[test]
fn block_comment_counts_lines() {
    let (tokens, diagnostics) = scan("a /* x\n * y\n */ b");
    assert_eq!(texts(&tokens), vec!["Identifier a", "Identifier b", "Eof "]);
    assert_eq!(tokens[1].line, 3);
    assert!(diagnostics.is_empty());
}

#[test]
fn unterminated_block_comment_is_reported() {
    let (tokens, diagnostics) = scan("a /* x\n");
    assert_eq!(texts(&tokens), vec!["Identifier a", "Eof "]);
    assert_eq!(diagnostics, vec!["[line 2] Error : Error: Unterminated block comment"]);
}

#[test]
fn unexpected_character_is_reported_and_skipped() {
    let (tokens, diagnostics) = scan("1 @ 2");
    assert_eq!(texts(&tokens), vec!["Number 1", "Number 2", "Eof "]);
    assert_eq!(diagnostics, vec!["[line 1] Error : Unexpected character."]);
}

#[test]
fn operators_of_one_and_two_characters() {
    let (tokens, _) = scan("! != = == < <= > >= / ( ) { } , . - + ; *");
    assert_eq!(
        texts(&tokens),
        vec![
            "Bang !",
            "BangEqual !=",
            "Equal =",
            "EqualEqual ==",
            "Less <",
            "LessEqual <=",
            "Greater >",
            "GreaterEqual >=",
            "Slash /",
            "LeftParen (",
            "RightParen )",
            "LeftBrace {",
            "RightBrace }",
            "Comma ,",
            "Dot .",
            "Minus -",
            "Plus +",
            "Semicolon ;",
            "Star *",
            "Eof "
        ]
    );
}

#[test]
fn keywords_and_identifiers() {
    let (tokens, _) = scan("while whiles _x1 nil");
    assert_eq!(texts(&tokens), vec!["While while", "Identifier whiles", "Identifier _x1", "Nil nil", "Eof "]);
    let keywords = Keywords::new();
    assert_eq!(keywords.get(&"return".to_string()), TokenType::Return);
    assert_eq!(keywords.get(&"Return".to_string()), TokenType::Identifier);
}

#[test]
fn missing_closing_parenthesis_is_reported() {
    let (tokens, _) = scan("(1 + 2");
    let mut parser = Parser::new(tokens);
    let expression = parser.parse().unwrap();
    assert_eq!(expression.print(), "(group (+ 1 2))");
    let texts: Vec<String> = parser.diagnostics().iter().map(|d| d.text()).collect();
    assert_eq!(texts, vec!["[line 1] Error  at end : Expect ) after expression"]);
}

#[test]
fn missing_operand_is_reported() {
    let (tokens, _) = scan("1 + ;");
    let mut parser = Parser::new(tokens);
    assert!(parser.parse().is_none());
    let texts: Vec<String> = parser.diagnostics().iter().map(|d| d.text()).collect();
    assert_eq!(texts, vec!["[line 1] Error at ';': Expect expression"]);
    let (tokens, _) = scan("");
    let mut parser = Parser::new(tokens);
    assert!(parser.parse().is_none());
    let texts: Vec<String> = parser.diagnostics().iter().map(|d| d.text()).collect();
    assert_eq!(texts, vec!["[line 1] Error  at end : Expect expression"]);
}

#[test]
fn diagnostics_format() {
    assert_eq!(error(12, "bad").text(), "[line 12] Error : bad");
    let token = Token::new(TokenType::Plus, "+".to_string(), None, 7);
    assert_eq!(token_error(token, "oops").text(), "[line 7] Error at '+': oops");
    let eof = Token::new(TokenType::Eof, String::new(), None, 3);
    assert_eq!(token_error(eof, "oops").text(), "[line 3] Error  at end : oops");
}

#[test]
fn character_classes() {
    assert!(is_digit('0') && is_digit('9') && !is_digit('a'));
    assert!(is_alpha('a') && is_alpha('Z') && is_alpha('_') && !is_alpha('1'));
    assert!(is_alphanumeric('7') && !is_alphanumeric('-'));
}

#[test]
fn nil_always_renders_as_nil() {
    let expr = Expression::Literal(Literal::KEYWORD(Token::new(TokenType::Nil, "null".to_string(), None, 1)));
    assert_eq!(expr.print(), "nil");
    let expr = Expression::Literal(Literal::KEYWORD(Token::new(TokenType::True, "true".to_string(), None, 1)));
    assert_eq!(expr.print(), "true");
}

#[test]
fn ast_renders_roots_in_order() {
    let one = Rc::new(Expression::Literal(Literal::NUMBER(Token::new(TokenType::Number, "1".to_string(), Some("1".to_string()), 1))));
    let group = Rc::new(Expression::Grouping { interior: one.clone() });
    let ast = AST::new(vec![one, group]);
    assert_eq!(ast.print(), "1(group 1)");
}

#[test]
fn token_from_category() {
    let token = Token::from(TokenType::Eof);
    assert_eq!(token, Token::new(TokenType::Eof, String::new(), None, 0));
    assert_eq!(token.into_string(), "Eof ");
}

#[test]
fn unterminated_string_after_other_tokens_reports_once() {
    let (tokens, diagnostics) = scan("a + 12\n\"tail\nend");
    assert_eq!(
        texts(&tokens),
        vec!["Identifier a", "Plus +", "Number 12", "String \"tail\nend", "Eof "]
    );
    assert_eq!(diagnostics, vec!["[line 3] Error : Error: Unterminated string"]);
}
