use sanskod::lexer::Lexer;
use sanskod::interpreter::{Interpreter, Value};
use sanskod::parser::{ASTNode, Parser};
use sanskod::token::Token;

#[test]
fn test_parse_print() {
    let tokens = vec![
        Token::Print,
        Token::LeftParen,
        Token::StringLiteral("Hello".to_string()),
        Token::RightParen,
        Token::EOF
    ];
    let mut parser = Parser::new(tokens);
    if let Some(ASTNode::Print(text)) = parser.parse() {
        assert_eq!(text, "Hello");
    } else {
        panic!("Failed to parse print statement");
    }
}

#[test]
fn test_parse_number() {
    let tokens = vec![
        Token::Number(42),
        Token::EOF
    ];
    let mut parser = Parser::new(tokens);
    if let Some(ASTNode::Number(num)) = parser.parse() {
        assert_eq!(num, 42);
    } else {
        panic!("Failed to parse number");
    }
}

#[test]
fn test_parse_invalid() {
    let tokens = vec![Token::EOF];
    let mut parser = Parser::new(tokens);
    assert!(parser.parse().is_none());
}

#[test]
fn parse_empty_print_payload() {
    let tokens = vec![
        Token::Print,
        Token::LeftParen,
        Token::StringLiteral(String::new()),
        Token::RightParen,
        Token::EOF,
    ];
    let mut parser = Parser::new(tokens);
    assert!(matches!(parser.parse(), Some(ASTNode::Print(t)) if t.is_empty()));
}

#[test]
fn parse_print_rejects_number_argument() {
    let tokens = vec![Token::Print, Token::LeftParen, Token::Number(1), Token::RightParen, Token::EOF];
    assert!(Parser::new(tokens).parse().is_none());
}

#[test]
fn parse_print_missing_right_paren() {
    let tokens = vec![Token::Print, Token::LeftParen, Token::StringLiteral("a".to_string()), Token::EOF];
    assert!(Parser::new(tokens).parse().is_none());
}

#[test]
fn parse_print_missing_left_paren() {
    let tokens = vec![Token::Print, Token::StringLiteral("a".to_string()), Token::EOF];
    assert!(Parser::new(tokens).parse().is_none());
}

#[test]
fn parse_rejects_other_leading_tokens() {
    for t in [Token::Let, Token::StringLiteral("a".to_string()), Token::Plus, Token::LeftParen, Token::True] {
        assert!(Parser::new(vec![t, Token::EOF]).parse().is_none());
    }
}

#[test]
fn parse_empty_token_list() {
    assert!(Parser::new(Vec::new()).parse().is_none());
}

#[test]
fn parse_reads_successive_statements() {
    let tokens = vec![
        Token::Number(1),
        Token::Print,
        Token::LeftParen,
        Token::StringLiteral("a".to_string()),
        Token::RightParen,
        Token::Number(2),
        Token::EOF,
    ];
    let mut parser = Parser::new(tokens);
    assert!(matches!(parser.parse(), Some(ASTNode::Number(1))));
    assert!(matches!(parser.parse(), Some(ASTNode::Print(t)) if t == "a"));
    assert!(matches!(parser.parse(), Some(ASTNode::Number(2))));
    assert!(parser.parse().is_none());
}

#[test]
fn whitespace_only_source_parses_to_nothing() {
    let tokens = Lexer::new("   \n\t").tokenize();
    assert_eq!(tokens, vec![Token::EOF]);
    assert!(Parser::new(tokens).parse().is_none());
}

#[test]
fn source_print_parses_to_print_node() {
    let tokens = Lexer::new("chapyati(\"Hello\")").tokenize();
    assert!(matches!(Parser::new(tokens).parse(), Some(ASTNode::Print(t)) if t == "Hello"));
}

#[test]
fn source_number_parses_to_number_node() {
    let tokens = Lexer::new("42").tokenize();
    assert!(matches!(Parser::new(tokens).parse(), Some(ASTNode::Number(42))));
}

fn parse_source(src: &str) -> Option<ASTNode> {
    Parser::new(Lexer::new(src).tokenize()).parse()
}

fn run_source(interpreter: &mut Interpreter, src: &str) -> Option<Value> {
    let ast = parse_source(src).expect("statement should parse");
    interpreter.run(&ast)
}

#[test]
fn variable_reference_parses() {
    assert!(matches!(parse_source("x"), Some(ASTNode::VarReference(n)) if n == "x"));
}

#[test]
fn let_declaration_parses() {
    match parse_source("chal x = 42;") {
        Some(ASTNode::VarDeclaration(name, init)) => {
            assert_eq!(name, "x");
            assert!(matches!(*init, ASTNode::Number(42)));
        }
        _ => panic!("declaration did not parse"),
    }
}

#[test]
fn let_without_expression_fails() {
    assert!(parse_source("chal x = ;").is_none());
    assert!(parse_source("chal = 3").is_none());
    assert!(parse_source("chal x 3").is_none());
}

#[test]
fn dangling_operator_fails() {
    assert!(parse_source("3 +").is_none());
    assert!(parse_source("3 *").is_none());
    assert!(parse_source("3 * +").is_none());
}

#[test]
fn products_bind_tighter_than_sums() {
    match parse_source("2 + 3 * 4") {
        Some(ASTNode::BinaryOp(l, Token::Plus, r)) => {
            assert!(matches!(*l, ASTNode::Number(2)));
            assert!(matches!(*r, ASTNode::BinaryOp(_, Token::Multiply, _)));
        }
        _ => panic!("wrong tree"),
    }
}

#[test]
fn pipeline_arithmetic_and_variables() {
    let mut interpreter = Interpreter::new();
    assert_eq!(run_source(&mut interpreter, "chal x = 2 + 3 * 4;"), None);
    assert_eq!(run_source(&mut interpreter, "x"), Some(Value::Number(14)));
    assert_eq!(run_source(&mut interpreter, "x - 20 / 3 - 1"), Some(Value::Number(7)));
    assert_eq!(run_source(&mut interpreter, "x / 0"), None);
}

#[test]
fn pipeline_print() {
    let mut interpreter = Interpreter::new();
    assert_eq!(run_source(&mut interpreter, "chapyati(\"Hello\")"), None);
    assert_eq!(interpreter.take_output(), vec!["Hello".to_string()]);
}

#[test]
fn pipeline_number() {
    let mut interpreter = Interpreter::new();
    assert_eq!(run_source(&mut interpreter, "42"), Some(Value::Number(42)));
}
