use sanskod::lexer::Lexer;
use sanskod::token::Token;

fn lex(s: &str) -> Vec<Token> {
    let mut lexer = Lexer::new(s);
    lexer.tokenize()
}

#[test]
fn test_lexer_print() {
    let mut lexer = Lexer::new("chapyati(\"Hello\")");
    let tokens = lexer.tokenize();
    assert_eq!(tokens, vec![
        Token::Print,
        Token::LeftParen,
        Token::StringLiteral("Hello".to_string()),
        Token::RightParen,
        Token::EOF
    ]);
}

#[test]
fn test_lexer_number() {
    let mut lexer = Lexer::new("42");
    let tokens = lexer.tokenize();
    assert_eq!(tokens, vec![
        Token::Number(42),
        Token::EOF
    ]);
}

#[test]
fn test_lexer_whitespace() {
    let mut lexer = Lexer::new("   chapyati   (  \"Test\"  )   ");
    let tokens = lexer.tokenize();
    assert_eq!(tokens, vec![
        Token::Print,
        Token::LeftParen,
        Token::StringLiteral("Test".to_string()),
        Token::RightParen,
        Token::EOF
    ]);
}

#[test]
fn test_lexer_variable_declaration() {
    let mut lexer = Lexer::new("chal x = 42;");
    let tokens = lexer.tokenize();
    assert_eq!(tokens, vec![
        Token::Let,
        Token::Identifier("x".to_string()),
        Token::Assign,
        Token::Number(42),
        Token::Semicolon,
        Token::EOF
    ]);
}

#[test]
fn test_lexer_comparison() {
    let mut lexer = Lexer::new("x >= 10");
    let tokens = lexer.tokenize();
    assert_eq!(tokens, vec![
        Token::Identifier("x".to_string()),
        Token::GreaterEqual,
        Token::Number(10),
        Token::EOF
    ]);
}

#[test]
fn test_lexer_boolean() {
    let mut lexer = Lexer::new("satya");
    let tokens = lexer.tokenize();
    assert_eq!(tokens, vec![
        Token::True,
        Token::EOF
    ]);
}

#[test]
fn empty_input_gives_only_eof() {
    assert_eq!(lex(""), vec![Token::EOF]);
}

#[test]
fn whitespace_only_gives_only_eof() {
    assert_eq!(lex(" \t\r\n  "), vec![Token::EOF]);
}

#[test]
fn trailing_operator_terminates() {
    assert_eq!(lex("x >"), vec![Token::Identifier("x".to_string()), Token::GreaterThan, Token::EOF]);
    assert_eq!(lex("<"), vec![Token::LessThan, Token::EOF]);
    assert_eq!(lex("="), vec![Token::Assign, Token::EOF]);
    assert_eq!(lex("!"), vec![Token::EOF]);
}

#[test]
fn two_char_operators() {
    assert_eq!(
        lex("<= == != > < ="),
        vec![
            Token::LessEqual,
            Token::Equals,
            Token::NotEqual,
            Token::GreaterThan,
            Token::LessThan,
            Token::Assign,
            Token::EOF
        ]
    );
}

#[test]
fn lone_bang_produces_no_token() {
    assert_eq!(lex("!x"), vec![Token::Identifier("x".to_string()), Token::EOF]);
}

#[test]
fn punctuation_and_arithmetic() {
    assert_eq!(
        lex("+-*/;,(){}"),
        vec![
            Token::Plus,
            Token::Minus,
            Token::Multiply,
            Token::Divide,
            Token::Semicolon,
            Token::Comma,
            Token::LeftParen,
            Token::RightParen,
            Token::LeftBrace,
            Token::RightBrace,
            Token::EOF
        ]
    );
}

#[test]
fn unterminated_string_keeps_collected_text() {
    assert_eq!(lex("\"abc"), vec![Token::StringLiteral("abc".to_string()), Token::EOF]);
}

#[test]
fn empty_string_literal() {
    assert_eq!(lex("\"\""), vec![Token::StringLiteral(String::new()), Token::EOF]);
}

#[test]
fn string_keeps_backslashes_and_spaces() {
    assert_eq!(lex("\" a\\n b \""), vec![Token::StringLiteral(" a\\n b ".to_string()), Token::EOF]);
}

#[test]
fn number_stops_at_non_digit() {
    assert_eq!(
        lex("12ab"),
        vec![Token::Number(12), Token::Identifier("ab".to_string()), Token::EOF]
    );
}

#[test]
fn digits_do_not_continue_identifier() {
    assert_eq!(
        lex("ab12"),
        vec![Token::Identifier("ab".to_string()), Token::Number(12), Token::EOF]
    );
}

#[test]
fn huge_number_saturates() {
    assert_eq!(lex("9223372036854775807"), vec![Token::Number(i64::MAX), Token::EOF]);
    assert_eq!(lex("99999999999999999999999"), vec![Token::Number(i64::MAX), Token::EOF]);
    assert_eq!(lex("9223372036854775806"), vec![Token::Number(i64::MAX - 1), Token::EOF]);
}

#[test]
fn all_latin_keywords() {
    assert_eq!(
        lex("yadi anyatha yavat kriya pratyavartanam chapyati chal satya asatya"),
        vec![
            Token::If,
            Token::Else,
            Token::While,
            Token::Function,
            Token::Return,
            Token::Print,
            Token::Let,
            Token::True,
            Token::False,
            Token::EOF
        ]
    );
}

#[test]
fn keywords_are_case_sensitive() {
    assert_eq!(lex("Yadi"), vec![Token::Identifier("Yadi".to_string()), Token::EOF]);
}

#[test]
fn devanagari_keywords() {
    assert_eq!(lex("चल"), vec![Token::Let, Token::EOF]);
    assert_eq!(lex("यदि"), vec![Token::If, Token::EOF]);
}

#[test]
fn whitespace_edits_keep_tokens() {
    assert_eq!(lex("chal x=4+5;"), lex(" chal   x =  4 + 5 ; "));
}

#[test]
fn rendered_tokens_lex_back_to_same_kinds() {
    let tokens = vec![
        Token::Let,
        Token::Identifier("y".to_string()),
        Token::Assign,
        Token::Number(7),
        Token::Multiply,
        Token::StringLiteral("s".to_string()),
        Token::NotEqual,
        Token::EOF,
    ];
    assert_eq!(lex("chal y = 7 * \"s\" !="), tokens);
}
