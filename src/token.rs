use vstd::prelude::*;

verus! {

/// A lexical unit of the language.
#[derive(Debug, Clone, PartialEq)]
pub enum Token {
    /// A variable or function name.
    Identifier(String),
    /// The value of a run of decimal digits, saturated at `i64::MAX`.
    Number(i64),
    /// The text between two double quotes, taken verbatim.
    StringLiteral(String),
    // Keywords
    If,
    Else,
    While,
    Function,
    Return,
    Print,
    // Operators
    Plus,
    Minus,
    Multiply,
    Divide,
    Assign,
    Equals,
    // Punctuation
    LeftParen,
    RightParen,
    LeftBrace,
    RightBrace,
    Semicolon,
    Comma,
    // Comparison operators
    GreaterThan,
    LessThan,
    GreaterEqual,
    LessEqual,
    NotEqual,
    // More keywords
    Let,
    True,
    False,
    /// End of input: the last token of every tokenized text.
    EOF,
}

/// The mathematical model of a token: its payload text as a sequence of chars.
pub enum TokenView {
    Identifier(Seq<char>),
    Number(i64),
    StringLiteral(Seq<char>),
    If,
    Else,
    While,
    Function,
    Return,
    Print,
    Plus,
    Minus,
    Multiply,
    Divide,
    Assign,
    Equals,
    LeftParen,
    RightParen,
    LeftBrace,
    RightBrace,
    Semicolon,
    Comma,
    GreaterThan,
    LessThan,
    GreaterEqual,
    LessEqual,
    NotEqual,
    Let,
    True,
    False,
    EOF,
}

impl View for Token {
    type V = TokenView;

    open spec fn view(&self) -> TokenView {
        match self {
            Token::Identifier(s) => TokenView::Identifier(s@),
            Token::Number(n) => TokenView::Number(*n),
            Token::StringLiteral(s) => TokenView::StringLiteral(s@),
            Token::If => TokenView::If,
            Token::Else => TokenView::Else,
            Token::While => TokenView::While,
            Token::Function => TokenView::Function,
            Token::Return => TokenView::Return,
            Token::Print => TokenView::Print,
            Token::Plus => TokenView::Plus,
            Token::Minus => TokenView::Minus,
            Token::Multiply => TokenView::Multiply,
            Token::Divide => TokenView::Divide,
            Token::Assign => TokenView::Assign,
            Token::Equals => TokenView::Equals,
            Token::LeftParen => TokenView::LeftParen,
            Token::RightParen => TokenView::RightParen,
            Token::LeftBrace => TokenView::LeftBrace,
            Token::RightBrace => TokenView::RightBrace,
            Token::Semicolon => TokenView::Semicolon,
            Token::Comma => TokenView::Comma,
            Token::GreaterThan => TokenView::GreaterThan,
            Token::LessThan => TokenView::LessThan,
            Token::GreaterEqual => TokenView::GreaterEqual,
            Token::LessEqual => TokenView::LessEqual,
            Token::NotEqual => TokenView::NotEqual,
            Token::Let => TokenView::Let,
            Token::True => TokenView::True,
            Token::False => TokenView::False,
            Token::EOF => TokenView::EOF,
        }
    }
}

/// The models of a sequence of tokens, one for one.
pub open spec fn tokens_view(ts: Seq<Token>) -> Seq<TokenView> {
    ts.map_values(|t: Token| t@)
}

} // verus!
