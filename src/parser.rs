use vstd::prelude::*;
use crate::token::Token;

verus! {

/// A node of the syntax tree; each node owns its children.
#[derive(Debug)]
pub enum ASTNode {
    /// Print the text.
    Print(String),
    /// An integer literal.
    Number(i64),
    /// Bind the name to the value of the initializer.
    VarDeclaration(String, Box<ASTNode>),
    /// The value bound to the name.
    VarReference(String),
    /// An arithmetic operation on two operands.
    BinaryOp(Box<ASTNode>, Token, Box<ASTNode>),
}

/// The operand that a single token stands for: a number or a variable.
pub open spec fn operand(t: Token) -> Option<ASTNode> {
    match t {
        Token::Number(n) => Some(ASTNode::Number(n)),
        Token::Identifier(name) => Some(ASTNode::VarReference(name)),
        _ => None,
    }
}

pub open spec fn is_product_op(t: Token) -> bool {
    t == Token::Multiply || t == Token::Divide
}

pub open spec fn is_sum_op(t: Token) -> bool {
    t == Token::Plus || t == Token::Minus
}

/// Continues a product whose left part is `acc` at index `p`: each `* operand` or
/// `/ operand` folds in on the left. An operator without an operand after it fails.
pub open spec fn product_rest(ts: Seq<Token>, p: int, acc: ASTNode) -> Option<(ASTNode, int)>
    decreases ts.len() - p,
{
    if 0 <= p < ts.len() && is_product_op(ts[p]) {
        if p + 1 < ts.len() && operand(ts[p + 1]) is Some {
            product_rest(
                ts,
                p + 2,
                ASTNode::BinaryOp(Box::new(acc), ts[p], Box::new(operand(ts[p + 1]).unwrap())),
            )
        } else {
            None
        }
    } else {
        Some((acc, p))
    }
}

/// The product that starts at index `p`, with the index just past it.
pub open spec fn product_at(ts: Seq<Token>, p: int) -> Option<(ASTNode, int)> {
    if 0 <= p < ts.len() && operand(ts[p]) is Some {
        product_rest(ts, p + 1, operand(ts[p]).unwrap())
    } else {
        None
    }
}

pub proof fn lemma_product_rest_bounds(ts: Seq<Token>, p: int, acc: ASTNode)
    requires
        0 <= p <= ts.len(),
    ensures
        product_rest(ts, p, acc) matches Some((_, q)) ==> p <= q <= ts.len(),
    decreases ts.len() - p,
{
    if p < ts.len() && is_product_op(ts[p]) && p + 1 < ts.len() && operand(ts[p + 1]) is Some {
        lemma_product_rest_bounds(
            ts,
            p + 2,
            ASTNode::BinaryOp(Box::new(acc), ts[p], Box::new(operand(ts[p + 1]).unwrap())),
        );
    }
}

pub proof fn lemma_product_at_bounds(ts: Seq<Token>, p: int)
    requires
        0 <= p,
    ensures
        product_at(ts, p) matches Some((_, q)) ==> p < q <= ts.len(),
{
    if p < ts.len() && operand(ts[p]) is Some {
        lemma_product_rest_bounds(ts, p + 1, operand(ts[p]).unwrap());
    }
}

/// Continues a sum whose left part is `acc` at index `p`: each `+ product` or
/// `- product` folds in on the left.
pub open spec fn sum_rest(ts: Seq<Token>, p: int, acc: ASTNode) -> Option<(ASTNode, int)>
    decreases ts.len() - p,
{
    if 0 <= p < ts.len() && is_sum_op(ts[p]) {
        proof {
            lemma_product_at_bounds(ts, p + 1);
        }
        match product_at(ts, p + 1) {
            Some((rhs, q)) => sum_rest(ts, q, ASTNode::BinaryOp(Box::new(acc), ts[p], Box::new(rhs))),
            None => None,
        }
    } else {
        Some((acc, p))
    }
}

/// The arithmetic expression that starts at index `p`, with the index just past it.
pub open spec fn expr_at(ts: Seq<Token>, p: int) -> Option<(ASTNode, int)> {
    match product_at(ts, p) {
        Some((first, q)) => sum_rest(ts, q, first),
        None => None,
    }
}

/// The index past an optional `;` at `q`.
pub open spec fn skip_semicolon(ts: Seq<Token>, q: int) -> int {
    if 0 <= q < ts.len() && ts[q] == Token::Semicolon { q + 1 } else { q }
}

/// The statement that starts at index `p` of `ts`, with the index just past it:
/// `print ( "text" )`, `chal name = expression`, or an expression that starts with a
/// number or a variable; a `;` may end the last two. `None` for anything else.
pub open spec fn parse_at(ts: Seq<Token>, p: int) -> Option<(ASTNode, int)> {
    if 0 <= p && p + 3 < ts.len() && ts[p] == Token::Print && ts[p + 1] == Token::LeftParen
        && ts[p + 2] is StringLiteral && ts[p + 3] == Token::RightParen {
        Some((ASTNode::Print(ts[p + 2]->StringLiteral_0), p + 4))
    } else if 0 <= p && p + 2 < ts.len() && ts[p] == Token::Let && ts[p + 1] is Identifier
        && ts[p + 2] == Token::Assign {
        match expr_at(ts, p + 3) {
            Some((e, q)) => Some(
                (ASTNode::VarDeclaration(ts[p + 1]->Identifier_0, Box::new(e)), skip_semicolon(ts, q)),
            ),
            None => None,
        }
    } else if 0 <= p < ts.len() && (ts[p] is Number || ts[p] is Identifier) {
        match expr_at(ts, p) {
            Some((e, q)) => Some((e, skip_semicolon(ts, q))),
            None => None,
        }
    } else {
        None
    }
}

/// A well-formed print statement parses to a Print node whose payload is the literal's
/// text, exactly, empty text included.
pub proof fn lemma_parse_print(ts: Seq<Token>, p: int, text: String)
    requires
        0 <= p,
        p + 3 < ts.len(),
        ts[p] == Token::Print,
        ts[p + 1] == Token::LeftParen,
        ts[p + 2] == Token::StringLiteral(text),
        ts[p + 3] == Token::RightParen,
    ensures
        parse_at(ts, p) == Some((ASTNode::Print(text), p + 4)),
        match parse_at(ts, p) {
            Some((ASTNode::Print(t), _)) => t@ == text@,
            _ => false,
        },
{
}

/// A token sequence that does not begin with `print`, a number, `chal` or a variable
/// parses to nothing.
pub proof fn lemma_parse_needs_statement_start(ts: Seq<Token>)
    requires
        ts.len() == 0 || !(ts[0] is Print || ts[0] is Number || ts[0] is Let || ts[0] is Identifier),
    ensures
        parse_at(ts, 0) is None,
{
}

/// A recursive-descent parser over a sequence of tokens.
pub struct Parser {
    tokens: Vec<Token>,
    position: usize,
}

impl Parser {
    /// The tokens being parsed.
    pub closed spec fn tokens(&self) -> Seq<Token> {
        self.tokens@
    }

    /// The index of the next token to read.
    pub closed spec fn pos(&self) -> int {
        self.position as int
    }

    /// A parser at the first of `tokens`.
    pub fn new(tokens: Vec<Token>) -> (r: Self)
        ensures
            r.tokens() == tokens@,
            r.pos() == 0,
    {
        Parser { tokens, position: 0 }
    }

    /// Whether the token at index `i` exists and is exactly `t`, which carries no payload.
    fn token_is(&self, i: usize, t: Token) -> (r: bool)
        requires
            !(t is Identifier || t is StringLiteral || t is Number),
        ensures
            r == (i < self.tokens@.len() && self.tokens@[i as int] == t),
    {
        if i >= self.tokens.len() {
            return false;
        }
        match (&self.tokens[i], t) {
            (Token::If, Token::If) | (Token::Else, Token::Else) | (Token::While, Token::While)
            | (Token::Function, Token::Function) | (Token::Return, Token::Return)
            | (Token::Print, Token::Print) | (Token::Plus, Token::Plus)
            | (Token::Minus, Token::Minus) | (Token::Multiply, Token::Multiply)
            | (Token::Divide, Token::Divide) | (Token::Assign, Token::Assign)
            | (Token::Equals, Token::Equals) | (Token::LeftParen, Token::LeftParen)
            | (Token::RightParen, Token::RightParen) | (Token::LeftBrace, Token::LeftBrace)
            | (Token::RightBrace, Token::RightBrace) | (Token::Semicolon, Token::Semicolon)
            | (Token::Comma, Token::Comma) | (Token::GreaterThan, Token::GreaterThan)
            | (Token::LessThan, Token::LessThan) | (Token::GreaterEqual, Token::GreaterEqual)
            | (Token::LessEqual, Token::LessEqual) | (Token::NotEqual, Token::NotEqual)
            | (Token::Let, Token::Let) | (Token::True, Token::True) | (Token::False, Token::False)
            | (Token::EOF, Token::EOF) => true,
            _ => false,
        }
    }

    /// The operand that the token at index `i` stands for, if it exists and is one.
    fn operand_at(&self, i: usize) -> (r: Option<ASTNode>)
        ensures
            r == if i < self.tokens@.len() { operand(self.tokens@[i as int]) } else { None },
    {
        if i >= self.tokens.len() {
            return None;
        }
        match &self.tokens[i] {
            Token::Number(n) => Some(ASTNode::Number(*n)),
            Token::Identifier(name) => Some(ASTNode::VarReference(name.clone())),
            _ => None,
        }
    }

    /// Parses the product at the current position and moves past it.
    fn parse_product(&mut self) -> (r: Option<ASTNode>)
        ensures
            final(self).tokens() == old(self).tokens(),
            match product_at(old(self).tokens(), old(self).pos()) {
                Some((node, next)) => r == Some(node) && final(self).pos() == next,
                None => r is None,
            },
    {
        let ghost ts = self.tokens@;
        let p = self.position;
        let n = self.tokens.len();
        let mut acc = match self.operand_at(p) {
            Some(a) => a,
            None => {
                return None;
            },
        };
        let mut i = p + 1;
        while i < n && (self.token_is(i, Token::Multiply) || self.token_is(i, Token::Divide))
            invariant
                self.tokens@ == ts,
                old(self).tokens@ == ts,
                old(self).position == p,
                n == ts.len(),
                p + 1 <= i <= n,
                product_rest(ts, i as int, acc) == product_at(ts, p as int),
            decreases n - i,
        {
            if i + 1 >= n {
                return None;
            }
            let rhs = match self.operand_at(i + 1) {
                Some(r) => r,
                None => {
                    return None;
                },
            };
            let op = if self.token_is(i, Token::Multiply) {
                Token::Multiply
            } else {
                Token::Divide
            };
            acc = ASTNode::BinaryOp(Box::new(acc), op, Box::new(rhs));
            i = i + 2;
        }
        self.position = i;
        Some(acc)
    }

    /// Parses the arithmetic expression at the current position and moves past it.
    fn parse_expression(&mut self) -> (r: Option<ASTNode>)
        ensures
            final(self).tokens() == old(self).tokens(),
            match expr_at(old(self).tokens(), old(self).pos()) {
                Some((node, next)) => r == Some(node) && final(self).pos() == next,
                None => r is None,
            },
    {
        let ghost ts = self.tokens@;
        let ghost p = self.position as int;
        let n = self.tokens.len();
        proof {
            lemma_product_at_bounds(ts, p);
        }
        let mut acc = match self.parse_product() {
            Some(a) => a,
            None => {
                return None;
            },
        };
        let mut i = self.position;
        while i < n && (self.token_is(i, Token::Plus) || self.token_is(i, Token::Minus))
            invariant
                self.tokens@ == ts,
                old(self).tokens@ == ts,
                old(self).position == p,
                n == ts.len(),
                i <= n,
                sum_rest(ts, i as int, acc) == expr_at(ts, p),
            decreases n - i,
        {
            let op = if self.token_is(i, Token::Plus) {
                Token::Plus
            } else {
                Token::Minus
            };
            proof {
                lemma_product_at_bounds(ts, i + 1);
            }
            self.position = i + 1;
            let rhs = match self.parse_product() {
                Some(r) => r,
                None => {
                    return None;
                },
            };
            acc = ASTNode::BinaryOp(Box::new(acc), op, Box::new(rhs));
            i = self.position;
        }
        self.position = i;
        Some(acc)
    }

    /// Moves past a `;` at the current position, if there is one.
    fn skip_optional_semicolon(&mut self)
        ensures
            final(self).tokens() == old(self).tokens(),
            final(self).pos() == skip_semicolon(old(self).tokens(), old(self).pos()),
    {
        let n = self.tokens.len();
        if self.token_is(self.position, Token::Semicolon) {
            self.position = self.position + 1;
        }
    }

    /// Parses the statement at the current position. On success the position moves past it;
    /// on failure the tokens are unchanged and the position is left unspecified.
    pub fn parse(&mut self) -> (r: Option<ASTNode>)
        ensures
            final(self).tokens() == old(self).tokens(),
            match parse_at(old(self).tokens(), old(self).pos()) {
                Some((node, next)) => r == Some(node) && final(self).pos() == next,
                None => r is None,
            },
    {
        let p = self.position;
        let n = self.tokens.len();
        if self.token_is(p, Token::Print) {
            self.position = p + 1;
            if !self.token_is(p + 1, Token::LeftParen) {
                return None;
            }
            self.position = p + 2;
            if p + 2 >= n {
                return None;
            }
            let text = match &self.tokens[p + 2] {
                Token::StringLiteral(value) => value.clone(),
                _ => {
                    return None;
                },
            };
            self.position = p + 3;
            if !self.token_is(p + 3, Token::RightParen) {
                return None;
            }
            self.position = p + 4;
            Some(ASTNode::Print(text))
        } else if self.token_is(p, Token::Let) {
            if n - p <= 2 || !self.token_is(p + 2, Token::Assign) {
                return None;
            }
            let name = match &self.tokens[p + 1] {
                Token::Identifier(name) => name.clone(),
                _ => {
                    return None;
                },
            };
            self.position = p + 3;
            let init = match self.parse_expression() {
                Some(e) => e,
                None => {
                    return None;
                },
            };
            self.skip_optional_semicolon();
            Some(ASTNode::VarDeclaration(name, Box::new(init)))
        } else if self.operand_at(p).is_some() {
            let e = self.parse_expression();
            match e {
                Some(_) => self.skip_optional_semicolon(),
                None => {},
            }
            e
        } else {
            None
        }
    }
}

} // verus!
