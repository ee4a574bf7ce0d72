use vstd::prelude::*;
use crate::token::{Token, TokenView, tokens_view};

verus! {

/// Whether a non-ASCII `c` has the Unicode Alphabetic property, as `char::is_alphabetic`
/// decides it.
pub uninterp spec fn alphabetic(c: char) -> bool;

pub open spec fn is_ascii_letter(c: char) -> bool {
    ('a' <= c && c <= 'z') || ('A' <= c && c <= 'Z')
}

/// Whether `c` continues a word: it has the Alphabetic property. Among ASCII chars the
/// letters alone have it.
pub open spec fn word_char(c: char) -> bool {
    if (c as u32) < 128 { is_ascii_letter(c) } else { alphabetic(c) }
}

/// Relies on `char::is_alphabetic`: whether the char has the Alphabetic property, which
/// among ASCII chars holds of the letters `a..=z` and `A..=Z` alone.
#[verifier::external_body]
fn is_alpha(c: char) -> (r: bool)
    ensures
        r == if (c as u32) < 128 { is_ascii_letter(c) } else { alphabetic(c) },
{
    c.is_alphabetic()
}

/// Relies on `String::push`: appends one char at the end.
#[verifier::external_body]
fn push_char(s: &mut String, c: char)
    ensures
        final(s)@ == old(s)@.push(c),
{
    s.push(c)
}

pub open spec fn is_whitespace(c: char) -> bool {
    c == ' ' || c == '\t' || c == '\n' || c == '\r'
}

pub open spec fn is_digit(c: char) -> bool {
    '0' <= c && c <= '9'
}

pub open spec fn digit_of(c: char) -> int {
    c as int - '0' as int
}

/// The value of a sequence of decimal digits, most significant first.
pub open spec fn digits_value(s: Seq<char>) -> int
    decreases s.len(),
{
    if s.len() == 0 {
        0
    } else {
        digits_value(s.drop_last()) * 10 + digit_of(s.last())
    }
}

/// A value saturated at `i64::MAX`.
pub open spec fn saturate(v: int) -> i64 {
    if v >= i64::MAX { i64::MAX } else { v as i64 }
}

/// The single-character tokens that need no lookahead.
pub open spec fn single_char_token(c: char) -> Option<TokenView> {
    if c == '+' { Some(TokenView::Plus) }
    else if c == '-' { Some(TokenView::Minus) }
    else if c == '*' { Some(TokenView::Multiply) }
    else if c == '/' { Some(TokenView::Divide) }
    else if c == ';' { Some(TokenView::Semicolon) }
    else if c == ',' { Some(TokenView::Comma) }
    else if c == '(' { Some(TokenView::LeftParen) }
    else if c == ')' { Some(TokenView::RightParen) }
    else if c == '{' { Some(TokenView::LeftBrace) }
    else if c == '}' { Some(TokenView::RightBrace) }
    else { None }
}

/// The keyword that a word spells, in Latin transliteration or in Devanagari.
pub open spec fn keyword(w: Seq<char>) -> Option<TokenView> {
    if w == "yadi"@ || w == "यदि"@ { Some(TokenView::If) }
    else if w == "anyatha"@ || w == "अन्यथा"@ { Some(TokenView::Else) }
    else if w == "yavat"@ || w == "यावत्"@ { Some(TokenView::While) }
    else if w == "kriya"@ || w == "क्रिया"@ { Some(TokenView::Function) }
    else if w == "pratyavartanam"@ || w == "प्रत्यावर्तनम्"@ { Some(TokenView::Return) }
    else if w == "chapyati"@ || w == "छपयति"@ { Some(TokenView::Print) }
    else if w == "chal"@ || w == "चल"@ { Some(TokenView::Let) }
    else if w == "satya"@ || w == "सत्य"@ { Some(TokenView::True) }
    else if w == "asatya"@ || w == "असत्य"@ { Some(TokenView::False) }
    else { None }
}

/// The token for a word: its keyword, or else an identifier holding it.
pub open spec fn word_token(w: Seq<char>) -> TokenView {
    match keyword(w) {
        Some(t) => t,
        None => TokenView::Identifier(w),
    }
}

/// Index of the first `"` at or after `j`, or the length of `s` if there is none.
pub open spec fn string_end(s: Seq<char>, j: int) -> int
    decreases s.len() - j,
{
    if j >= s.len() || j < 0 { s.len() as int }
    else if s[j] == '"' { j }
    else { string_end(s, j + 1) }
}

/// End of the run of digits that starts at `j`.
pub open spec fn digits_end(s: Seq<char>, j: int) -> int
    decreases s.len() - j,
{
    if j >= s.len() || j < 0 { s.len() as int }
    else if !is_digit(s[j]) { j }
    else { digits_end(s, j + 1) }
}

/// End of the run of alphabetic chars that starts at `j`.
pub open spec fn word_end(s: Seq<char>, j: int) -> int
    decreases s.len() - j,
{
    if j >= s.len() || j < 0 { s.len() as int }
    else if !word_char(s[j]) { j }
    else { word_end(s, j + 1) }
}

pub proof fn lemma_string_end_bounds(s: Seq<char>, j: int)
    requires
        0 <= j,
    ensures
        j <= s.len() ==> j <= string_end(s, j),
        string_end(s, j) <= s.len(),
    decreases s.len() - j,
{
    if j < s.len() && s[j] != '"' {
        lemma_string_end_bounds(s, j + 1);
    }
}

pub proof fn lemma_digits_end_bounds(s: Seq<char>, j: int)
    requires
        0 <= j,
    ensures
        j <= s.len() ==> j <= digits_end(s, j),
        digits_end(s, j) <= s.len(),
    decreases s.len() - j,
{
    if j < s.len() && is_digit(s[j]) {
        lemma_digits_end_bounds(s, j + 1);
    }
}

pub proof fn lemma_word_end_bounds(s: Seq<char>, j: int)
    requires
        0 <= j,
    ensures
        j <= s.len() ==> j <= word_end(s, j),
        word_end(s, j) <= s.len(),
    decreases s.len() - j,
{
    if j < s.len() && word_char(s[j]) {
        lemma_word_end_bounds(s, j + 1);
    }
}

/// A two-char operator when `s[i + 1]` is `=`, else the one-char form.
pub open spec fn with_equal(s: Seq<char>, i: int, two: TokenView, one: TokenView) -> (TokenView, int) {
    if i + 1 < s.len() && s[i + 1] == '=' { (two, i + 2) } else { (one, i + 1) }
}

/// The tokens of `s` from index `i` on, ending with end-of-input.
pub open spec fn lex_from(s: Seq<char>, i: int) -> Seq<TokenView>
    decreases s.len() - i,
{
    if i < 0 || i >= s.len() {
        seq![TokenView::EOF]
    } else {
        let c = s[i];
        if is_whitespace(c) {
            lex_from(s, i + 1)
        } else if single_char_token(c) is Some {
            seq![single_char_token(c).unwrap()] + lex_from(s, i + 1)
        } else if c == '>' || c == '<' || c == '=' {
            let (t, k) = if c == '>' {
                with_equal(s, i, TokenView::GreaterEqual, TokenView::GreaterThan)
            } else if c == '<' {
                with_equal(s, i, TokenView::LessEqual, TokenView::LessThan)
            } else {
                with_equal(s, i, TokenView::Equals, TokenView::Assign)
            };
            seq![t] + lex_from(s, k)
        } else if c == '!' {
            if i + 1 < s.len() && s[i + 1] == '=' {
                seq![TokenView::NotEqual] + lex_from(s, i + 2)
            } else {
                lex_from(s, i + 1)
            }
        } else if c == '"' {
            let e = string_end(s, i + 1);
            proof {
                lemma_string_end_bounds(s, i + 1);
            }
            let k = if e < s.len() { e + 1 } else { e };
            seq![TokenView::StringLiteral(s.subrange(i + 1, e))] + lex_from(s, k)
        } else if is_digit(c) {
            let e = digits_end(s, i + 1);
            proof {
                lemma_digits_end_bounds(s, i + 1);
            }
            seq![TokenView::Number(saturate(digits_value(s.subrange(i, e))))] + lex_from(s, e)
        } else {
            let e = word_end(s, i + 1);
            proof {
                lemma_word_end_bounds(s, i + 1);
            }
            seq![word_token(s.subrange(i, e))] + lex_from(s, e)
        }
    }
}

/// The tokens of a whole text.
pub open spec fn lex(s: Seq<char>) -> Seq<TokenView> {
    lex_from(s, 0)
}

/// Every char of a digit run is a digit, so its value is not negative.
pub proof fn lemma_digits_value_nonneg(s: Seq<char>)
    requires
        forall|k: int| 0 <= k < s.len() ==> is_digit(#[trigger] s[k]),
    ensures
        digits_value(s) >= 0,
    decreases s.len(),
{
    if s.len() > 0 {
        lemma_digits_value_nonneg(s.drop_last());
    }
}

/// Appends a token, keeping the model of the sequence in step.
fn push_token(tokens: &mut Vec<Token>, t: Token)
    ensures
        final(tokens)@ == old(tokens)@.push(t),
        tokens_view(final(tokens)@) == tokens_view(old(tokens)@).push(t@),
{
    let ghost v = t@;
    tokens.push(t);
    proof {
        assert(tokens_view(tokens@) =~= tokens_view(old(tokens)@).push(v));
    }
}

proof fn lemma_step(done: Seq<TokenView>, t: TokenView, rest: Seq<TokenView>)
    ensures
        done.push(t) + rest == done + (seq![t] + rest),
{
    assert(done.push(t) + rest =~= done + (seq![t] + rest));
}

/// Lexing ends with exactly one end-of-input token, whatever the text.
pub proof fn lemma_lex_ends_once(s: Seq<char>, i: int)
    ensures
        lex_from(s, i).len() >= 1,
        lex_from(s, i).last() == TokenView::EOF,
        forall|k: int| 0 <= k < lex_from(s, i).len() - 1 ==> lex_from(s, i)[k] != TokenView::EOF,
    decreases s.len() - i,
{
    if 0 <= i < s.len() {
        let c = s[i];
        let next = if is_whitespace(c) || single_char_token(c) is Some {
            i + 1
        } else if c == '>' || c == '<' || c == '=' || c == '!' {
            if i + 1 < s.len() && s[i + 1] == '=' { i + 2 } else { i + 1 }
        } else if c == '"' {
            lemma_string_end_bounds(s, i + 1);
            let e = string_end(s, i + 1);
            if e < s.len() { e + 1 } else { e }
        } else if is_digit(c) {
            lemma_digits_end_bounds(s, i + 1);
            digits_end(s, i + 1)
        } else {
            lemma_word_end_bounds(s, i + 1);
            word_end(s, i + 1)
        };
        lemma_lex_ends_once(s, next);
        let rest = lex_from(s, next);
        if is_whitespace(c) || (c == '!' && !(i + 1 < s.len() && s[i + 1] == '=')) {
            assert(lex_from(s, i) == rest);
        } else {
            let t = lex_from(s, i)[0];
            assert(lex_from(s, i) =~= seq![t] + rest);
            assert forall|k: int| 0 <= k < lex_from(s, i).len() - 1 implies lex_from(s, i)[k]
                != TokenView::EOF by {
                if k > 0 {
                    assert(lex_from(s, i)[k] == rest[k - 1]);
                }
            }
        }
    }
}

proof fn lemma_ends_shift(p: Seq<char>, s: Seq<char>, j: int)
    requires
        0 <= j,
    ensures
        string_end(p + s, p.len() + j) == p.len() + string_end(s, j),
        digits_end(p + s, p.len() + j) == p.len() + digits_end(s, j),
        word_end(p + s, p.len() + j) == p.len() + word_end(s, j),
    decreases s.len() - j,
{
    if j < s.len() {
        assert((p + s)[p.len() + j] == s[j]);
        lemma_ends_shift(p, s, j + 1);
    }
}

/// Lexing from a position reads nothing before it: a prefix changes no later token.
pub proof fn lemma_lex_ignores_prefix(p: Seq<char>, s: Seq<char>, j: int)
    requires
        0 <= j,
    ensures
        lex_from(p + s, p.len() + j) == lex_from(s, j),
    decreases s.len() - j,
{
    let ps = p + s;
    let n = p.len() as int;
    if j < s.len() {
        let c = s[j];
        assert(ps[n + j] == c);
        if j + 1 < s.len() {
            assert(ps[n + j + 1] == s[j + 1]);
        }
        lemma_ends_shift(p, s, j + 1);
        lemma_string_end_bounds(s, j + 1);
        lemma_digits_end_bounds(s, j + 1);
        lemma_word_end_bounds(s, j + 1);
        let se = string_end(s, j + 1);
        let de = digits_end(s, j + 1);
        let we = word_end(s, j + 1);
        assert(ps.subrange(n + j + 1, n + se) =~= s.subrange(j + 1, se));
        assert(ps.subrange(n + j, n + de) =~= s.subrange(j, de));
        assert(ps.subrange(n + j, n + we) =~= s.subrange(j, we));
        lemma_lex_ignores_prefix(p, s, j + 1);
        if j + 1 < s.len() {
            lemma_lex_ignores_prefix(p, s, j + 2);
        }
        lemma_lex_ignores_prefix(p, s, de);
        lemma_lex_ignores_prefix(p, s, we);
        if se < s.len() {
            lemma_lex_ignores_prefix(p, s, se + 1);
        } else {
            lemma_lex_ignores_prefix(p, s, se);
        }
    }
}

/// Leading blank space never changes the tokens of a text.
pub proof fn lemma_lex_leading_blanks(w: Seq<char>, s: Seq<char>)
    requires
        forall|k: int| 0 <= k < w.len() ==> is_whitespace(#[trigger] w[k]),
    ensures
        lex(w + s) == lex(s),
    decreases w.len(),
{
    if w.len() > 0 {
        let rest = w.drop_first();
        assert(w + s =~= seq![w[0]] + (rest + s));
        assert((w + s)[0] == w[0]);
        lemma_lex_ignores_prefix(seq![w[0]], rest + s, 0);
        assert forall|k: int| 0 <= k < rest.len() implies is_whitespace(#[trigger] rest[k]) by {
            assert(rest[k] == w[k + 1]);
        }
        lemma_lex_leading_blanks(rest, s);
    }
}

/// A forward scanner over the chars of a source text.
pub struct Lexer {
    input: Vec<char>,
    position: usize,
}

/// Whether two texts hold the same chars.
fn same_text(a: &str, b: &str) -> (r: bool)
    ensures
        r == (a@ == b@),
{
    let n = a.unicode_len();
    if n != b.unicode_len() {
        return false;
    }
    let mut i: usize = 0;
    while i < n
        invariant
            n == a@.len(),
            n == b@.len(),
            i <= n,
            a@.subrange(0, i as int) == b@.subrange(0, i as int),
        decreases n - i,
    {
        if a.get_char(i) != b.get_char(i) {
            return false;
        }
        proof {
            assert(a@.subrange(0, i + 1) =~= a@.subrange(0, i as int).push(a@[i as int]));
            assert(b@.subrange(0, i + 1) =~= b@.subrange(0, i as int).push(b@[i as int]));
        }
        i = i + 1;
    }
    proof {
        assert(a@ =~= a@.subrange(0, n as int));
        assert(b@ =~= b@.subrange(0, n as int));
    }
    true
}

/// The keyword token that a word spells, if any.
fn keyword_token(w: &str) -> (r: Option<Token>)
    ensures
        match r {
            Some(t) => keyword(w@) == Some(t@),
            None => keyword(w@) is None,
        },
{
    if same_text(w, "yadi") || same_text(w, "यदि") {
        Some(Token::If)
    } else if same_text(w, "anyatha") || same_text(w, "अन्यथा") {
        Some(Token::Else)
    } else if same_text(w, "yavat") || same_text(w, "यावत्") {
        Some(Token::While)
    } else if same_text(w, "kriya") || same_text(w, "क्रिया") {
        Some(Token::Function)
    } else if same_text(w, "pratyavartanam") || same_text(w, "प्रत्यावर्तनम्") {
        Some(Token::Return)
    } else if same_text(w, "chapyati") || same_text(w, "छपयति") {
        Some(Token::Print)
    } else if same_text(w, "chal") || same_text(w, "चल") {
        Some(Token::Let)
    } else if same_text(w, "satya") || same_text(w, "सत्य") {
        Some(Token::True)
    } else if same_text(w, "asatya") || same_text(w, "असत्य") {
        Some(Token::False)
    } else {
        None
    }
}

impl Lexer {
    /// The chars of the source text.
    pub closed spec fn text(&self) -> Seq<char> {
        self.input@
    }

    /// The index of the next char to read.
    pub closed spec fn pos(&self) -> int {
        self.position as int
    }

    /// A lexer at the start of `input`.
    pub fn new(input: &str) -> (r: Self)
        ensures
            r.text() == input@,
            r.pos() == 0,
    {
        let n = input.unicode_len();
        let mut chars: Vec<char> = Vec::new();
        let mut i: usize = 0;
        while i < n
            invariant
                n == input@.len(),
                i <= n,
                chars@ == input@.subrange(0, i as int),
            decreases n - i,
        {
            chars.push(input.get_char(i));
            proof {
                assert(input@.subrange(0, i + 1) =~= input@.subrange(0, i as int).push(input@[i as int]));
            }
            i = i + 1;
        }
        proof {
            assert(input@ =~= input@.subrange(0, n as int));
        }
        Lexer { input: chars, position: 0 }
    }

    /// The tokens of the text from the current position on; the last one is end-of-input.
    pub fn tokenize(&mut self) -> (r: Vec<Token>)
        ensures
            final(self).text() == old(self).text(),
            tokens_view(r@) == lex_from(old(self).text(), old(self).pos()),
            r@.len() > 0,
            r@.last() == Token::EOF,
            forall|k: int| 0 <= k < r@.len() - 1 ==> r@[k] != Token::EOF,
    {
        let ghost s = self.input@;
        let ghost p0 = self.position as int;
        let mut tokens: Vec<Token> = Vec::new();
        proof {
            assert(tokens_view(tokens@) + lex_from(s, p0) =~= lex_from(s, p0));
        }
        while self.position < self.input.len()
            invariant
                self.input@ == s,
                tokens_view(tokens@) + lex_from(s, self.position as int) == lex_from(s, p0),
            decreases s.len() - self.position,
        {
            let i = self.position;
            let ghost done = tokens_view(tokens@);
            let ch = self.input[i];
            self.position = i + 1;
            if ch == ' ' || ch == '\t' || ch == '\n' || ch == '\r' {
            } else if ch == '+' || ch == '-' || ch == '*' || ch == '/' || ch == ';' || ch == ','
                || ch == '(' || ch == ')' || ch == '{' || ch == '}' {
                let t = if ch == '+' {
                    Token::Plus
                } else if ch == '-' {
                    Token::Minus
                } else if ch == '*' {
                    Token::Multiply
                } else if ch == '/' {
                    Token::Divide
                } else if ch == ';' {
                    Token::Semicolon
                } else if ch == ',' {
                    Token::Comma
                } else if ch == '(' {
                    Token::LeftParen
                } else if ch == ')' {
                    Token::RightParen
                } else if ch == '{' {
                    Token::LeftBrace
                } else {
                    Token::RightBrace
                };
                proof {
                    lemma_step(done, t@, lex_from(s, i + 1));
                }
                push_token(&mut tokens, t);
            } else if ch == '>' || ch == '<' || ch == '=' || ch == '!' {
                let two = self.position < self.input.len() && self.input[self.position] == '=';
                if two {
                    self.position = self.position + 1;
                }
                let t = if ch == '>' {
                    if two { Some(Token::GreaterEqual) } else { Some(Token::GreaterThan) }
                } else if ch == '<' {
                    if two { Some(Token::LessEqual) } else { Some(Token::LessThan) }
                } else if ch == '=' {
                    if two { Some(Token::Equals) } else { Some(Token::Assign) }
                } else {
                    if two { Some(Token::NotEqual) } else { None }
                };
                match t {
                    Some(t) => {
                        proof {
                            lemma_step(done, t@, lex_from(s, self.position as int));
                        }
                        push_token(&mut tokens, t);
                    },
                    None => {},
                }
            } else if ch == '"' {
                let mut string = String::new();
                while self.position < self.input.len() && self.input[self.position] != '"'
                    invariant
                        self.input@ == s,
                        i + 1 <= self.position <= s.len(),
                        string@ == s.subrange(i + 1, self.position as int),
                        string_end(s, self.position as int) == string_end(s, i + 1),
                    decreases s.len() - self.position,
                {
                    push_char(&mut string, self.input[self.position]);
                    proof {
                        assert(s.subrange(i + 1, self.position + 1) =~= s.subrange(
                            i + 1,
                            self.position as int,
                        ).push(s[self.position as int]));
                    }
                    self.position = self.position + 1;
                }
                if self.position < self.input.len() {
                    self.position = self.position + 1;
                }
                let t = Token::StringLiteral(string);
                proof {
                    lemma_step(done, t@, lex_from(s, self.position as int));
                }
                push_token(&mut tokens, t);
            } else if '0' <= ch && ch <= '9' {
                let mut value: i64 = (ch as u32 - '0' as u32) as i64;
                proof {
                    let w = s.subrange(i as int, i + 1);
                    assert(w.drop_last() =~= Seq::<char>::empty());
                    assert(digits_value(Seq::<char>::empty()) == 0);
                    assert(w.last() == ch);
                    assert(digits_value(w) == digit_of(ch));
                }
                while self.position < self.input.len() && '0' <= self.input[self.position]
                    && self.input[self.position] <= '9'
                    invariant
                        self.input@ == s,
                        i + 1 <= self.position <= s.len(),
                        forall|k: int| i <= k < self.position ==> is_digit(#[trigger] s[k]),
                        value == saturate(digits_value(s.subrange(i as int, self.position as int))),
                        digits_end(s, self.position as int) == digits_end(s, i + 1),
                    decreases s.len() - self.position,
                {
                    let p = self.position;
                    let d: i64 = (self.input[p] as u32 - '0' as u32) as i64;
                    let ghost v = digits_value(s.subrange(i as int, p as int));
                    proof {
                        let w = s.subrange(i as int, p + 1);
                        assert(w.drop_last() =~= s.subrange(i as int, p as int));
                        assert(digits_value(w) == v * 10 + d);
                        lemma_digits_value_nonneg(s.subrange(i as int, p as int));
                    }
                    if value > (i64::MAX - d) / 10 {
                        proof {
                            if value < i64::MAX {
                                assert(v * 10 + d > i64::MAX) by (nonlinear_arith)
                                    requires
                                        value == v,
                                        0 <= d <= 9,
                                        value > (i64::MAX - d) / 10,
                                ;
                            } else {
                                assert(v * 10 + d >= v) by (nonlinear_arith)
                                    requires
                                        v >= 0,
                                        0 <= d,
                                ;
                            }
                        }
                        value = i64::MAX;
                    } else {
                        proof {
                            assert(v * 10 + d <= i64::MAX) by (nonlinear_arith)
                                requires
                                    value == v,
                                    0 <= d <= 9,
                                    value <= (i64::MAX - d) / 10,
                            ;
                        }
                        value = value * 10 + d;
                    }
                    self.position = p + 1;
                }
                let t = Token::Number(value);
                proof {
                    lemma_step(done, t@, lex_from(s, self.position as int));
                }
                push_token(&mut tokens, t);
            } else {
                let mut word = String::new();
                push_char(&mut word, ch);
                proof {
                    assert(s.subrange(i as int, i + 1) =~= seq![ch]);
                }
                while self.position < self.input.len() && is_alpha(self.input[self.position])
                    invariant
                        self.input@ == s,
                        i + 1 <= self.position <= s.len(),
                        word@ == s.subrange(i as int, self.position as int),
                        word_end(s, self.position as int) == word_end(s, i + 1),
                    decreases s.len() - self.position,
                {
                    push_char(&mut word, self.input[self.position]);
                    proof {
                        assert(s.subrange(i as int, self.position + 1) =~= s.subrange(
                            i as int,
                            self.position as int,
                        ).push(s[self.position as int]));
                    }
                    self.position = self.position + 1;
                }
                let t = match keyword_token(word.as_str()) {
                    Some(k) => k,
                    None => Token::Identifier(word),
                };
                proof {
                    lemma_step(done, t@, lex_from(s, self.position as int));
                }
                push_token(&mut tokens, t);
            }
        }
        proof {
            lemma_step(tokens_view(tokens@), TokenView::EOF, Seq::empty());
            assert(seq![TokenView::EOF] + Seq::<TokenView>::empty() =~= seq![TokenView::EOF]);
            assert(tokens_view(tokens@).push(TokenView::EOF) =~= tokens_view(tokens@).push(TokenView::EOF) + Seq::<TokenView>::empty());
        }
        push_token(&mut tokens, Token::EOF);
        proof {
            lemma_lex_ends_once(s, p0);
            assert forall|k: int| 0 <= k < tokens@.len() - 1 implies tokens@[k] != Token::EOF by {
                assert(tokens_view(tokens@)[k] == tokens@[k]@);
            }
        }
        tokens
    }

    /// Reads the next char and moves past it; `None` at the end of the text.
    pub fn next_char(&mut self) -> (r: Option<char>)
        ensures
            final(self).text() == old(self).text(),
            old(self).pos() < old(self).text().len() ==> r == Some(old(self).text()[old(self).pos()])
                && final(self).pos() == old(self).pos() + 1,
            old(self).pos() >= old(self).text().len() ==> r is None && final(self).pos()
                == old(self).pos(),
    {
        if self.position < self.input.len() {
            let ch = self.input[self.position];
            self.position += 1;
            Some(ch)
        } else {
            None
        }
    }
}

} // verus!
