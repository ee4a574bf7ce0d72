use vstd::prelude::*;
use crate::lexer::{
    digits_end, digits_value, is_ascii_letter, lemma_lex_ignores_prefix, lex, lex_from,
    saturate, string_end, word_end, word_token, keyword, is_digit, is_whitespace,
    lemma_lex_leading_blanks,
};
use crate::token::TokenView;

verus! {

/// The char of a decimal digit.
pub open spec fn digit_char(d: int) -> char {
    if d == 0 { '0' }
    else if d == 1 { '1' }
    else if d == 2 { '2' }
    else if d == 3 { '3' }
    else if d == 4 { '4' }
    else if d == 5 { '5' }
    else if d == 6 { '6' }
    else if d == 7 { '7' }
    else if d == 8 { '8' }
    else { '9' }
}

/// The decimal digits of `n`, most significant first, without leading zeros.
pub open spec fn decimal(n: nat) -> Seq<char>
    decreases n,
{
    if n < 10 {
        seq![digit_char(n as int)]
    } else {
        decimal(n / 10).push(digit_char((n % 10) as int))
    }
}

/// A non-empty run of blank space: what separates two tokens.
pub open spec fn blank_gap(g: Seq<char>) -> bool {
    g.len() > 0 && forall|k: int| 0 <= k < g.len() ==> is_whitespace(#[trigger] g[k])
}

/// After a token's text and a gap of blanks, lexing goes on as on the rest alone.
proof fn lemma_after(r: Seq<char>, g: Seq<char>, rest: Seq<char>)
    requires
        blank_gap(g),
    ensures
        lex_from(r + g + rest, r.len() as int) == lex(rest),
{
    assert(r + g + rest =~= r + (g + rest));
    lemma_lex_ignores_prefix(r, g + rest, 0);
    lemma_lex_leading_blanks(g, rest);
}

proof fn lemma_word_end_at(s: Seq<char>, w: int, j: int)
    requires
        1 <= j <= w < s.len(),
        forall|k: int| 0 <= k < w ==> is_ascii_letter(#[trigger] s[k]),
        is_whitespace(s[w]),
    ensures
        word_end(s, j) == w,
    decreases w - j,
{
    if j < w {
        lemma_word_end_at(s, w, j + 1);
    }
}

/// A word of ASCII letters followed by a blank lexes to its word token.
proof fn lemma_lex_word(w: Seq<char>, g: Seq<char>, rest: Seq<char>)
    requires
        blank_gap(g),
        w.len() > 0,
        forall|k: int| 0 <= k < w.len() ==> is_ascii_letter(#[trigger] w[k]),
    ensures
        lex(w + g + rest) == seq![word_token(w)] + lex(rest),
{
    let x = w + g + rest;
    let n = w.len() as int;
    assert forall|k: int| 0 <= k < n implies is_ascii_letter(#[trigger] x[k]) by {
        assert(x[k] == w[k]);
    }
    assert(x[n] == g[0]);
    assert(is_ascii_letter(x[0]));
    lemma_word_end_at(x, n, 1);
    assert(x.subrange(0, n) =~= w);
    lemma_after(w, g, rest);
    assert(lex_from(x, 0) == seq![word_token(w)] + lex_from(x, n));
}

proof fn lemma_decimal(n: nat)
    ensures
        decimal(n).len() >= 1,
        forall|k: int| 0 <= k < decimal(n).len() ==> is_digit(#[trigger] decimal(n)[k]),
        digits_value(decimal(n)) == n,
    decreases n,
{
    if n < 10 {
        let d = decimal(n);
        assert(d.drop_last() =~= Seq::<char>::empty());
        assert(digits_value(Seq::<char>::empty()) == 0);
    } else {
        lemma_decimal(n / 10);
        let d = decimal(n);
        assert(d.drop_last() =~= decimal(n / 10));
        assert(n == (n / 10) * 10 + n % 10) by (nonlinear_arith);
    }
}

proof fn lemma_digits_end_at(s: Seq<char>, e: int, j: int)
    requires
        1 <= j <= e < s.len(),
        forall|k: int| 0 <= k < e ==> is_digit(#[trigger] s[k]),
        is_whitespace(s[e]),
    ensures
        digits_end(s, j) == e,
    decreases e - j,
{
    if j < e {
        lemma_digits_end_at(s, e, j + 1);
    }
}

/// The decimal digits of a number followed by a blank lex to that number.
proof fn lemma_lex_number(n: nat, g: Seq<char>, rest: Seq<char>)
    requires
        n <= i64::MAX,
        blank_gap(g),
    ensures
        lex(decimal(n) + g + rest) == seq![TokenView::Number(n as i64)] + lex(rest),
{
    lemma_decimal(n);
    let d = decimal(n);
    let x = d + g + rest;
    let e = d.len() as int;
    assert forall|k: int| 0 <= k < e implies is_digit(#[trigger] x[k]) by {
        assert(x[k] == d[k]);
    }
    assert(x[e] == g[0]);
    assert(is_digit(x[0]));
    lemma_digits_end_at(x, e, 1);
    assert(x.subrange(0, e) =~= d);
    lemma_after(d, g, rest);
    assert(lex_from(x, 0) == seq![TokenView::Number(saturate(n as int))] + lex_from(x, e));
}

proof fn lemma_string_end_at(s: Seq<char>, e: int, j: int)
    requires
        1 <= j <= e < s.len(),
        forall|k: int| 1 <= k < e ==> #[trigger] s[k] != '"',
        s[e] == '"',
    ensures
        string_end(s, j) == e,
    decreases e - j,
{
    if j < e {
        lemma_string_end_at(s, e, j + 1);
    }
}

/// A quoted text without quotes, followed by a blank, lexes to that string literal.
proof fn lemma_lex_string(t: Seq<char>, g: Seq<char>, rest: Seq<char>)
    requires
        forall|k: int| 0 <= k < t.len() ==> #[trigger] t[k] != '"',
        blank_gap(g),
    ensures
        lex(seq!['"'] + t + seq!['"'] + g + rest) == seq![TokenView::StringLiteral(t)]
            + lex(rest),
{
    let q = seq!['"'] + t + seq!['"'];
    assert(seq!['"'] + t + seq!['"'] + g + rest =~= q + g + rest);
    let x = q + g + rest;
    let e = t.len() + 1int;
    assert forall|k: int| 1 <= k < e implies #[trigger] x[k] != '"' by {
        assert(x[k] == t[k - 1]);
    }
    assert(x[0] == '"');
    assert(x[e] == '"');
    lemma_string_end_at(x, e, 1);
    assert(x.subrange(1, e) =~= t);
    lemma_after(q, g, rest);
    assert(lex_from(x, 0) == seq![TokenView::StringLiteral(t)] + lex_from(x, e + 1));
}

/// The canonical text of a token: keywords in Latin transliteration, numbers in decimal,
/// string literals between double quotes; end-of-input has none.
pub open spec fn render_token(t: TokenView) -> Seq<char> {
    match t {
        TokenView::Identifier(w) => w,
        TokenView::Number(n) => decimal(n as nat),
        TokenView::StringLiteral(x) => seq!['"'] + x + seq!['"'],
        TokenView::If => "yadi"@,
        TokenView::Else => "anyatha"@,
        TokenView::While => "yavat"@,
        TokenView::Function => "kriya"@,
        TokenView::Return => "pratyavartanam"@,
        TokenView::Print => "chapyati"@,
        TokenView::Let => "chal"@,
        TokenView::True => "satya"@,
        TokenView::False => "asatya"@,
        TokenView::Plus => seq!['+'],
        TokenView::Minus => seq!['-'],
        TokenView::Multiply => seq!['*'],
        TokenView::Divide => seq!['/'],
        TokenView::Assign => seq!['='],
        TokenView::Equals => seq!['=', '='],
        TokenView::LeftParen => seq!['('],
        TokenView::RightParen => seq![')'],
        TokenView::LeftBrace => seq!['{'],
        TokenView::RightBrace => seq!['}'],
        TokenView::Semicolon => seq![';'],
        TokenView::Comma => seq![','],
        TokenView::GreaterThan => seq!['>'],
        TokenView::LessThan => seq!['<'],
        TokenView::GreaterEqual => seq!['>', '='],
        TokenView::LessEqual => seq!['<', '='],
        TokenView::NotEqual => seq!['!', '='],
        TokenView::EOF => Seq::empty(),
    }
}

/// The text of a token sequence with the gap `gaps[k]` after the `k`-th token's text.
pub open spec fn render_spaced(ts: Seq<TokenView>, gaps: Seq<Seq<char>>) -> Seq<char>
    decreases ts.len(),
{
    if ts.len() == 0 {
        Seq::empty()
    } else {
        render_token(ts[0]) + gaps[0] + render_spaced(ts.drop_first(), gaps.drop_first())
    }
}

/// The canonical text of a token sequence: each token's text followed by one blank.
pub open spec fn render(ts: Seq<TokenView>) -> Seq<char> {
    render_spaced(ts, Seq::new(ts.len(), |k: int| seq![' ']))
}

/// Whether a token's canonical text lexes back to it: identifiers are non-empty runs of
/// ASCII letters that spell no keyword, numbers are not negative, string literals hold no
/// double quote, and end-of-input stands only at the end.
pub open spec fn renders_back(t: TokenView) -> bool {
    match t {
        TokenView::Identifier(w) => w.len() > 0 && (forall|k: int|
            0 <= k < w.len() ==> is_ascii_letter(#[trigger] w[k])) && keyword(w) is None,
        TokenView::Number(n) => n >= 0,
        TokenView::StringLiteral(x) => forall|k: int| 0 <= k < x.len() ==> #[trigger] x[k] != '"',
        TokenView::EOF => false,
        _ => true,
    }
}

/// A sequence of tokens that renders back: each token does, and end-of-input comes last.
pub open spec fn renderable(ts: Seq<TokenView>) -> bool {
    &&& ts.len() >= 1
    &&& ts.last() == TokenView::EOF
    &&& forall|k: int| 0 <= k < ts.len() - 1 ==> renders_back(#[trigger] ts[k])
}

/// Gaps of blank space, one after each of `n` tokens.
pub open spec fn blank_gaps(gaps: Seq<Seq<char>>, n: int) -> bool {
    gaps.len() == n && forall|k: int| 0 <= k < n ==> blank_gap(#[trigger] gaps[k])
}

proof fn lemma_lex_symbol(t: TokenView, g: Seq<char>, rest: Seq<char>)
    requires
        blank_gap(g),
        !(t is Identifier || t is Number || t is StringLiteral || t is EOF || t is If || t is Else
            || t is While || t is Function || t is Return || t is Print || t is Let || t is True
            || t is False),
    ensures
        lex(render_token(t) + g + rest) == seq![t] + lex(rest),
{
    let r = render_token(t);
    let x = r + g + rest;
    let n = r.len() as int;
    assert(x[0] == r[0]);
    assert(x[n] == g[0]);
    if n == 2 {
        assert(x[1] == r[1]);
    }
    lemma_after(r, g, rest);
}

proof fn lemma_lex_keyword(t: TokenView, g: Seq<char>, rest: Seq<char>)
    requires
        blank_gap(g),
        t is If || t is Else || t is While || t is Function || t is Return || t is Print || t is Let
            || t is True || t is False,
    ensures
        lex(render_token(t) + g + rest) == seq![t] + lex(rest),
{
    reveal_strlit("yadi");
    reveal_strlit("यदि");
    reveal_strlit("anyatha");
    reveal_strlit("अन्यथा");
    reveal_strlit("yavat");
    reveal_strlit("यावत्");
    reveal_strlit("kriya");
    reveal_strlit("क्रिया");
    reveal_strlit("pratyavartanam");
    reveal_strlit("प्रत्यावर्तनम्");
    reveal_strlit("chapyati");
    reveal_strlit("छपयति");
    reveal_strlit("chal");
    reveal_strlit("चल");
    reveal_strlit("satya");
    reveal_strlit("सत्य");
    reveal_strlit("asatya");
    reveal_strlit("असत्य");
    let w = render_token(t);
    assert forall|k: int| 0 <= k < w.len() implies is_ascii_letter(#[trigger] w[k]) by {}
    lemma_lex_word(w, g, rest);
    assert(word_token(w) == t);
}

/// Lexing a renderable token sequence's text, with any blank gaps between the tokens,
/// gives the sequence back.
pub proof fn lemma_lex_render_spaced(ts: Seq<TokenView>, gaps: Seq<Seq<char>>)
    requires
        renderable(ts),
        blank_gaps(gaps, ts.len() as int),
    ensures
        lex(render_spaced(ts, gaps)) == ts,
    decreases ts.len(),
{
    let rest = ts.drop_first();
    let grest = gaps.drop_first();
    let g = gaps[0];
    assert(blank_gap(g));
    if ts.len() == 1 {
        assert(render_spaced(rest, grest) =~= Seq::<char>::empty());
        assert(render_spaced(ts, gaps) =~= Seq::<char>::empty() + g + Seq::<char>::empty());
        lemma_after(Seq::<char>::empty(), g, Seq::<char>::empty());
        assert(ts =~= seq![TokenView::EOF]);
    } else {
        assert forall|k: int| 0 <= k < rest.len() - 1 implies renders_back(#[trigger] rest[k]) by {
            assert(rest[k] == ts[k + 1]);
        }
        assert forall|k: int| 0 <= k < grest.len() implies blank_gap(#[trigger] grest[k]) by {
            assert(grest[k] == gaps[k + 1]);
        }
        lemma_lex_render_spaced(rest, grest);
        let r = render_spaced(rest, grest);
        let t = ts[0];
        assert(renders_back(ts[0]));
        match t {
            TokenView::Identifier(w) => lemma_lex_word(w, g, r),
            TokenView::Number(n) => lemma_lex_number(n as nat, g, r),
            TokenView::StringLiteral(x) => lemma_lex_string(x, g, r),
            TokenView::If | TokenView::Else | TokenView::While | TokenView::Function
            | TokenView::Return | TokenView::Print | TokenView::Let | TokenView::True
            | TokenView::False => lemma_lex_keyword(t, g, r),
            _ => lemma_lex_symbol(t, g, r),
        }
        assert(ts =~= seq![t] + rest);
    }
}

/// Rendering a token sequence canonically and lexing the text gives the same sequence
/// back, literal payloads included, when the sequence is renderable.
pub proof fn lemma_render_round_trip(ts: Seq<TokenView>)
    requires
        renderable(ts),
    ensures
        lex(render(ts)) == ts,
{
    let gaps = Seq::new(ts.len(), |k: int| seq![' ']);
    assert forall|k: int| 0 <= k < ts.len() implies blank_gap(#[trigger] gaps[k]) by {
        assert(gaps[k] =~= seq![' ']);
    }
    lemma_lex_render_spaced(ts, gaps);
}

/// Blank-space edits keep the tokens: the text of a renderable token sequence lexes to
/// the same tokens whatever blank space leads it and whatever blank gaps part its tokens.
pub proof fn lemma_blank_edits_keep_tokens(
    ts: Seq<TokenView>,
    lead1: Seq<char>,
    gaps1: Seq<Seq<char>>,
    lead2: Seq<char>,
    gaps2: Seq<Seq<char>>,
)
    requires
        renderable(ts),
        forall|k: int| 0 <= k < lead1.len() ==> is_whitespace(#[trigger] lead1[k]),
        forall|k: int| 0 <= k < lead2.len() ==> is_whitespace(#[trigger] lead2[k]),
        blank_gaps(gaps1, ts.len() as int),
        blank_gaps(gaps2, ts.len() as int),
    ensures
        lex(lead1 + render_spaced(ts, gaps1)) == lex(lead2 + render_spaced(ts, gaps2)),
        lex(lead1 + render_spaced(ts, gaps1)) == ts,
{
    lemma_lex_render_spaced(ts, gaps1);
    lemma_lex_render_spaced(ts, gaps2);
    lemma_lex_leading_blanks(lead1, render_spaced(ts, gaps1));
    lemma_lex_leading_blanks(lead2, render_spaced(ts, gaps2));
}

} // verus!
