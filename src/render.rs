//! The textual form of tokens, and the law that tokenizing it gives the tokens back.
use vstd::prelude::*;
use vstd::string::StringExecFns;

use crate::token::{Token, TokenView, tokens_view, type_spelling};
use crate::grammar::{
    cons, digit_value, digits_value, is_digit, is_letter, is_space, is_word_char, keyword,
    lemma_digit_len_concat, lemma_word_len_concat, return_spelling, scan, word_token,
};

verus! {

/// The character of a decimal digit `d < 10`.
pub open spec fn digit_char(d: nat) -> char {
    ((48 + d) as u8) as char
}

/// The decimal digits of `n`, most significant first, with no leading zero.
pub open spec fn decimal(n: nat) -> Seq<char>
    decreases n,
{
    if n < 10 {
        seq![digit_char(n)]
    } else {
        decimal(n / 10).push(digit_char(n % 10))
    }
}

/// How a token is written.
pub open spec fn spelling(t: TokenView) -> Seq<char> {
    match t {
        TokenView::LBrace => seq!['{'],
        TokenView::RBrace => seq!['}'],
        TokenView::LParen => seq!['('],
        TokenView::RParen => seq![')'],
        TokenView::Semicolon => seq![';'],
        TokenView::Return => return_spelling(),
        TokenView::TypeKeyword(ty) => type_spelling(ty),
        TokenView::Identifier(w) => w,
        TokenView::Integer(v) => if v >= 0 {
            decimal(v as nat)
        } else {
            seq!['-'] + decimal((-v) as nat)
        },
    }
}

/// The tokens written one after another, separated by single spaces.
pub open spec fn rendering(ts: Seq<TokenView>) -> Seq<char>
    decreases ts.len(),
{
    if ts.len() == 0 {
        seq![]
    } else if ts.len() == 1 {
        spelling(ts[0])
    } else {
        spelling(ts[0]) + seq![' '] + rendering(ts.drop_first())
    }
}

/// A word that the tokenizer reads back as this identifier.
pub open spec fn is_identifier(w: Seq<char>) -> bool {
    &&& w.len() > 0
    &&& is_letter(w[0])
    &&& forall|k: int| 0 <= k < w.len() ==> is_word_char(#[trigger] w[k])
    &&& keyword(w) is None
}

/// A token whose spelling the tokenizer reads back as the same token: an
/// identifier must be one, and an integer must not be negative.
pub open spec fn is_writable(t: TokenView) -> bool {
    match t {
        TokenView::Identifier(w) => is_identifier(w),
        TokenView::Integer(v) => v >= 0,
        _ => true,
    }
}

/// The decimal digits of `n` are digits, at least one, and are worth `n`.
pub proof fn lemma_decimal(n: nat)
    ensures
        decimal(n).len() >= 1,
        forall|k: int| 0 <= k < decimal(n).len() ==> is_digit(#[trigger] decimal(n)[k]),
        digits_value(decimal(n)) == n,
    decreases n,
{
    let d = decimal(n);
    if n < 10 {
        assert(d.drop_last() =~= Seq::<char>::empty());
        assert(digits_value(d) == digits_value(d.drop_last()) * 10 + digit_value(d.last()));
    } else {
        lemma_decimal(n / 10);
        assert(d.drop_last() =~= decimal(n / 10));
        assert(d.last() == digit_char(n % 10));
        assert(digit_value(digit_char(n % 10)) == n % 10);
        assert(digits_value(d) == digits_value(d.drop_last()) * 10 + digit_value(d.last()));
        assert((n / 10) * 10 + n % 10 == n) by (nonlinear_arith);
        assert forall|k: int| 0 <= k < d.len() implies is_digit(#[trigger] d[k]) by {
            if k < d.len() - 1 {
                assert(d[k] == decimal(n / 10)[k]);
            }
        }
    }
}

/// Tokenizing a writable token's spelling, followed by whitespace or nothing,
/// gives that token first.
pub proof fn lemma_scan_spelling(t: TokenView, tail: Seq<char>, at: nat)
    requires
        is_writable(t),
        tail.len() == 0 || is_space(tail[0]),
    ensures
        scan(spelling(t) + tail, at) == cons(t, scan(tail, at + spelling(t).len())),
{
    let w = spelling(t);
    let s = w + tail;
    match t {
        TokenView::LBrace | TokenView::RBrace | TokenView::LParen | TokenView::RParen
        | TokenView::Semicolon => {
            assert(s[0] == w[0]);
            assert(s.drop_first() =~= tail);
        },
        TokenView::Integer(v) => {
            lemma_decimal(v as nat);
            lemma_digit_len_concat(w, tail);
            assert(s[0] == w[0]);
            assert(s.take(w.len() as int) =~= w);
            assert(s.skip(w.len() as int) =~= tail);
        },
        _ => {
            assert forall|k: int| 0 <= k < w.len() implies is_word_char(#[trigger] w[k]) by {
            }
            lemma_word_len_concat(w, tail);
            assert(s[0] == w[0]);
            assert(s.take(w.len() as int) =~= w);
            assert(s.skip(w.len() as int) =~= tail);
            assert(word_token(w) == t);
        },
    }
}

/// Tokenizing the rendering of writable tokens gives the same tokens back.
pub proof fn lemma_render_round_trip(ts: Seq<TokenView>, at: nat)
    requires
        forall|i: int| 0 <= i < ts.len() ==> is_writable(#[trigger] ts[i]),
    ensures
        scan(rendering(ts), at) == Ok::<Seq<TokenView>, crate::token::LexErrorView>(ts),
    decreases ts.len(),
{
    if ts.len() == 0 {
        assert(ts =~= Seq::<TokenView>::empty());
    } else if ts.len() == 1 {
        let e = Seq::<char>::empty();
        assert(spelling(ts[0]) + e =~= spelling(ts[0]));
        lemma_scan_spelling(ts[0], e, at);
        assert(seq![ts[0]] + Seq::<TokenView>::empty() =~= ts);
    } else {
        let rest = ts.drop_first();
        let tail = seq![' '] + rendering(rest);
        let a = at + spelling(ts[0]).len();
        assert(spelling(ts[0]) + seq![' '] + rendering(rest) =~= spelling(ts[0]) + tail);
        lemma_scan_spelling(ts[0], tail, at);
        assert(tail.drop_first() =~= rendering(rest));
        lemma_render_round_trip(rest, a + 1);
        assert(seq![ts[0]] + rest =~= ts);
    }
}

/// Rendering one more token appends a space and its spelling.
pub proof fn lemma_rendering_push(ts: Seq<TokenView>, t: TokenView)
    ensures
        rendering(ts.push(t)) == if ts.len() == 0 {
            spelling(t)
        } else {
            rendering(ts) + seq![' '] + spelling(t)
        },
    decreases ts.len(),
{
    if ts.len() == 0 {
        assert(ts.push(t)[0] == t);
    } else if ts.len() == 1 {
        assert(ts.push(t).drop_first() =~= seq![t]);
        assert(rendering(seq![t]) == spelling(t));
        assert(ts.push(t)[0] == ts[0]);
        assert(rendering(ts) == spelling(ts[0]));
    } else if ts.len() > 1 {
        assert(ts.push(t).drop_first() =~= ts.drop_first().push(t));
        lemma_rendering_push(ts.drop_first(), t);
        assert(spelling(ts[0]) + seq![' '] + (rendering(ts.drop_first()) + seq![' '] + spelling(t))
            =~= spelling(ts[0]) + seq![' '] + rendering(ts.drop_first()) + seq![' '] + spelling(t));
    }
}

/// The string of one character.
fn char_text(c: char) -> (r: String)
    ensures
        r@ == seq![c],
{
    let mut s = String::new();
    s.push(c);
    s
}

/// The decimal digits of `n`.
fn decimal_text(n: u64) -> (r: String)
    ensures
        r@ == decimal(n as nat),
    decreases n,
{
    if n < 10 {
        char_text(((48 + n) as u8) as char)
    } else {
        let mut s = decimal_text(n / 10);
        s.push(((48 + n % 10) as u8) as char);
        s
    }
}

impl Token {
    /// How this token is written in source text.
    pub fn text(&self) -> (r: String)
        ensures
            r@ == spelling(self@),
    {
        match self {
            Token::LBrace => char_text('{'),
            Token::RBrace => char_text('}'),
            Token::LParen => char_text('('),
            Token::RParen => char_text(')'),
            Token::Semicolon => char_text(';'),
            Token::Return => {
                let mut s = String::new();
                s.push('r');
                s.push('e');
                s.push('t');
                s.push('u');
                s.push('r');
                s.push('n');
                s
            },
            Token::TypeKeyword(ty) => ty.text(),
            Token::Identifier(w) => w.clone(),
            Token::Integer(v) => {
                if *v >= 0 {
                    decimal_text(*v as u64)
                } else {
                    let mut s = char_text('-');
                    let digits = decimal_text((-(*v as i128)) as u64);
                    s.append(digits.as_str());
                    s
                }
            },
        }
    }
}

/// Writes the tokens as text, separated by single spaces.
pub fn render(tokens: &Vec<Token>) -> (r: String)
    ensures
        r@ == rendering(tokens_view(tokens@)),
{
    let mut s = String::new();
    let mut i: usize = 0;
    while i < tokens.len()
        invariant
            i <= tokens.len(),
            s@ == rendering(tokens_view(tokens@.take(i as int))),
        decreases tokens.len() - i,
    {
        let t = tokens[i].text();
        proof {
            assert(tokens_view(tokens@.take(i + 1)) =~= tokens_view(tokens@.take(i as int)).push(
                tokens@[i as int]@,
            ));
            lemma_rendering_push(tokens_view(tokens@.take(i as int)), tokens@[i as int]@);
        }
        if i > 0 {
            s.push(' ');
        }
        s.append(t.as_str());
        i += 1;
    }
    assert(tokens@.take(tokens.len() as int) =~= tokens@);
    s
}

} // verus!
