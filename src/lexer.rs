//! The tokenizer: one left-to-right scan with maximal munch.
use vstd::prelude::*;

use crate::grammar::{
    digit_len, digits_value, is_digit, is_letter, is_space, is_word_char, keyword,
    lemma_digit_len_bounds, lemma_digit_run, lemma_digits_value_prefix, lemma_prepend_cons,
    prepend, punctuation, return_spelling, scan, word_len, word_token,
};
use crate::token::{LexError, Token, Type, result_view, tokens_view};

verus! {

broadcast use vstd::string::group_string_axioms;

/// The characters of `source`, in order.
fn chars_of(source: &str) -> (r: Vec<char>)
    ensures
        r@ == source@,
{
    let mut cs: Vec<char> = Vec::new();
    for c in it: source.chars()
        invariant
            cs@ == it.seq().take(it.index() as int),
    {
        cs.push(c);
    }
    cs
}

fn space_char(c: char) -> (r: bool)
    ensures
        r == is_space(c),
{
    c == ' ' || c == '\t' || c == '\n' || c == '\r'
}

fn letter_char(c: char) -> (r: bool)
    ensures
        r == is_letter(c),
{
    ('a' <= c && c <= 'z') || ('A' <= c && c <= 'Z')
}

fn digit_char(c: char) -> (r: bool)
    ensures
        r == is_digit(c),
{
    '0' <= c && c <= '9'
}

fn word_char(c: char) -> (r: bool)
    ensures
        r == is_word_char(c),
{
    letter_char(c) || digit_char(c) || c == '_'
}

/// The token of a punctuation character.
fn punctuation_token(c: char) -> (r: Option<Token>)
    ensures
        r matches Some(t) ==> punctuation(c) == Some(t@),
        r is None ==> punctuation(c) is None,
{
    if c == '{' {
        Some(Token::LBrace)
    } else if c == '}' {
        Some(Token::RBrace)
    } else if c == '(' {
        Some(Token::LParen)
    } else if c == ')' {
        Some(Token::RParen)
    } else if c == ';' {
        Some(Token::Semicolon)
    } else {
        None
    }
}

/// Looks a word up in the keyword table.
fn keyword_token(w: &[char]) -> (r: Option<Token>)
    ensures
        r matches Some(t) ==> keyword(w@) == Some(t@),
        r is None ==> keyword(w@) is None,
{
    if w.len() == 6 && w[0] == 'r' && w[1] == 'e' && w[2] == 't' && w[3] == 'u' && w[4] == 'r'
        && w[5] == 'n' {
        assert(w@ =~= return_spelling());
        Some(Token::Return)
    } else if w.len() == 3 && w[0] == 'i' && w[1] == 'n' && w[2] == 't' {
        assert(w@ =~= seq!['i', 'n', 't']);
        Some(Token::TypeKeyword(Type::Int))
    } else if w.len() == 4 && w[0] == 'c' && w[1] == 'h' && w[2] == 'a' && w[3] == 'r' {
        assert(w@ =~= seq!['c', 'h', 'a', 'r']);
        Some(Token::TypeKeyword(Type::Char))
    } else {
        None
    }
}

/// The end of the run of word characters that starts at `start`.
fn word_end(cs: &Vec<char>, start: usize) -> (r: usize)
    requires
        start <= cs.len(),
    ensures
        r == start + word_len(cs@.skip(start as int)),
        r <= cs.len(),
{
    let mut j: usize = start;
    while j < cs.len() && word_char(cs[j])
        invariant
            start <= j <= cs.len(),
            start + word_len(cs@.skip(start as int)) == j + word_len(cs@.skip(j as int)),
        decreases cs.len() - j,
    {
        assert(cs@.skip(j as int).drop_first() =~= cs@.skip(j + 1));
        j += 1;
    }
    j
}

/// The end of the run of decimal digits that starts at `start`.
fn digit_end(cs: &Vec<char>, start: usize) -> (r: usize)
    requires
        start <= cs.len(),
    ensures
        r == start + digit_len(cs@.skip(start as int)),
        r <= cs.len(),
{
    let mut j: usize = start;
    while j < cs.len() && digit_char(cs[j])
        invariant
            start <= j <= cs.len(),
            start + digit_len(cs@.skip(start as int)) == j + digit_len(cs@.skip(j as int)),
        decreases cs.len() - j,
    {
        assert(cs@.skip(j as int).drop_first() =~= cs@.skip(j + 1));
        j += 1;
    }
    j
}

/// The value of the digits `cs[start..end]`, or `None` where it exceeds `i64::MAX`.
fn parse_digits(cs: &Vec<char>, start: usize, end: usize) -> (r: Option<i64>)
    requires
        start <= end <= cs.len(),
        forall|k: int| start <= k < end ==> is_digit(#[trigger] cs@[k]),
    ensures
        r matches Some(v) ==> v == digits_value(cs@.subrange(start as int, end as int)),
        r is None <==> digits_value(cs@.subrange(start as int, end as int)) > i64::MAX,
{
    let mut value: i64 = 0;
    let mut k: usize = start;
    assert(cs@.subrange(start as int, start as int).len() == 0);
    while k < end
        invariant
            start <= k <= end <= cs.len(),
            forall|k: int| start <= k < end ==> is_digit(#[trigger] cs@[k]),
            0 <= value,
            value == digits_value(cs@.subrange(start as int, k as int)),
        decreases end - k,
    {
        let ghost next = cs@.subrange(start as int, k + 1);
        assert(next.drop_last() =~= cs@.subrange(start as int, k as int));
        assert(next.last() == cs@[k as int]);
        let d = (cs[k] as u32 - '0' as u32) as i64;
        let scaled = value.checked_mul(10);
        let sum = match scaled {
            Some(m) => m.checked_add(d),
            None => None,
        };
        match sum {
            Some(v) => {
                value = v;
            },
            None => {
                proof {
                    let all = cs@.subrange(start as int, end as int);
                    assert(all.take(k + 1 - start) =~= next);
                    lemma_digits_value_prefix(all, k + 1 - start);
                }
                return None;
            },
        }
        k += 1;
    }
    Some(value)
}

/// The characters `cs[start..end]` as a string.
fn text_of(cs: &Vec<char>, start: usize, end: usize) -> (r: String)
    requires
        start <= end <= cs.len(),
    ensures
        r@ == cs@.subrange(start as int, end as int),
{
    let mut s = String::new();
    let mut k: usize = start;
    while k < end
        invariant
            start <= k <= end <= cs.len(),
            s@ == cs@.subrange(start as int, k as int),
        decreases end - k,
    {
        s.push(cs[k]);
        assert(s@ =~= cs@.subrange(start as int, k + 1));
        k += 1;
    }
    s
}

/// Tokenizes `source`: the token sequence that the grammar gives, or the first
/// lexical error in it, with its character position.
pub fn tokenize(source: &str) -> (r: Result<Vec<Token>, LexError>)
    ensures
        result_view(r) == scan(source@, 0),
{
    let cs = chars_of(source);
    let n = cs.len();
    let mut tokens: Vec<Token> = Vec::new();
    let mut i: usize = 0;
    assert(cs@.skip(0) =~= cs@);
    assert(prepend(seq![], scan(cs@, 0)) == scan(cs@, 0)) by {
        if let Ok(ts) = scan(cs@, 0) {
            assert(Seq::<crate::token::TokenView>::empty() + ts =~= ts);
        }
    }
    while i < n
        invariant
            i <= n == cs.len(),
            cs@ == source@,
            scan(cs@, 0) == prepend(tokens_view(tokens@), scan(cs@.skip(i as int), i as nat)),
        decreases n - i,
    {
        let ghost rest = cs@.skip(i as int);
        let ghost before = tokens_view(tokens@);
        let c = cs[i];
        assert(rest[0] == c);
        if space_char(c) {
            assert(rest.drop_first() =~= cs@.skip(i + 1));
            i += 1;
        } else if let Some(t) = punctuation_token(c) {
            assert(rest.drop_first() =~= cs@.skip(i + 1));
            proof {
                lemma_prepend_cons(before, t@, scan(cs@.skip(i + 1), (i + 1) as nat));
            }
            tokens.push(t);
            assert(tokens_view(tokens@) =~= before.push(t@));
            i += 1;
        } else if letter_char(c) {
            let end = word_end(&cs, i);
            let ghost len = word_len(rest);
            assert(rest.take(len as int) =~= cs@.subrange(i as int, end as int));
            assert(rest.skip(len as int) =~= cs@.skip(end as int));
            let word = vstd::slice::slice_subrange(cs.as_slice(), i, end);
            let t = match keyword_token(word) {
                Some(k) => k,
                None => Token::Identifier(text_of(&cs, i, end)),
            };
            assert(t@ == word_token(cs@.subrange(i as int, end as int)));
            proof {
                lemma_prepend_cons(before, t@, scan(cs@.skip(end as int), end as nat));
            }
            tokens.push(t);
            assert(tokens_view(tokens@) =~= before.push(t@));
            i = end;
        } else if digit_char(c) {
            let end = digit_end(&cs, i);
            let ghost len = digit_len(rest);
            proof {
                lemma_digit_run(rest);
                lemma_digit_len_bounds(rest);
            }
            assert(rest.take(len as int) =~= cs@.subrange(i as int, end as int));
            assert(rest.skip(len as int) =~= cs@.skip(end as int));
            assert forall|k: int| i <= k < end implies is_digit(#[trigger] cs@[k]) by {
                assert(cs@[k] == rest[k - i]);
            }
            match parse_digits(&cs, i, end) {
                Some(v) => {
                    let t = Token::Integer(v);
                    proof {
                        lemma_prepend_cons(before, t@, scan(cs@.skip(end as int), end as nat));
                    }
                    tokens.push(t);
                    assert(tokens_view(tokens@) =~= before.push(t@));
                    i = end;
                },
                None => {
                    return Err(LexError::IntegerOverflow { literal: text_of(&cs, i, end), position: i });
                },
            }
        } else {
            return Err(LexError::UnrecognizedCharacter { ch: c, position: i });
        }
    }
    assert(cs@.skip(n as int) =~= Seq::<char>::empty());
    assert(tokens_view(tokens@) + seq![] =~= tokens_view(tokens@));
    Ok(tokens)
}

/// Tokenizes the contents of a C file; the same as [`tokenize`].
pub fn lex(expr: String) -> (r: Result<Vec<Token>, LexError>)
    ensures
        result_view(r) == scan(expr@, 0),
{
    tokenize(expr.as_str())
}

} // verus!
