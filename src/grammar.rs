//! The lexical grammar as spec functions: what tokenizing a text yields.
use vstd::prelude::*;

use crate::token::{LexErrorView, TokenView, Type, type_spelling};

verus! {

/// Whitespace: space, tab, newline and carriage return.
pub open spec fn is_space(c: char) -> bool {
    c == ' ' || c == '\t' || c == '\n' || c == '\r'
}

/// An ASCII letter.
pub open spec fn is_letter(c: char) -> bool {
    ('a' <= c && c <= 'z') || ('A' <= c && c <= 'Z')
}

/// A decimal digit.
pub open spec fn is_digit(c: char) -> bool {
    '0' <= c && c <= '9'
}

/// A character that may continue a word after its first letter.
pub open spec fn is_word_char(c: char) -> bool {
    is_letter(c) || is_digit(c) || c == '_'
}

/// The token of a single punctuation character, if it is one.
pub open spec fn punctuation(c: char) -> Option<TokenView> {
    if c == '{' {
        Some(TokenView::LBrace)
    } else if c == '}' {
        Some(TokenView::RBrace)
    } else if c == '(' {
        Some(TokenView::LParen)
    } else if c == ')' {
        Some(TokenView::RParen)
    } else if c == ';' {
        Some(TokenView::Semicolon)
    } else {
        None
    }
}

/// The spelling of the `return` keyword.
pub open spec fn return_spelling() -> Seq<char> {
    seq!['r', 'e', 't', 'u', 'r', 'n']
}

/// The keyword table: the token of each reserved spelling.
pub open spec fn keyword(w: Seq<char>) -> Option<TokenView> {
    if w == return_spelling() {
        Some(TokenView::Return)
    } else if w == type_spelling(Type::Int) {
        Some(TokenView::TypeKeyword(Type::Int))
    } else if w == type_spelling(Type::Char) {
        Some(TokenView::TypeKeyword(Type::Char))
    } else {
        None
    }
}

/// The token of a complete word: a keyword, or else an identifier.
pub open spec fn word_token(w: Seq<char>) -> TokenView {
    match keyword(w) {
        Some(t) => t,
        None => TokenView::Identifier(w),
    }
}

/// The length of the run of word characters that starts `s`.
pub open spec fn word_len(s: Seq<char>) -> nat
    decreases s.len(),
{
    if s.len() > 0 && is_word_char(s[0]) {
        1 + word_len(s.drop_first())
    } else {
        0
    }
}

/// The length of the run of decimal digits that starts `s`.
pub open spec fn digit_len(s: Seq<char>) -> nat
    decreases s.len(),
{
    if s.len() > 0 && is_digit(s[0]) {
        1 + digit_len(s.drop_first())
    } else {
        0
    }
}

/// The value of a decimal digit.
pub open spec fn digit_value(c: char) -> nat {
    (c as u32 - '0' as u32) as nat
}

/// The value of a sequence of decimal digits, most significant first.
pub open spec fn digits_value(d: Seq<char>) -> nat
    decreases d.len(),
{
    if d.len() == 0 {
        0
    } else {
        digits_value(d.drop_last()) * 10 + digit_value(d.last())
    }
}

/// Puts `pre` in front of a successful result; an error stays as it is.
pub open spec fn prepend(
    pre: Seq<TokenView>,
    r: Result<Seq<TokenView>, LexErrorView>,
) -> Result<Seq<TokenView>, LexErrorView> {
    match r {
        Ok(ts) => Ok(pre + ts),
        Err(e) => Err(e),
    }
}

/// Puts `t` in front of a successful result; an error stays as it is.
pub open spec fn cons(
    t: TokenView,
    r: Result<Seq<TokenView>, LexErrorView>,
) -> Result<Seq<TokenView>, LexErrorView> {
    match r {
        Ok(ts) => Ok(seq![t] + ts),
        Err(e) => Err(e),
    }
}

/// The tokens of `s`, or the first error in it, where `s` starts at position `at`
/// of the whole text. Whitespace separates tokens; a word or a digit run extends
/// as far as it can.
pub open spec fn scan(s: Seq<char>, at: nat) -> Result<Seq<TokenView>, LexErrorView>
    decreases s.len(),
    via scan_decreases
{
    if s.len() == 0 {
        Ok(seq![])
    } else if is_space(s[0]) {
        scan(s.drop_first(), at + 1)
    } else if punctuation(s[0]) is Some {
        cons(punctuation(s[0])->0, scan(s.drop_first(), at + 1))
    } else if is_letter(s[0]) {
        let n = word_len(s);
        cons(word_token(s.take(n as int)), scan(s.skip(n as int), at + n))
    } else if is_digit(s[0]) {
        let n = digit_len(s);
        let v = digits_value(s.take(n as int));
        if v <= i64::MAX {
            cons(TokenView::Integer(v as i64), scan(s.skip(n as int), at + n))
        } else {
            Err(LexErrorView::IntegerOverflow { literal: s.take(n as int), position: at })
        }
    } else {
        Err(LexErrorView::UnrecognizedCharacter { ch: s[0], position: at })
    }
}

/// The length of the piece of text that starts `s`: a word, a digit run, or a
/// single character (whitespace, punctuation, or one that starts no token).
pub open spec fn piece_len(s: Seq<char>) -> nat {
    if s.len() == 0 {
        0
    } else if is_letter(s[0]) {
        word_len(s)
    } else if is_digit(s[0]) {
        digit_len(s)
    } else {
        1
    }
}

/// `s` cut into its pieces, left to right, each as long as maximal munch makes it.
pub open spec fn pieces(s: Seq<char>) -> Seq<Seq<char>>
    decreases s.len(),
    via pieces_decreases
{
    if s.len() == 0 {
        seq![]
    } else {
        seq![s.take(piece_len(s) as int)] + pieces(s.skip(piece_len(s) as int))
    }
}

/// A piece that the tokenizer accepts: whitespace, punctuation, a word that
/// starts with a letter, or a digit run whose value fits in an `i64`.
pub open spec fn is_supported(p: Seq<char>) -> bool {
    p.len() > 0 && (is_space(p[0]) || punctuation(p[0]) is Some || is_letter(p[0]) || (is_digit(
        p[0],
    ) && digits_value(p) <= i64::MAX))
}

/// The token of a supported piece; `None` for whitespace.
pub open spec fn piece_token(p: Seq<char>) -> Option<TokenView> {
    if is_space(p[0]) {
        None
    } else if punctuation(p[0]) is Some {
        punctuation(p[0])
    } else if is_letter(p[0]) {
        Some(word_token(p))
    } else {
        Some(TokenView::Integer(digits_value(p) as i64))
    }
}

/// The tokens of a sequence of pieces, whitespace left out.
pub open spec fn piece_tokens(ps: Seq<Seq<char>>) -> Seq<TokenView>
    decreases ps.len(),
{
    if ps.len() == 0 {
        seq![]
    } else {
        match piece_token(ps[0]) {
            Some(t) => seq![t] + piece_tokens(ps.drop_first()),
            None => piece_tokens(ps.drop_first()),
        }
    }
}

/// A text made only of supported pieces is tokenized without error: the pieces
/// put back together are the text, and the tokens are those of its pieces that
/// are not whitespace, in order.
pub proof fn lemma_scan_covers(s: Seq<char>, at: nat)
    requires
        forall|i: int| 0 <= i < pieces(s).len() ==> is_supported(#[trigger] pieces(s)[i]),
    ensures
        pieces(s).flatten() == s,
        scan(s, at) == Ok::<Seq<TokenView>, LexErrorView>(piece_tokens(pieces(s))),
    decreases s.len(),
{
    lemma_word_len_bounds(s);
    lemma_digit_len_bounds(s);
    if s.len() == 0 {
    } else {
        let n = piece_len(s);
        let ps = pieces(s);
        let first = s.take(n as int);
        let rest = s.skip(n as int);
        assert(ps[0] == first);
        assert(ps.drop_first() =~= pieces(rest));
        assert forall|i: int| 0 <= i < pieces(rest).len() implies is_supported(
            #[trigger] pieces(rest)[i],
        ) by {
            assert(pieces(rest)[i] == ps[i + 1]);
        }
        lemma_scan_covers(rest, at + n);
        assert(first + rest =~= s);
        assert(first[0] == s[0]);
        if is_space(s[0]) || punctuation(s[0]) is Some {
            assert(rest =~= s.drop_first());
        }
    }
}

/// A word run lies within `s`, and is not empty where `s` starts with a word character.
pub proof fn lemma_word_len_bounds(s: Seq<char>)
    ensures
        word_len(s) <= s.len(),
        s.len() > 0 && is_word_char(s[0]) ==> word_len(s) >= 1,
    decreases s.len(),
{
    if s.len() > 0 && is_word_char(s[0]) {
        lemma_word_len_bounds(s.drop_first());
    }
}

/// A digit run lies within `s`, and is not empty where `s` starts with a digit.
pub proof fn lemma_digit_len_bounds(s: Seq<char>)
    ensures
        digit_len(s) <= s.len(),
        s.len() > 0 && is_digit(s[0]) ==> digit_len(s) >= 1,
    decreases s.len(),
{
    if s.len() > 0 && is_digit(s[0]) {
        lemma_digit_len_bounds(s.drop_first());
    }
}

/// Putting `pre` and then `t` in front is putting `pre.push(t)` in front.
pub proof fn lemma_prepend_cons(
    pre: Seq<TokenView>,
    t: TokenView,
    r: Result<Seq<TokenView>, LexErrorView>,
)
    ensures
        prepend(pre, cons(t, r)) == prepend(pre.push(t), r),
{
    if let Ok(ts) = r {
        assert(pre + (seq![t] + ts) =~= pre.push(t) + ts);
    }
}

/// A digit sequence is worth at least as much as any of its prefixes.
pub proof fn lemma_digits_value_prefix(d: Seq<char>, k: int)
    requires
        0 <= k <= d.len(),
    ensures
        digits_value(d.take(k)) <= digits_value(d),
    decreases d.len(),
{
    if k == d.len() {
        assert(d.take(k) =~= d);
    } else {
        lemma_digits_value_prefix(d.drop_last(), k);
        assert(d.drop_last().take(k) =~= d.take(k));
    }
}

/// Every character of the digit run that starts `s` is a digit.
pub proof fn lemma_digit_run(s: Seq<char>)
    ensures
        forall|k: int| 0 <= k < digit_len(s) ==> is_digit(#[trigger] s[k]),
    decreases s.len(),
{
    lemma_digit_len_bounds(s);
    if s.len() > 0 && is_digit(s[0]) {
        lemma_digit_run(s.drop_first());
        assert forall|k: int| 0 <= k < digit_len(s) implies is_digit(#[trigger] s[k]) by {
            if k > 0 {
                assert(s[k] == s.drop_first()[k - 1]);
            }
        }
    }
}

/// A word followed by a character that cannot continue it is one run.
pub proof fn lemma_word_len_concat(w: Seq<char>, tail: Seq<char>)
    requires
        forall|k: int| 0 <= k < w.len() ==> is_word_char(#[trigger] w[k]),
        tail.len() == 0 || !is_word_char(tail[0]),
    ensures
        word_len(w + tail) == w.len(),
    decreases w.len(),
{
    if w.len() == 0 {
        assert(w + tail =~= tail);
    } else {
        assert((w + tail)[0] == w[0]);
        assert((w + tail).drop_first() =~= w.drop_first() + tail);
        assert forall|k: int| 0 <= k < w.drop_first().len() implies is_word_char(
            #[trigger] w.drop_first()[k],
        ) by {
            assert(w.drop_first()[k] == w[k + 1]);
        }
        lemma_word_len_concat(w.drop_first(), tail);
    }
}

/// A digit run followed by a character that is no digit is one run.
pub proof fn lemma_digit_len_concat(d: Seq<char>, tail: Seq<char>)
    requires
        forall|k: int| 0 <= k < d.len() ==> is_digit(#[trigger] d[k]),
        tail.len() == 0 || !is_digit(tail[0]),
    ensures
        digit_len(d + tail) == d.len(),
    decreases d.len(),
{
    if d.len() == 0 {
        assert(d + tail =~= tail);
    } else {
        assert((d + tail)[0] == d[0]);
        assert((d + tail).drop_first() =~= d.drop_first() + tail);
        assert forall|k: int| 0 <= k < d.drop_first().len() implies is_digit(
            #[trigger] d.drop_first()[k],
        ) by {
            assert(d.drop_first()[k] == d[k + 1]);
        }
        lemma_digit_len_concat(d.drop_first(), tail);
    }
}

#[via_fn]
proof fn pieces_decreases(s: Seq<char>) {
    lemma_word_len_bounds(s);
    lemma_digit_len_bounds(s);
}

#[via_fn]
proof fn scan_decreases(s: Seq<char>, at: nat) {
    lemma_word_len_bounds(s);
    lemma_digit_len_bounds(s);
}

} // verus!
