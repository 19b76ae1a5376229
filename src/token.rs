//! The token vocabulary and its mathematical model.
use vstd::prelude::*;

verus! {

/// The primitive type keywords of the language.
#[derive(Clone, Copy, Debug, PartialEq, Eq, Structural)]
pub enum Type {
    /// The `int` type
    Int,
    /// The `char` type
    Char,
}

/// The spelling of a type keyword.
pub open spec fn type_spelling(ty: Type) -> Seq<char> {
    match ty {
        Type::Int => seq!['i', 'n', 't'],
        Type::Char => seq!['c', 'h', 'a', 'r'],
    }
}

impl Type {
    /// The keyword that names this type.
    pub fn text(&self) -> (r: String)
        ensures
            r@ == type_spelling(*self),
    {
        let mut s = String::new();
        match self {
            Type::Int => {
                s.push('i');
                s.push('n');
                s.push('t');
            },
            Type::Char => {
                s.push('c');
                s.push('h');
                s.push('a');
                s.push('r');
            },
        }
        s
    }
}

/// One lexeme, classified.
#[derive(Clone, Debug, PartialEq, Eq)]
pub enum Token {
    /// Opening brace
    LBrace,
    /// Closing brace
    RBrace,
    /// Opening parenthesis
    LParen,
    /// Closing parenthesis
    RParen,
    /// A semicolon
    Semicolon,
    /// The `return` keyword
    Return,
    /// A type keyword
    TypeKeyword(Type),
    /// An identifier `[a-zA-Z][a-zA-Z0-9_]*` that is no keyword
    Identifier(String),
    /// An integer literal `[0-9]+`
    Integer(i64),
}

/// What a token is, with the identifier's text as a sequence of characters.
pub enum TokenView {
    LBrace,
    RBrace,
    LParen,
    RParen,
    Semicolon,
    Return,
    TypeKeyword(Type),
    Identifier(Seq<char>),
    Integer(i64),
}

impl View for Token {
    type V = TokenView;

    open spec fn view(&self) -> TokenView {
        match self {
            Token::LBrace => TokenView::LBrace,
            Token::RBrace => TokenView::RBrace,
            Token::LParen => TokenView::LParen,
            Token::RParen => TokenView::RParen,
            Token::Semicolon => TokenView::Semicolon,
            Token::Return => TokenView::Return,
            Token::TypeKeyword(ty) => TokenView::TypeKeyword(*ty),
            Token::Identifier(w) => TokenView::Identifier(w@),
            Token::Integer(v) => TokenView::Integer(*v),
        }
    }
}

/// The model of a token sequence.
pub open spec fn tokens_view(ts: Seq<Token>) -> Seq<TokenView> {
    ts.map_values(|t: Token| t@)
}

/// Why a text could not be tokenized. Positions count characters from zero.
#[derive(Clone, Debug, PartialEq, Eq)]
pub enum LexError {
    /// A character that starts no token.
    UnrecognizedCharacter { ch: char, position: usize },
    /// A run of digits whose value does not fit in an `i64`.
    IntegerOverflow { literal: String, position: usize },
}

/// The model of a lexical error.
pub enum LexErrorView {
    UnrecognizedCharacter { ch: char, position: nat },
    IntegerOverflow { literal: Seq<char>, position: nat },
}

impl View for LexError {
    type V = LexErrorView;

    open spec fn view(&self) -> LexErrorView {
        match self {
            LexError::UnrecognizedCharacter { ch, position } => LexErrorView::UnrecognizedCharacter {
                ch: *ch,
                position: *position as nat,
            },
            LexError::IntegerOverflow { literal, position } => LexErrorView::IntegerOverflow {
                literal: literal@,
                position: *position as nat,
            },
        }
    }
}

/// The model of what tokenizing returns.
pub open spec fn result_view(r: Result<Vec<Token>, LexError>) -> Result<Seq<TokenView>, LexErrorView> {
    match r {
        Ok(ts) => Ok(tokens_view(ts@)),
        Err(e) => Err(e@),
    }
}

/// Relies on `String::push`, which appends one character to the end of the string.
pub assume_specification[ String::push ](s: &mut String, ch: char)
    ensures
        final(s)@ == old(s)@.push(ch),
;

} // verus!
