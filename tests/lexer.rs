use c_lexer::{lex, tokenize, LexError, Token, Type};

fn ident(s: &str) -> Token {
    Token::Identifier(s.to_string())
}

#[test]
fn maximal_munch_keeps_words_whole() {
    assert_eq!(tokenize("returnValue"), Ok(vec![ident("returnValue")]));
}

#[test]
fn keywords_match_exactly() {
    assert_eq!(tokenize("int"), Ok(vec![Token::TypeKeyword(Type::Int)]));
    assert_eq!(tokenize("integer"), Ok(vec![ident("integer")]));
    assert_eq!(tokenize("char"), Ok(vec![Token::TypeKeyword(Type::Char)]));
    assert_eq!(tokenize("return"), Ok(vec![Token::Return]));
    assert_eq!(tokenize("Return"), Ok(vec![ident("Return")]));
    assert_eq!(tokenize("ret"), Ok(vec![ident("ret")]));
}

#[test]
fn punctuation_and_whitespace_do_not_matter() {
    let expected = vec![
        Token::TypeKeyword(Type::Int),
        ident("main"),
        Token::LParen,
        Token::RParen,
        Token::LBrace,
        Token::Return,
        Token::Integer(0),
        Token::Semicolon,
        Token::RBrace,
    ];
    assert_eq!(tokenize("int main(){return 0;}"), Ok(expected.clone()));
    assert_eq!(tokenize("int  main ( ) { return 0 ; }"), Ok(expected.clone()));
    assert_eq!(tokenize("\tint\nmain\r\n(\n)\t{return 0;}\n"), Ok(expected));
}

#[test]
fn integers_are_parsed() {
    assert_eq!(tokenize("42"), Ok(vec![Token::Integer(42)]));
    assert_eq!(tokenize("007"), Ok(vec![Token::Integer(7)]));
    assert_eq!(
        tokenize("9223372036854775807"),
        Ok(vec![Token::Integer(i64::MAX)])
    );
}

#[test]
fn integer_one_past_the_maximum_overflows() {
    assert_eq!(
        tokenize("9223372036854775808"),
        Err(LexError::IntegerOverflow {
            literal: "9223372036854775808".to_string(),
            position: 0
        })
    );
    assert_eq!(
        tokenize("return 99999999999999999999x;"),
        Err(LexError::IntegerOverflow {
            literal: "99999999999999999999".to_string(),
            position: 7
        })
    );
}

#[test]
fn unrecognized_character_is_reported_with_position() {
    assert_eq!(
        tokenize("a+b"),
        Err(LexError::UnrecognizedCharacter { ch: '+', position: 1 })
    );
    assert_eq!(
        tokenize("x = 0;"),
        Err(LexError::UnrecognizedCharacter { ch: '=', position: 2 })
    );
    assert_eq!(
        tokenize("_x"),
        Err(LexError::UnrecognizedCharacter { ch: '_', position: 0 })
    );
    assert_eq!(
        tokenize("int s = \"hi\";"),
        Err(LexError::UnrecognizedCharacter { ch: '=', position: 6 })
    );
    assert_eq!(
        tokenize("#include"),
        Err(LexError::UnrecognizedCharacter { ch: '#', position: 0 })
    );
}

#[test]
fn positions_count_characters() {
    assert_eq!(
        tokenize("ab é"),
        Err(LexError::UnrecognizedCharacter { ch: 'é', position: 3 })
    );
    assert_eq!(
        tokenize("é;+"),
        Err(LexError::UnrecognizedCharacter { ch: 'é', position: 0 })
    );
}

#[test]
fn first_error_wins() {
    assert_eq!(
        tokenize("a + 99999999999999999999"),
        Err(LexError::UnrecognizedCharacter { ch: '+', position: 2 })
    );
}

#[test]
fn empty_input_gives_no_tokens() {
    assert_eq!(tokenize(""), Ok(vec![]));
    assert_eq!(tokenize(" \t\r\n "), Ok(vec![]));
}

#[test]
fn words_and_numbers_split_where_classes_change() {
    assert_eq!(
        tokenize("123abc"),
        Ok(vec![Token::Integer(123), ident("abc")])
    );
    assert_eq!(tokenize("a_1 b2_"), Ok(vec![ident("a_1"), ident("b2_")]));
    assert_eq!(
        tokenize("intx int x"),
        Ok(vec![ident("intx"), Token::TypeKeyword(Type::Int), ident("x")])
    );
}

#[test]
fn lex_takes_an_owned_string() {
    assert_eq!(
        lex("char c;".to_string()),
        Ok(vec![Token::TypeKeyword(Type::Char), ident("c"), Token::Semicolon])
    );
    assert_eq!(
        lex("1-2".to_string()),
        Err(LexError::UnrecognizedCharacter { ch: '-', position: 1 })
    );
}

#[test]
fn supported_text_tokenizes_completely() {
    let src = "char f(){\n\treturn x_1;\r\n}\n";
    assert_eq!(
        tokenize(src),
        Ok(vec![
            Token::TypeKeyword(Type::Char),
            ident("f"),
            Token::LParen,
            Token::RParen,
            Token::LBrace,
            Token::Return,
            ident("x_1"),
            Token::Semicolon,
            Token::RBrace,
        ])
    );
}
