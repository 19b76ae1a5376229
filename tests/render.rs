use c_lexer::render::render;
use c_lexer::{tokenize, Token, Type};

#[test]
fn token_text_spells_each_token() {
    assert_eq!(Token::LBrace.text(), "{");
    assert_eq!(Token::RBrace.text(), "}");
    assert_eq!(Token::LParen.text(), "(");
    assert_eq!(Token::RParen.text(), ")");
    assert_eq!(Token::Semicolon.text(), ";");
    assert_eq!(Token::Return.text(), "return");
    assert_eq!(Token::TypeKeyword(Type::Int).text(), "int");
    assert_eq!(Token::TypeKeyword(Type::Char).text(), "char");
    assert_eq!(Token::Identifier("main".to_string()).text(), "main");
    assert_eq!(Token::Integer(0).text(), "0");
    assert_eq!(Token::Integer(1024).text(), "1024");
    assert_eq!(Token::Integer(-5).text(), "-5");
    assert_eq!(Token::Integer(i64::MAX).text(), "9223372036854775807");
    assert_eq!(Token::Integer(i64::MIN).text(), "-9223372036854775808");
}

#[test]
fn type_text_is_the_keyword() {
    assert_eq!(Type::Int.text(), "int");
    assert_eq!(Type::Char.text(), "char");
}

#[test]
fn render_separates_tokens_by_spaces() {
    let tokens = tokenize("int main(){return 0;}").unwrap();
    assert_eq!(render(&tokens), "int main ( ) { return 0 ; }");
    assert_eq!(render(&vec![]), "");
    assert_eq!(render(&vec![Token::Integer(7)]), "7");
}

#[test]
fn rendering_tokenizes_back_to_the_same_tokens() {
    let sources = [
        "int main(){return 0;}",
        "char c;return 007;",
        "returnValue integer int_x x9 {;}",
        "",
        "9223372036854775807",
    ];
    for src in sources {
        let tokens = tokenize(src).unwrap();
        assert_eq!(tokenize(&render(&tokens)), Ok(tokens));
    }
}
