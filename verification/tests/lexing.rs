use c4::lexer::{tokenize, Token};

fn ident(s: &str) -> Token {
    Token::Ident(s.to_string())
}

#[test]
fn lexes_every_kind_of_token() {
    let tokens = tokenize("int char return if else while x _y1 42 + - * / = == != < > <= >= ; , ( ) { }")
        .unwrap();
    let expected = vec![
        Token::Int,
        Token::Char,
        Token::Return,
        Token::If,
        Token::Else,
        Token::While,
        ident("x"),
        ident("_y1"),
        Token::Num(42),
        Token::Plus,
        Token::Minus,
        Token::Mul,
        Token::Div,
        Token::Assign,
        Token::Eq,
        Token::Ne,
        Token::Lt,
        Token::Gt,
        Token::Le,
        Token::Ge,
        Token::Semicolon,
        Token::Comma,
        Token::LParen,
        Token::RParen,
        Token::LBrace,
        Token::RBrace,
        Token::EOF,
    ];
    assert_eq!(tokens, expected);
}

#[test]
fn operators_need_no_spaces() {
    let tokens = tokenize("a<=b>=c==d!=e=f<g>h").unwrap();
    let expected = vec![
        ident("a"),
        Token::Le,
        ident("b"),
        Token::Ge,
        ident("c"),
        Token::Eq,
        ident("d"),
        Token::Ne,
        ident("e"),
        Token::Assign,
        ident("f"),
        Token::Lt,
        ident("g"),
        Token::Gt,
        ident("h"),
        Token::EOF,
    ];
    assert_eq!(tokens, expected);
}

#[test]
fn keywords_are_whole_words_only() {
    let tokens = tokenize("integer if2 whiles returned").unwrap();
    assert_eq!(
        tokens,
        vec![ident("integer"), ident("if2"), ident("whiles"), ident("returned"), Token::EOF]
    );
}

#[test]
fn empty_and_blank_sources_give_only_eof() {
    assert_eq!(tokenize("").unwrap(), vec![Token::EOF]);
    assert_eq!(tokenize(" \t\r\n ").unwrap(), vec![Token::EOF]);
}

#[test]
fn line_comments_run_to_end_of_line() {
    let tokens = tokenize("1 // 2 + 3\n4 //\n").unwrap();
    assert_eq!(tokens, vec![Token::Num(1), Token::Num(4), Token::EOF]);
    // A comment on the last line needs no newline.
    assert_eq!(tokenize("5 // end").unwrap(), vec![Token::Num(5), Token::EOF]);
}

#[test]
fn a_single_slash_is_division() {
    assert_eq!(
        tokenize("8/2").unwrap(),
        vec![Token::Num(8), Token::Div, Token::Num(2), Token::EOF]
    );
}

#[test]
fn numbers_are_decimal_and_fit_i64() {
    assert_eq!(tokenize("007").unwrap(), vec![Token::Num(7), Token::EOF]);
    assert_eq!(
        tokenize("9223372036854775807").unwrap(),
        vec![Token::Num(i64::MAX), Token::EOF]
    );
    assert_eq!(
        tokenize("9223372036854775808"),
        Err("number too large to fit in target type".to_string())
    );
    assert_eq!(
        tokenize("x 123456789012345678901234567890 y"),
        Err("number too large to fit in target type".to_string())
    );
    // A number ends at the first non-digit.
    assert_eq!(
        tokenize("12ab").unwrap(),
        vec![Token::Num(12), ident("ab"), Token::EOF]
    );
}

#[test]
fn a_lone_bang_is_an_error() {
    assert_eq!(tokenize("!x"), Err("Unexpected '!'".to_string()));
    assert_eq!(tokenize("1 !"), Err("Unexpected '!'".to_string()));
}

#[test]
fn unknown_characters_are_errors() {
    assert_eq!(tokenize("a @ b"), Err("Unexpected character: @".to_string()));
    assert_eq!(tokenize("x = 1 % 2;"), Err("Unexpected character: %".to_string()));
    assert_eq!(tokenize("é"), Err("Unexpected character: é".to_string()));
}

#[test]
fn identifiers_continue_with_unicode_alphanumerics() {
    assert_eq!(tokenize("café1 x_2").unwrap(), vec![ident("café1"), ident("x_2"), Token::EOF]);
    assert_eq!(tokenize("x€"), Err("Unexpected character: €".to_string()));
}

#[test]
fn successful_tokenizations_end_with_one_eof() {
    for source in ["", "int main() { return 1; }", "a // b", "x = y;"] {
        let tokens = tokenize(source).unwrap();
        assert_eq!(tokens.last(), Some(&Token::EOF));
        assert_eq!(tokens.iter().filter(|t| **t == Token::EOF).count(), 1);
    }
}

#[test]
fn surrounding_whitespace_does_not_change_tokens() {
    for source in ["int main() { return x1 >= 2; }", "a // note", "7", "!", "", "x = y == z"] {
        let plain = tokenize(source);
        assert_eq!(tokenize(&format!(" \t\n{}", source)), plain);
        assert_eq!(tokenize(&format!("{}\r\n  ", source)), plain);
    }
}

#[test]
fn spelled_tokens_lex_back_to_themselves() {
    let tokens = vec![
        Token::Int, Token::Char, Token::Return, Token::If, Token::Else, Token::While,
        ident("iff"), ident("_x9"), Token::Num(0), Token::Num(i64::MAX), Token::Plus, Token::Minus,
        Token::Mul, Token::Div, Token::Div, Token::Assign, Token::Assign, Token::Eq, Token::Ne,
        Token::Lt, Token::Gt, Token::Le, Token::Ge, Token::Semicolon, Token::Comma, Token::LParen,
        Token::RParen, Token::LBrace, Token::RBrace,
    ];
    let text = "int char return if else while iff _x9 0 9223372036854775807 + - * / / = = == != < > <= >= ; , ( ) { }";
    let mut expected = tokens.clone();
    expected.push(Token::EOF);
    assert_eq!(tokenize(text), Ok(expected));
}
