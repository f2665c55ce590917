use tinyasm::error::TranslateError;
use tinyasm::lexer::tokenize;
use tinyasm::token::Token;

fn id(s: &str) -> Token {
    Token::Identifier(s.to_string())
}

fn op(s: &str) -> Token {
    Token::Operation(s.to_string())
}

fn num(s: &str) -> Token {
    Token::Number(s.to_string())
}

#[test]
fn structural_characters_map_one_to_one() {
    assert_eq!(
        tokenize("(){};[]"),
        Ok(vec![
            Token::ParenOpen,
            Token::ParenClose,
            Token::BraceOpen,
            Token::BraceClose,
            Token::SemiColon,
            Token::SquareOpen,
            Token::SquareClose,
        ])
    );
}

#[test]
fn structure_only_source_keeps_its_count() {
    let source = "({;});(){}";
    let tokens = tokenize(source).unwrap();
    assert_eq!(tokens.len(), source.chars().count());
    assert_eq!(tokens[0], Token::ParenOpen);
    assert_eq!(tokens[2], Token::SemiColon);
    assert_eq!(tokens[9], Token::BraceClose);
}

#[test]
fn empty_source_has_no_tokens() {
    assert_eq!(tokenize(""), Ok(vec![]));
    assert_eq!(tokenize("  \t "), Ok(vec![]));
}

#[test]
fn function_source_lexes() {
    assert_eq!(
        tokenize("f a b {mem x 5;ret x;}"),
        Ok(vec![
            id("f"),
            id("a"),
            id("b"),
            Token::BraceOpen,
            id("mem"),
            id("x"),
            num("5"),
            Token::SemiColon,
            id("ret"),
            id("x"),
            Token::SemiColon,
            Token::BraceClose,
        ])
    );
}

#[test]
fn unterminated_string_is_malformed() {
    assert_eq!(tokenize("\"abc"), Err(TranslateError::MalformedInput));
    assert_eq!(tokenize("\""), Err(TranslateError::MalformedInput));
    assert_eq!(tokenize("x \"abc\\\""), Err(TranslateError::MalformedInput));
}

#[test]
fn string_literal_keeps_its_text() {
    assert_eq!(
        tokenize("\"hi there\";"),
        Ok(vec![Token::StringLiteral("hi there".to_string()), Token::SemiColon])
    );
    assert_eq!(tokenize("\"\""), Ok(vec![Token::StringLiteral(String::new())]));
}

#[test]
fn backslash_keeps_a_quote_inside_the_string() {
    assert_eq!(
        tokenize("\"a\\\"b\""),
        Ok(vec![Token::StringLiteral("a\\\"b".to_string())])
    );
}

#[test]
fn char_literal_takes_one_character() {
    assert_eq!(tokenize("'a;"), Ok(vec![Token::CharLiteral('a'), Token::SemiColon]));
    assert_eq!(tokenize("'(x"), Ok(vec![Token::CharLiteral('('), id("x")]));
}

#[test]
fn single_quote_at_the_end_is_malformed() {
    assert_eq!(tokenize("'"), Err(TranslateError::MalformedInput));
    assert_eq!(tokenize("x '"), Err(TranslateError::MalformedInput));
}

#[test]
fn bracketed_path_is_one_identifier() {
    assert_eq!(tokenize("imp <io.h>;"), Ok(vec![id("imp"), id("<io.h>"), Token::SemiColon]));
    assert_eq!(tokenize("<>"), Ok(vec![id("<>")]));
}

#[test]
fn bracketed_path_swallows_up_to_the_next_closing_angle() {
    assert_eq!(tokenize("a < b; c > d"), Ok(vec![id("a"), id("< b; c >"), id("d")]));
}

#[test]
fn less_than_without_closing_angle_is_an_operator() {
    assert_eq!(tokenize("a < b;"), Ok(vec![id("a"), op("<"), id("b"), Token::SemiColon]));
    assert_eq!(tokenize("a <= b;"), Ok(vec![id("a"), op("<="), id("b"), Token::SemiColon]));
}

#[test]
fn less_than_at_the_end_is_malformed() {
    assert_eq!(tokenize("a <"), Err(TranslateError::MalformedInput));
}

#[test]
fn two_character_operators_merge() {
    assert_eq!(
        tokenize("a>=b;"),
        Ok(vec![id("a"), op(">="), id("b"), Token::SemiColon])
    );
    assert_eq!(
        tokenize("-= -> += *= /= == != && || := ;"),
        Ok(vec![
            op("-="),
            op("->"),
            op("+="),
            op("*="),
            op("/="),
            op("=="),
            op("!="),
            op("&&"),
            op("||"),
            op(":="),
            Token::SemiColon,
        ])
    );
}

#[test]
fn one_character_operators_stand_alone() {
    assert_eq!(
        tokenize("+ - * / = & | ;"),
        Ok(vec![op("+"), op("-"), op("*"), op("/"), op("="), op("&"), op("|"), Token::SemiColon])
    );
    assert_eq!(tokenize("a>b;"), Ok(vec![id("a"), op(">"), id("b"), Token::SemiColon]));
}

#[test]
fn merged_operator_consumes_its_second_character() {
    assert_eq!(tokenize("a/=b;"), Ok(vec![id("a"), op("/="), id("b"), Token::SemiColon]));
    assert_eq!(tokenize("a+=1;"), Ok(vec![id("a"), op("+="), num("1"), Token::SemiColon]));
    assert_eq!(tokenize("a--b;"), Ok(vec![id("a"), op("-"), op("-"), id("b"), Token::SemiColon]));
}

#[test]
fn else_arrow_is_tried_before_not_equal() {
    assert_eq!(
        tokenize("}!->{"),
        Ok(vec![Token::BraceClose, op("!->"), Token::BraceOpen])
    );
    assert_eq!(tokenize("a!=b;"), Ok(vec![id("a"), op("!="), id("b"), Token::SemiColon]));
    assert_eq!(tokenize("!-x"), Ok(vec![Token::Symbol('!'), op("-"), id("x")]));
}

#[test]
fn lone_bang_and_colon_are_symbols() {
    assert_eq!(tokenize("!x"), Ok(vec![Token::Symbol('!'), id("x")]));
    assert_eq!(tokenize(":x"), Ok(vec![Token::Symbol(':'), id("x")]));
}

#[test]
fn operator_at_the_end_is_malformed() {
    for source in ["a +", "a -", "a *", "a /", "a =", "a >", "a !", "a &", "a |", "a :", "!-"] {
        assert_eq!(tokenize(source), Err(TranslateError::MalformedInput), "{}", source);
    }
}

#[test]
fn identifier_and_number_may_end_the_source() {
    assert_eq!(tokenize("ret x"), Ok(vec![id("ret"), id("x")]));
    assert_eq!(tokenize("ret 42"), Ok(vec![id("ret"), num("42")]));
}

#[test]
fn identifiers_hold_letters_and_underscores_only() {
    assert_eq!(tokenize("my_var x1 23"), Ok(vec![id("my_var"), id("x"), num("1"), num("23")]));
    assert_eq!(tokenize("_"), Ok(vec![id("_")]));
    assert_eq!(tokenize("\u{e9}t\u{e9}"), Ok(vec![id("\u{e9}t\u{e9}")]));
}

#[test]
fn unknown_characters_are_symbols() {
    assert_eq!(
        tokenize("@#,"),
        Ok(vec![Token::Symbol('@'), Token::Symbol('#'), Token::Symbol(',')])
    );
}

#[test]
fn white_space_separates_and_vanishes() {
    assert_eq!(tokenize(" a\tb\nc \u{a0}d"), Ok(vec![id("a"), id("b"), id("c"), id("d")]));
}
