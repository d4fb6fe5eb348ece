use std::convert::TryFrom;

use spisim::names::characters;
use spisim::tokenizer::{tokenize, Keyword, LexError, Token};
use spisim::values::Decimal;

fn ident(name: &str) -> Token {
    Token::Identifier(name.to_string())
}

#[test]
fn every_reserved_word_is_a_keyword() {
    let words = [
        ("true", Keyword::True),
        ("false", Keyword::False),
        ("if", Keyword::If),
        ("then", Keyword::Then),
        ("else", Keyword::Else),
        ("fun", Keyword::Fun),
        ("new", Keyword::New),
        ("let", Keyword::Let),
        ("val", Keyword::Val),
        ("in", Keyword::In),
        ("and", Keyword::And),
        ("do", Keyword::Do),
        ("or", Keyword::Or),
        ("of", Keyword::Of),
        ("replicate", Keyword::Replicate),
        ("run", Keyword::Run),
        ("end", Keyword::End),
    ];
    for (word, keyword) in words.iter() {
        assert_eq!(Keyword::try_from(*word), Ok(*keyword));
    }
}

#[test]
fn other_words_are_no_keywords() {
    assert_eq!(Keyword::try_from("ends"), Err(()));
    assert_eq!(Keyword::try_from("En"), Err(()));
    assert_eq!(Keyword::try_from(""), Err(()));
    assert_eq!(Keyword::try_from("New"), Err(()));
}

#[test]
fn characters_of_a_text() {
    assert_eq!(characters("a b"), vec!['a', ' ', 'b']);
    assert_eq!(characters(""), Vec::<char>::new());
    assert_eq!(characters("é!"), vec!['é', '!']);
}

#[test]
fn tokens_of_a_channel_declaration() {
    assert_eq!(
        tokenize("new a@1.0"),
        Ok(vec![
            Token::Keyword(Keyword::New),
            ident("a"),
            Token::At,
            Token::Float(Decimal { digits: 10, scale: 1 }),
        ])
    );
}

#[test]
fn white_space_does_not_matter() {
    let dense = tokenize("let S()=!a;S()");
    let loose = tokenize("  let  S ( ) = ! a ;\n\tS ( )  ");
    assert_eq!(dense, loose);
    assert_eq!(
        dense,
        Ok(vec![
            Token::Keyword(Keyword::Let),
            ident("S"),
            Token::LPar,
            Token::RPar,
            Token::Equals,
            Token::ExMark,
            ident("a"),
            Token::Semicolon,
            ident("S"),
            Token::LPar,
            Token::RPar,
        ])
    );
}

#[test]
fn every_symbol_is_a_token() {
    assert_eq!(
        tokenize("? ! @ = < > <= >= <> ( ) : ; | _ , + - * / =>"),
        Ok(vec![
            Token::QMark,
            Token::ExMark,
            Token::At,
            Token::Equals,
            Token::Less,
            Token::Greater,
            Token::LEq,
            Token::GEq,
            Token::NotEqual,
            Token::LPar,
            Token::RPar,
            Token::Colon,
            Token::Semicolon,
            Token::Pipe,
            Token::Underscore,
            Token::Comma,
            Token::Plus,
            Token::Dash,
            Token::Star,
            Token::Slash,
            Token::RightArrow,
        ])
    );
}

#[test]
fn the_longest_symbol_is_taken() {
    assert_eq!(tokenize("=>="), Ok(vec![Token::RightArrow, Token::Equals]));
    assert_eq!(tokenize("<>>"), Ok(vec![Token::NotEqual, Token::Greater]));
    assert_eq!(tokenize("=<"), Ok(vec![Token::Equals, Token::Less]));
}

#[test]
fn numbers_are_integers_or_decimals() {
    assert_eq!(tokenize("42"), Ok(vec![Token::Integer(42)]));
    assert_eq!(tokenize("0"), Ok(vec![Token::Integer(0)]));
    assert_eq!(tokenize("007"), Ok(vec![Token::Integer(7)]));
    assert_eq!(tokenize("2.50"), Ok(vec![Token::Float(Decimal { digits: 250, scale: 2 })]));
    assert_eq!(tokenize("0.125"), Ok(vec![Token::Float(Decimal { digits: 125, scale: 3 })]));
    assert_eq!(
        tokenize("9223372036854775807"),
        Ok(vec![Token::Integer(9223372036854775807)])
    );
    assert_eq!(
        tokenize("1844674407370955.1615"),
        Ok(vec![Token::Float(Decimal { digits: 18446744073709551615, scale: 4 })])
    );
}

#[test]
fn white_space_may_follow_the_point() {
    assert_eq!(tokenize("1. 5"), Ok(vec![Token::Float(Decimal { digits: 15, scale: 1 })]));
}

#[test]
fn words_are_letters_then_letters_or_digits() {
    assert_eq!(tokenize("a1b2 c"), Ok(vec![ident("a1b2"), ident("c")]));
    assert_eq!(tokenize("10of"), Ok(vec![Token::Integer(10), Token::Keyword(Keyword::Of)]));
    assert_eq!(tokenize("endless end"), Ok(vec![ident("endless"), Token::Keyword(Keyword::End)]));
    assert_eq!(tokenize("été"), Ok(vec![ident("été")]));
    assert_eq!(tokenize("x_y"), Ok(vec![ident("x"), Token::Underscore, ident("y")]));
}

#[test]
fn unicode_white_space_separates() {
    assert_eq!(tokenize("a\u{a0}b\u{2003}c"), Ok(vec![ident("a"), ident("b"), ident("c")]));
}

#[test]
fn an_empty_text_has_no_token() {
    assert_eq!(tokenize(""), Ok(vec![]));
    assert_eq!(tokenize(" \n\t "), Ok(vec![]));
}

#[test]
fn a_strange_character_is_refused() {
    assert_eq!(tokenize("a # b"), Err(LexError::UnexpectedCharacter));
    assert_eq!(tokenize("."), Err(LexError::UnexpectedCharacter));
    assert_eq!(tokenize("1 .5"), Err(LexError::UnexpectedCharacter));
    assert_eq!(tokenize("[x]"), Err(LexError::UnexpectedCharacter));
}

#[test]
fn a_point_wants_digits_behind_it() {
    assert_eq!(tokenize("1."), Err(LexError::MissingFraction));
    assert_eq!(tokenize("1.x"), Err(LexError::MissingFraction));
    assert_eq!(tokenize("12. )"), Err(LexError::MissingFraction));
}

#[test]
fn a_number_may_be_too_large() {
    assert_eq!(tokenize("9223372036854775808"), Err(LexError::NumberTooLarge));
    assert_eq!(tokenize("99999999999999999999999"), Err(LexError::NumberTooLarge));
    assert_eq!(tokenize("1844674407370955.1616"), Err(LexError::NumberTooLarge));
    assert_eq!(tokenize("99999999999999999999999."), Err(LexError::MissingFraction));
}
