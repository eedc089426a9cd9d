use dml::token::tokenize;
use dml::token::Token;
use dml::token::TokenKind;

fn toks(text: &str) -> Vec<Token> {
    tokenize(text).expect("tokenization failed")
}

#[test]
fn comment_contributes_no_tokens() {
    // A `#` comment runs through (but not including) the newline, so the
    // comment line leaves exactly the newline token a blank line would.
    assert_eq!(toks("# note\nx: 1\n"), toks("\nx: 1\n"));
    assert_eq!(
        toks("# note\nx: 1\n"),
        vec![
            Token::NewLine(1),
            Token::Identifier("x".to_string()),
            Token::Colon,
            Token::Integer(1),
            Token::NewLine(2),
        ]
    );
}

#[test]
fn two_spaces_make_one_indent() {
    assert_eq!(toks("  x"), vec![Token::Indent, Token::Identifier("x".to_string())]);
}

#[test]
fn single_space_is_silent() {
    assert_eq!(toks(" x"), vec![Token::Identifier("x".to_string())]);
}

#[test]
fn five_spaces_make_two_indents() {
    assert_eq!(
        toks("     x"),
        vec![Token::Indent, Token::Indent, Token::Identifier("x".to_string())]
    );
}

#[test]
fn newline_carries_line_number() {
    assert_eq!(toks("\n\n"), vec![Token::NewLine(1), Token::NewLine(2)]);
}

#[test]
fn punctuation_tokens() {
    assert_eq!(
        toks("&a: 1"),
        vec![
            Token::Reference,
            Token::Identifier("a".to_string()),
            Token::Colon,
            Token::Integer(1),
        ]
    );
}

#[test]
fn quoted_string_keeps_content_verbatim() {
    assert_eq!(toks("\"a b:c\""), vec![Token::QuotedString("a b:c".to_string())]);
}

#[test]
fn unterminated_string_still_yields_token() {
    assert_eq!(toks("\"abc"), vec![Token::QuotedString("abc".to_string())]);
}

#[test]
fn negative_integer() {
    assert_eq!(toks("-42"), vec![Token::Integer(-42)]);
}

#[test]
fn minus_without_digit_is_silent() {
    assert_eq!(toks("- 1"), vec![Token::Integer(1)]);
}

#[test]
fn float_keeps_source_spelling() {
    assert_eq!(toks("1.50"), vec![Token::Float("1.50".to_string())]);
    assert_eq!(toks("-0.5"), vec![Token::Float("-0.5".to_string())]);
}

#[test]
fn second_dot_ends_the_literal() {
    // `1.2.3` is the float `1.2` followed by a new literal `.3`, whose dot
    // is a silently skipped stray character.
    assert_eq!(toks("1.2.3"), vec![Token::Float("1.2".to_string()), Token::Integer(3)]);
}

#[test]
fn integer_extremes_fit() {
    assert_eq!(
        toks("170141183460469231731687303715884105727"),
        vec![Token::Integer(i128::MAX)]
    );
    assert_eq!(
        toks("-170141183460469231731687303715884105728"),
        vec![Token::Integer(i128::MIN)]
    );
}

#[test]
fn integer_overflow_is_a_lexical_error() {
    let err = tokenize("x: 1\ny: 170141183460469231731687303715884105728\n").unwrap_err();
    assert_eq!(err.line, 2);
    let err2 = tokenize("-170141183460469231731687303715884105729").unwrap_err();
    assert_eq!(err2.line, 1);
}

#[test]
fn reserved_words_are_keywords() {
    assert_eq!(
        toks("Item Group from import Items"),
        vec![
            Token::Item,
            Token::Group,
            Token::From,
            Token::Import,
            Token::Identifier("Items".to_string()),
        ]
    );
}

#[test]
fn unicode_identifier() {
    assert_eq!(
        toks("石头: 1"),
        vec![Token::Identifier("石头".to_string()), Token::Colon, Token::Integer(1)]
    );
}

#[test]
fn stray_characters_are_skipped() {
    assert_eq!(toks("✨x✨"), vec![Token::Identifier("x✨".to_string())]);
    assert_eq!(toks("✨ %"), Vec::<Token>::new());
}

#[test]
fn three_spaces_make_one_indent() {
    // an odd count of leading spaces: pairs count, the leftover is dropped
    assert_eq!(toks("   x"), vec![Token::Indent, Token::Identifier("x".to_string())]);
}

#[test]
fn keyword_ends_at_colon() {
    assert_eq!(toks("Item:"), vec![Token::Item, Token::Colon]);
}

#[test]
fn token_kind_ignores_payload() {
    let a = Token::Integer(1);
    let b = Token::Integer(2);
    assert_eq!(a.kind(), b.kind());
    assert!(a.is_kind(TokenKind::Integer));
    assert!(!a.is_kind(TokenKind::Float));
}
