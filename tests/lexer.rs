use pris::error::{Error, LexCause};
use pris::lexer::{lex, Token};

#[test]
fn lex_handles_a_simple_input() {
    let input = b"foo bar";
    let tokens = lex(input).unwrap();
    assert_eq!(tokens.len(), 2);
    assert_eq!(tokens[0], (0, Token::Ident, 3));
    assert_eq!(tokens[1], (4, Token::Ident, 7));
}

#[test]
fn lex_handles_a_string_literal() {
    let input = br#"foo "bar""#;
    let tokens = lex(input).unwrap();
    assert_eq!(tokens.len(), 2);
    assert_eq!(tokens[0], (0, Token::Ident, 3));
    assert_eq!(tokens[1], (4, Token::String, 9));
}

#[test]
fn lex_handles_a_string_literal_with_escaped_quote() {
    let input = br#""bar\"baz""#;
    let tokens = lex(input).unwrap();
    assert_eq!(tokens.len(), 1);
    assert_eq!(tokens[0], (0, Token::String, 10));
}

#[test]
fn lex_strips_a_comment() {
    let input = b"foo\n// This is comment\nbar";
    let tokens = lex(input).unwrap();
    assert_eq!(tokens.len(), 2);
    assert_eq!(tokens[0], (0, Token::Ident, 3));
    assert_eq!(tokens[1], (23, Token::Ident, 26));
}

#[test]
fn lex_handles_a_raw_string() {
    let input = b"foo---bar---baz";
    let tokens = lex(input).unwrap();
    assert_eq!(tokens.len(), 3);
    assert_eq!(tokens[0], (0, Token::Ident, 3));
    assert_eq!(tokens[1], (3, Token::RawString, 12));
    assert_eq!(tokens[2], (12, Token::Ident, 15));
}

fn lex_error(input: &[u8]) -> (usize, usize, LexCause) {
    match lex(input) {
        Err(Error::Parse { start, end, cause }) => (start, end, cause),
        other => panic!("expected a lexical error, got {:?}", other),
    }
}

#[test]
fn lex_of_empty_input_has_no_tokens() {
    assert_eq!(lex(b"").unwrap().len(), 0);
    assert_eq!(lex(b"  \n ").unwrap().len(), 0);
}

#[test]
fn lex_comment_at_end_of_input() {
    let tokens = lex(b"a // no newline").unwrap();
    assert_eq!(tokens, vec![(0, Token::Ident, 1)]);
}

#[test]
fn lex_numbers_with_units() {
    let tokens = lex(b"1.5em 2pt 3h 4w 5").unwrap();
    assert_eq!(
        tokens,
        vec![
            (0, Token::Number, 3),
            (3, Token::UnitEm, 5),
            (6, Token::Number, 7),
            (7, Token::UnitPt, 9),
            (10, Token::Number, 11),
            (11, Token::UnitH, 12),
            (13, Token::Number, 14),
            (14, Token::UnitW, 15),
            (16, Token::Number, 17),
        ]
    );
}

#[test]
fn lex_second_period_ends_a_number() {
    let tokens = lex(b"1.2.3").unwrap();
    assert_eq!(
        tokens,
        vec![(0, Token::Number, 3), (3, Token::Dot, 4), (4, Token::Number, 5)]
    );
}

#[test]
fn lex_number_followed_by_identifier() {
    let tokens = lex(b"2ex").unwrap();
    assert_eq!(tokens, vec![(0, Token::Number, 1), (1, Token::Ident, 3)]);
}

#[test]
fn lex_punctuation() {
    let tokens = lex(b",.=^-+/*~(){}").unwrap();
    let kinds: Vec<Token> = tokens.iter().map(|t| t.1).collect();
    assert_eq!(
        kinds,
        vec![
            Token::Comma,
            Token::Dot,
            Token::Equals,
            Token::Hat,
            Token::Minus,
            Token::Plus,
            Token::Slash,
            Token::Star,
            Token::Tilde,
            Token::LParen,
            Token::RParen,
            Token::LBrace,
            Token::RBrace,
        ]
    );
    for (i, t) in tokens.iter().enumerate() {
        assert_eq!((t.0, t.2), (i, i + 1));
    }
}

#[test]
fn lex_color() {
    let tokens = lex(b"#a0B1c2 x").unwrap();
    assert_eq!(tokens, vec![(0, Token::Color, 7), (8, Token::Ident, 9)]);
    let tokens = lex(b"(#ffffff)").unwrap();
    assert_eq!(
        tokens,
        vec![(0, Token::LParen, 1), (1, Token::Color, 8), (8, Token::RParen, 9)]
    );
}

#[test]
fn lex_color_errors() {
    assert_eq!(lex_error(b"#12g456"), (3, 4, LexCause::ExpectedHexDigit(b'g')));
    assert_eq!(lex_error(b"#1234567"), (0, 8, LexCause::ExtraHexDigit));
    assert_eq!(lex_error(b"#123456x"), (0, 8, LexCause::ExtraColorCharacter(b'x')));
}

#[test]
fn lex_color_needs_six_digits_before_end_of_input() {
    assert_eq!(lex_error(b"#"), (0, 1, LexCause::ShortColor));
    assert_eq!(lex_error(b"a #abcde"), (2, 8, LexCause::ShortColor));
    assert_eq!(lex(b"a #abcdef").unwrap(), vec![(0, Token::Ident, 1), (2, Token::Color, 9)]);
}

#[test]
fn lex_number_then_unit_then_more() {
    let tokens = lex(b"1.5em+x").unwrap();
    assert_eq!(
        tokens,
        vec![
            (0, Token::Number, 3),
            (3, Token::UnitEm, 5),
            (5, Token::Plus, 6),
            (6, Token::Ident, 7),
        ]
    );
}

#[test]
fn lex_unclosed_string_after_escaped_quote() {
    assert_eq!(lex_error(br#""ab\""#), (0, 1, LexCause::UnclosedString));
}

#[test]
fn lex_unclosed_literals() {
    assert_eq!(lex_error(b"a \"bc"), (2, 3, LexCause::UnclosedString));
    assert_eq!(lex_error(b"x ---abc--"), (2, 5, LexCause::UnclosedRawString));
    assert_eq!(lex_error(b"\"ends in backslash\\"), (0, 1, LexCause::UnclosedString));
}

#[test]
fn lex_rejects_disallowed_bytes() {
    assert_eq!(lex_error(b"a\tb"), (1, 2, LexCause::Tab));
    assert_eq!(lex_error(b"a \r\n"), (2, 3, LexCause::CarriageReturn));
    assert_eq!(lex_error(b"a\x01"), (1, 2, LexCause::ControlCharacter(1)));
    assert_eq!(lex_error(b"a $"), (2, 3, LexCause::UnexpectedCharacter(b'$')));
    assert_eq!(lex_error("é".as_bytes()), (0, 1, LexCause::NonAsciiCharacter(0xe9)));
    assert_eq!(lex_error("a €".as_bytes()), (2, 3, LexCause::NonAsciiCharacter(0x20ac)));
    assert_eq!(lex_error("😀".as_bytes()), (0, 1, LexCause::NonAsciiCharacter(0x1f600)));
    assert_eq!(lex_error(b"\xc3"), (0, 1, LexCause::NonAsciiByte(0xc3)));
    assert_eq!(lex_error(b"\xc0\x80"), (0, 1, LexCause::NonAsciiByte(0xc0)));
    assert_eq!(lex_error(b"\xed\xa0\x80"), (0, 1, LexCause::NonAsciiByte(0xed)));
}

#[test]
fn lex_detects_byte_order_marks() {
    assert_eq!(lex_error(b"\xef\xbb\xbfa"), (0, 3, LexCause::Utf8ByteOrderMark));
    assert_eq!(lex_error(b"\xfe\xff"), (0, 2, LexCause::Utf16ByteOrderMark));
    assert_eq!(lex_error(b"\xff\xfe\x00\x00"), (0, 2, LexCause::Utf16ByteOrderMark));
    assert_eq!(lex_error(b"\x00\x00\xfe\xff"), (0, 4, LexCause::Utf32ByteOrderMark));
    assert_eq!(lex_error(b"\xef"), (0, 1, LexCause::NonAsciiByte(0xef)));
    assert_eq!(lex_error(b"\x00"), (0, 1, LexCause::ControlCharacter(0)));
}

#[test]
fn lex_tokens_are_ordered_and_cover_the_content() {
    let input = b"put t(\"a\") at (1w, 0.5h) // note\n---raw--- #00ff00";
    let tokens = lex(input).unwrap();
    let mut last_end = 0;
    for (start, _, end) in &tokens {
        assert!(last_end <= *start && start < end && *end <= input.len());
        for b in &input[last_end..*start] {
            assert!(*b == b' ' || *b == b'\n' || input[last_end..*start].starts_with(b" //"));
        }
        last_end = *end;
    }
    assert_eq!(last_end, input.len());
}
