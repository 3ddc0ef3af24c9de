use proofhouse_rust_lib::errors::LexError;
use proofhouse_rust_lib::lexer::{is_whitespace, tokenize};
use proofhouse_rust_lib::tokens::{Token, TokenKind};

fn tok(kind: TokenKind, lexeme: &str, offset: usize) -> Token {
    Token {
        kind,
        lexeme: lexeme.to_owned(),
        offset,
    }
}

#[test]
fn tokenize_yields_expected_tokens() {
    let cases: &[(&str, Vec<Token>)] = &[
        ("7", vec![tok(TokenKind::Number, "7", 0)]),
        ("1234", vec![tok(TokenKind::Number, "1234", 0)]),
        ("007", vec![tok(TokenKind::Number, "007", 0)]),
        (
            "1+2",
            vec![
                tok(TokenKind::Number, "1", 0),
                tok(TokenKind::Plus, "+", 1),
                tok(TokenKind::Number, "2", 2),
            ],
        ),
        (
            " 12 * (34 - 5) / 6 ",
            vec![
                tok(TokenKind::Number, "12", 1),
                tok(TokenKind::Star, "*", 4),
                tok(TokenKind::LParen, "(", 6),
                tok(TokenKind::Number, "34", 7),
                tok(TokenKind::Minus, "-", 10),
                tok(TokenKind::Number, "5", 12),
                tok(TokenKind::RParen, ")", 13),
                tok(TokenKind::Slash, "/", 15),
                tok(TokenKind::Number, "6", 17),
            ],
        ),
    ];
    for (input, expected) in cases {
        assert_eq!(tokenize(input).unwrap(), *expected, "input {input:?}");
    }
}

#[test]
fn tokenize_maps_each_operator_and_paren() {
    let kinds: Vec<TokenKind> = tokenize("+-*/()")
        .unwrap()
        .iter()
        .map(|token| token.kind)
        .collect();
    assert_eq!(
        kinds,
        vec![
            TokenKind::Plus,
            TokenKind::Minus,
            TokenKind::Star,
            TokenKind::Slash,
            TokenKind::LParen,
            TokenKind::RParen,
        ]
    );
}

#[test]
fn tokenize_empty_or_whitespace_yields_no_tokens() {
    for input in ["", " ", " \t\n  "] {
        assert_eq!(
            tokenize(input).unwrap(),
            Vec::<Token>::new(),
            "input {input:?}"
        );
    }
}

#[test]
fn tokenize_rejects_stray_character_with_byte_offset() {
    let cases: &[(&str, usize, char)] = &[
        ("a", 0, 'a'),
        ("12 $ 3", 3, '$'),
        ("1.5", 1, '.'),
        // The two-byte no-break space counts as whitespace, so the
        // three-byte '€' lands at byte offset 2 while standing second in
        // the string. Offsets count bytes, never characters.
        ("\u{a0}\u{20ac}", 2, '\u{20ac}'),
    ];
    for &(input, offset, character) in cases {
        assert_eq!(
            tokenize(input),
            Err(LexError { offset, character }),
            "input {input:?}"
        );
    }
}

#[test]
fn whitespace_agrees_with_the_standard_library_on_every_character() {
    for code in 0..=0x10FFFFu32 {
        if let Some(c) = char::from_u32(code) {
            assert_eq!(is_whitespace(c), c.is_whitespace(), "char {code:#x}");
        }
    }
}

#[test]
fn offsets_after_wide_characters_count_bytes() {
    // A four-byte character, then whitespace, then a token.
    assert_eq!(
        tokenize("\u{3000}\u{2003}7"),
        Ok(vec![tok(TokenKind::Number, "7", 6)])
    );
    assert_eq!(
        tokenize("1 \u{1F600}"),
        Err(LexError {
            offset: 2,
            character: '\u{1F600}'
        })
    );
}

#[test]
fn scanned_tokens_sit_where_their_offsets_say() {
    let text = " 12\u{a0}* (3-45)";
    for token in tokenize(text).unwrap() {
        assert!(text[token.offset..].starts_with(token.lexeme.as_str()));
    }
}
