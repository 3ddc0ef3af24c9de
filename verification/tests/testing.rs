use proofhouse_rust_lib::lexer::tokenize;
use proofhouse_rust_lib::testing::{at_start, placed, spelling};
use proofhouse_rust_lib::tokens::{Token, TokenKind};

#[test]
fn a_placed_run_scans_back_out_of_its_spelling() {
    let drawn = vec![
        at_start(TokenKind::Number, "12".to_owned()),
        at_start(TokenKind::Number, "3".to_owned()),
        at_start(TokenKind::LParen, "(".to_owned()),
        at_start(TokenKind::Star, "*".to_owned()),
        at_start(TokenKind::Number, "0045".to_owned()),
    ];
    let run = placed(drawn);
    let offsets: Vec<usize> = run.iter().map(|token| token.offset).collect();
    assert_eq!(offsets, vec![0, 3, 5, 7, 9]);
    let text = spelling(&run);
    assert_eq!(text, "12 3 ( * 0045");
    assert_eq!(tokenize(&text), Ok(run));
}

#[test]
fn an_empty_run_spells_as_nothing() {
    let run: Vec<Token> = placed(Vec::new());
    assert!(run.is_empty());
    assert_eq!(spelling(&run), "");
    assert_eq!(tokenize(""), Ok(run));
}
