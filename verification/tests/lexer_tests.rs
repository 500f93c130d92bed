use easypls::lexer::{LexError, Lexer, Tok};

#[test]
fn lex() {
    let bytes = "T F _TF 9abc_ (h)and or not nor nand xor -><->".as_bytes();
    let mut lexer = Lexer::new(bytes);
    assert_eq!(
        lexer.lex_all().unwrap(),
        vec![
            Tok::T,
            Tok::F,
            Tok::Identifier(String::from("_TF")),
            Tok::Identifier(String::from("9abc_")),
            Tok::LPAREN,
            Tok::Identifier(String::from("h")),
            Tok::RPAREN,
            Tok::And,
            Tok::Or,
            Tok::Not,
            Tok::Nor,
            Tok::Nand,
            Tok::Xor,
            Tok::If,
            Tok::Iff,
        ]
    );

    let bytes = "$test".as_bytes();
    let mut lexer = Lexer::new(bytes);
    assert!(lexer.next_tok().is_err())
}

#[test]
fn empty_source_is_end_of_input() {
    let mut lexer = Lexer::new(b"");
    assert_eq!(lexer.next_tok(), Ok(Tok::EOF));
    assert!(Tok::EOF.is_eof());
    assert!(!Tok::T.is_eof());
    let mut lexer = Lexer::new(b" \t\n ");
    assert_eq!(lexer.lex_all(), Ok(vec![]));
}

#[test]
fn truth_letters_split_from_words() {
    let mut lexer = Lexer::new(b"Tx andy");
    assert_eq!(
        lexer.lex_all(),
        Ok(vec![
            Tok::T,
            Tok::Identifier(String::from("x")),
            Tok::Identifier(String::from("andy")),
        ])
    );
}

#[test]
fn dangling_dash_is_reported_with_its_column() {
    let mut lexer = Lexer::new(b"a -b");
    assert_eq!(lexer.next_tok(), Ok(Tok::Identifier(String::from("a"))));
    assert_eq!(lexer.next_tok(), Err(String::from("Expected '>' after '-' to form '->' at column 3")));
    let mut lexer = Lexer::new(b"-");
    assert_eq!(lexer.next_tok(), Err(String::from("Expected '>' after '-' to form '->' at column 1")));
}

#[test]
fn broken_biconditional_is_reported_with_its_column() {
    let mut lexer = Lexer::new(b"<>");
    assert_eq!(lexer.next_tok(), Err(String::from("Expected '->' after '<' to form '<->' at column 1")));
    let mut lexer = Lexer::new(b"<-x");
    assert_eq!(lexer.next_tok(), Err(String::from("Expected '->' after '<' to form '<->' at column 2")));
    let mut lexer = Lexer::new(b"a <-");
    assert_eq!(lexer.lex_all(), Err(String::from("Expected '->' after '<' to form '<->' at column 4")));
}

#[test]
fn unexpected_character_names_the_byte() {
    let mut lexer = Lexer::new(b"  $");
    assert_eq!(
        lexer.next_tok(),
        Err(String::from("Unexpected character $ at column 3"))
    );
}

#[test]
fn word_that_is_not_text_is_rejected() {
    // 0xC3 alone is a letter as a Latin-1 character and starts a two-byte
    // sequence that the following blank cuts short.
    let mut lexer = Lexer::new(&[0xC3, b' ']);
    assert_eq!(lexer.next_tok(), Err(String::from("Word is not UTF-8 text at column 1")));
}

#[test]
fn word_of_two_byte_text_is_decoded() {
    // U+00AA, feminine ordinal indicator: both of its bytes are letters.
    let mut lexer = Lexer::new(&[0xC2, 0xAA]);
    assert_eq!(lexer.next_tok(), Ok(Tok::Identifier(String::from("\u{aa}"))));
}

#[test]
fn is_match_reads_only_the_expected_byte() {
    let mut lexer = Lexer::new(b">x");
    assert!(!lexer.is_match(b'x'));
    assert!(lexer.is_match(b'>'));
    assert!(lexer.is_match(b'x'));
    assert!(!lexer.is_match(b'x'));
    assert!(lexer.is_match(0));
}

#[test]
fn lex_identifier_continues_the_word_just_started() {
    let mut lexer = Lexer::new(b"nand)");
    assert!(lexer.is_match(b'n'));
    assert_eq!(lexer.lex_identifier(), Ok(Tok::Nand));
    assert_eq!(lexer.next_tok(), Ok(Tok::RPAREN));
}

#[test]
fn messages_write_the_column_in_decimal() {
    assert_eq!(
        LexError::ExpectedImplication { column: 0 }.message(),
        "Expected '>' after '-' to form '->' at column 0"
    );
    assert_eq!(
        LexError::ExpectedBiconditional { column: 1203 }.message(),
        "Expected '->' after '<' to form '<->' at column 1203"
    );
    assert_eq!(
        LexError::UnexpectedCharacter { byte: b'%', column: 10 }.message(),
        "Unexpected character % at column 10"
    );
    assert_eq!(
        LexError::UnexpectedCharacter { byte: 0xA9, column: 7 }.message(),
        "Unexpected character \u{a9} at column 7"
    );
    assert_eq!(
        LexError::InvalidText { column: 99 }.message(),
        "Word is not UTF-8 text at column 99"
    );
}

#[test]
fn fault_far_into_the_source_reports_its_column() {
    let mut lexer = Lexer::new(b"a and b or (c -> d) & e");
    assert_eq!(
        lexer.lex_all(),
        Err(String::from("Unexpected character & at column 21"))
    );
}
