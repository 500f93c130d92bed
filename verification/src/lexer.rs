//! Splits the text of a formula into symbols: truth letters, parentheses,
//! connective words and arrows, and identifiers.

use crate::text::{char_text, decimal, decimal_text};
use vstd::prelude::*;
use vstd::slice::{slice_subrange, slice_to_vec};
use vstd::string::StringExecFns;
use vstd::utf8::{decode_utf8, valid_utf8};

verus! {

/// A lexical symbol of the formula syntax.
#[derive(Clone, Debug, PartialEq, Eq)]
pub enum Tok {
    T,
    F,
    LPAREN,
    RPAREN,
    And,
    Or,
    Not,
    Nor,
    Nand,
    Xor,
    If,
    Iff,
    Identifier(String),
    EOF,
}

/// A lexical symbol as a mathematical value: an identifier carries its
/// characters.
pub enum Token {
    T,
    F,
    LPAREN,
    RPAREN,
    And,
    Or,
    Not,
    Nor,
    Nand,
    Xor,
    If,
    Iff,
    Identifier(Seq<char>),
    EOF,
}

impl View for Tok {
    type V = Token;

    open spec fn view(&self) -> Token {
        match self {
            Tok::T => Token::T,
            Tok::F => Token::F,
            Tok::LPAREN => Token::LPAREN,
            Tok::RPAREN => Token::RPAREN,
            Tok::And => Token::And,
            Tok::Or => Token::Or,
            Tok::Not => Token::Not,
            Tok::Nor => Token::Nor,
            Tok::Nand => Token::Nand,
            Tok::Xor => Token::Xor,
            Tok::If => Token::If,
            Tok::Iff => Token::Iff,
            Tok::Identifier(name) => Token::Identifier(name@),
            Tok::EOF => Token::EOF,
        }
    }
}

impl Tok {
    /// Whether the symbol marks the end of the input.
    pub fn is_eof(&self) -> (eof: bool)
        ensures
            eof == (self@ == Token::EOF),
    {
        if let Tok::EOF = self {
            true
        } else {
            false
        }
    }
}

/// Why a position of the source starts no symbol. `column` counts the bytes
/// read when the fault was found.
#[derive(Clone, Copy, Debug, PartialEq, Eq)]
pub enum LexError {
    /// `-` was not followed by `>`.
    ExpectedImplication { column: usize },
    /// `<` was not followed by `->`.
    ExpectedBiconditional { column: usize },
    /// The byte starts no symbol.
    UnexpectedCharacter { byte: u8, column: usize },
    /// The bytes of a word are not UTF-8 text.
    InvalidText { column: usize },
}

impl LexError {
    /// The message that reports the fault.
    pub open spec fn text(self) -> Seq<char> {
        match self {
            LexError::ExpectedImplication { column } => "Expected '>' after '-' to form '->' at column "@ + decimal(
                column as nat,
            ),
            LexError::ExpectedBiconditional { column } => "Expected '->' after '<' to form '<->' at column "@
                + decimal(column as nat),
            LexError::UnexpectedCharacter { byte, column } => "Unexpected character "@ + seq![byte as char]
                + " at column "@ + decimal(column as nat),
            LexError::InvalidText { column } => "Word is not UTF-8 text at column "@ + decimal(column as nat),
        }
    }

    /// Writes the message that reports the fault.
    pub fn message(&self) -> (msg: String)
        ensures
            msg@ == self.text(),
    {
        match self {
            LexError::ExpectedImplication { column } => String::from_str(
                "Expected '>' after '-' to form '->' at column ",
            ).concat(decimal_text(*column).as_str()),
            LexError::ExpectedBiconditional { column } => String::from_str(
                "Expected '->' after '<' to form '<->' at column ",
            ).concat(decimal_text(*column).as_str()),
            LexError::UnexpectedCharacter { byte, column } => String::from_str("Unexpected character ").concat(
                char_text(*byte as char).as_str(),
            ).concat(" at column ").concat(decimal_text(*column).as_str()),
            LexError::InvalidText { column } => String::from_str("Word is not UTF-8 text at column ").concat(
                decimal_text(*column).as_str(),
            ),
        }
    }
}

/// The letter that stands for true.
pub const LETTER_T: u8 = 84;

/// The letter that stands for false.
pub const LETTER_F: u8 = 70;

/// The opening parenthesis.
pub const OPEN_PAREN: u8 = 40;

/// The closing parenthesis.
pub const CLOSE_PAREN: u8 = 41;

/// The dash that starts an implication arrow.
pub const DASH: u8 = 45;

/// The sign that starts a biconditional arrow.
pub const LESS_THAN: u8 = 60;

/// The sign that ends either arrow.
pub const GREATER_THAN: u8 = 62;

/// The underscore, which counts as a letter of identifiers.
pub const UNDERSCORE: u8 = 95;

/// Whether `char::is_whitespace` holds of the character.
pub uninterp spec fn whitespace(c: char) -> bool;

/// Whether `char::is_alphanumeric` holds of the character.
pub uninterp spec fn alphanumeric(c: char) -> bool;

/// `char::is_whitespace`: the Unicode White_Space property of the
/// character, which depends on the character alone.
#[verifier::external_body]
fn char_is_whitespace(c: char) -> (space: bool)
    ensures
        space == whitespace(c),
{
    c.is_whitespace()
}

/// `char::is_alphanumeric`: whether the character is alphabetic or numeric
/// in Unicode, which depends on the character alone.
#[verifier::external_body]
fn char_is_alphanumeric(c: char) -> (alnum: bool)
    ensures
        alnum == alphanumeric(c),
{
    c.is_alphanumeric()
}

/// `String::from_utf8`: the text that the bytes encode, and nothing when
/// they are not UTF-8.
#[verifier::external_body]
fn text_of(bytes: Vec<u8>) -> (text: Option<String>)
    ensures
        text is Some <==> valid_utf8(bytes@),
        text is Some ==> text->0@ == decode_utf8(bytes@),
{
    String::from_utf8(bytes).ok()
}

/// Whether the byte, read as a character, is a blank.
pub open spec fn is_space(b: u8) -> bool {
    whitespace(b as char)
}

/// Whether the byte, read as a character, can stand in a word.
pub open spec fn is_ident(b: u8) -> bool {
    alphanumeric(b as char) || b == UNDERSCORE
}

/// First position at or after `cur` that holds no whitespace.
pub open spec fn skip_space(src: Seq<u8>, cur: int) -> int
    decreases src.len() - cur,
{
    if 0 <= cur < src.len() && is_space(src[cur]) {
        skip_space(src, cur + 1)
    } else {
        cur
    }
}

/// First position at or after `cur` that holds no identifier byte.
pub open spec fn word_end(src: Seq<u8>, cur: int) -> int
    decreases src.len() - cur,
{
    if 0 <= cur < src.len() && is_ident(src[cur]) {
        word_end(src, cur + 1)
    } else {
        cur
    }
}

/// The connective that a word names, if it names one.
pub open spec fn keyword(text: Seq<char>) -> Option<Token> {
    if text == "and"@ {
        Some(Token::And)
    } else if text == "or"@ {
        Some(Token::Or)
    } else if text == "not"@ {
        Some(Token::Not)
    } else if text == "nor"@ {
        Some(Token::Nor)
    } else if text == "nand"@ {
        Some(Token::Nand)
    } else if text == "xor"@ {
        Some(Token::Xor)
    } else {
        None
    }
}

/// The symbol spelled by the bytes from `start` up to `end`.
pub open spec fn word(src: Seq<u8>, start: int, end: int) -> Result<Token, LexError> {
    let bytes = src.subrange(start, end);
    if valid_utf8(bytes) {
        let text = decode_utf8(bytes);
        match keyword(text) {
            Some(token) => Ok(token),
            None => Ok(Token::Identifier(text)),
        }
    } else {
        Err(LexError::InvalidText { column: end as usize })
    }
}

/// The symbol that starts at the first non-blank position at or after
/// `cur`, and the position just behind what was read.
pub open spec fn scan(src: Seq<u8>, cur: int) -> (Result<Token, LexError>, int) {
    let p = skip_space(src, cur);
    if p >= src.len() {
        (Ok(Token::EOF), p)
    } else if src[p] == LETTER_T {
        (Ok(Token::T), p + 1)
    } else if src[p] == LETTER_F {
        (Ok(Token::F), p + 1)
    } else if src[p] == OPEN_PAREN {
        (Ok(Token::LPAREN), p + 1)
    } else if src[p] == CLOSE_PAREN {
        (Ok(Token::RPAREN), p + 1)
    } else if src[p] == DASH {
        if p + 1 < src.len() && src[p + 1] == GREATER_THAN {
            (Ok(Token::If), p + 2)
        } else {
            (Err(LexError::ExpectedImplication { column: (p + 1) as usize }), p + 1)
        }
    } else if src[p] == LESS_THAN {
        if p + 1 < src.len() && src[p + 1] == DASH {
            if p + 2 < src.len() && src[p + 2] == GREATER_THAN {
                (Ok(Token::Iff), p + 3)
            } else {
                (Err(LexError::ExpectedBiconditional { column: (p + 2) as usize }), p + 2)
            }
        } else {
            (Err(LexError::ExpectedBiconditional { column: (p + 1) as usize }), p + 1)
        }
    } else if is_ident(src[p]) {
        let end = word_end(src, p + 1);
        (word(src, p, end), end)
    } else {
        (Err(LexError::UnexpectedCharacter { byte: src[p], column: (p + 1) as usize }), p + 1)
    }
}

/// The symbols already read, put in front of the outcome for the rest.
pub open spec fn before(tokens: Seq<Token>, rest: Result<Seq<Token>, LexError>) -> Result<Seq<Token>, LexError> {
    match rest {
        Ok(more) => Ok(tokens + more),
        Err(e) => Err(e),
    }
}

/// Every symbol from `cur` to the end of the source, or the first fault.
pub open spec fn scan_all(src: Seq<u8>, cur: int) -> Result<Seq<Token>, LexError>
    decreases src.len() - cur,
{
    let (first, next) = scan(src, cur);
    match first {
        Err(e) => Err(e),
        Ok(Token::EOF) => Ok(Seq::empty()),
        Ok(token) => if cur < next <= src.len() {
            before(seq![token], scan_all(src, next))
        } else {
            Ok(Seq::empty())
        },
    }
}

/// Where the cursor rests after `scan_all`: behind the end-of-input or the
/// fault that ended it.
pub open spec fn scan_all_end(src: Seq<u8>, cur: int) -> int
    decreases src.len() - cur,
{
    let (first, next) = scan(src, cur);
    match first {
        Err(_) => next,
        Ok(Token::EOF) => next,
        Ok(_) => if cur < next <= src.len() {
            scan_all_end(src, next)
        } else {
            next
        },
    }
}

/// What a scan hands back as a mathematical value: a symbol by its view, a
/// fault by the characters of its message.
pub open spec fn view_of(scanned: Result<Tok, String>) -> Result<Token, Seq<char>> {
    match scanned {
        Ok(tok) => Ok(tok@),
        Err(msg) => Err(msg@),
    }
}

/// The fault of a specified scan, written out as its message.
pub open spec fn reported<T>(scanned: Result<T, LexError>) -> Result<T, Seq<char>> {
    match scanned {
        Ok(value) => Ok(value),
        Err(e) => Err(e.text()),
    }
}

/// The symbols held as executable values, as mathematical ones.
pub open spec fn views_of(toks: Seq<Tok>) -> Seq<Token> {
    toks.map_values(|tok: Tok| tok@)
}

/// A cursor over the bytes of a formula's text.
#[derive(Debug)]
pub struct Lexer<'a> {
    src: &'a [u8],
    cur: usize,
}

impl<'a> Lexer<'a> {
    /// The bytes being read.
    pub closed spec fn source(&self) -> Seq<u8> {
        self.src@
    }

    /// How many bytes have been read.
    pub closed spec fn position(&self) -> int {
        self.cur as int
    }

    /// The cursor lies within the source.
    pub open spec fn wf(&self) -> bool {
        0 <= self.position() <= self.source().len()
    }

    /// A cursor at the start of the source.
    pub fn new(src: &'a [u8]) -> (lexer: Lexer<'a>)
        ensures
            lexer.wf(),
            lexer.source() == src@,
            lexer.position() == 0,
    {
        Lexer { src, cur: 0 }
    }

    /// Reads the next byte, if there is one.
    fn advance(&mut self) -> (byte: Option<u8>)
        requires
            old(self).wf(),
        ensures
            final(self).wf(),
            final(self).source() == old(self).source(),
            old(self).position() < old(self).source().len() ==> byte == Some(old(self).source()[old(self).position()])
                && final(self).position() == old(self).position() + 1,
            old(self).position() >= old(self).source().len() ==> byte is None && final(self).position()
                == old(self).position(),
    {
        if self.cur >= self.src.len() {
            None
        } else {
            self.cur += 1;
            Some(self.src[self.cur - 1])
        }
    }

    /// The next byte, if there is one, without reading it.
    fn peek(&self) -> (byte: Option<u8>)
        requires
            self.wf(),
        ensures
            self.position() < self.source().len() ==> byte == Some(self.source()[self.position()]),
            self.position() >= self.source().len() ==> byte is None,
    {
        if self.cur >= self.src.len() {
            None
        } else {
            Some(self.src[self.cur])
        }
    }

    /// Reads past the blanks at the cursor.
    fn skip_whitespace(&mut self)
        requires
            old(self).wf(),
        ensures
            final(self).wf(),
            final(self).source() == old(self).source(),
            final(self).position() == skip_space(old(self).source(), old(self).position()),
            final(self).position() >= old(self).position(),
    {
        loop
            invariant
                self.wf(),
                self.source() == old(self).source(),
                self.position() >= old(self).position(),
                skip_space(self.source(), self.position()) == skip_space(old(self).source(), old(self).position()),
            ensures
                self.position() == skip_space(self.source(), self.position()),
            decreases self.source().len() - self.position(),
        {
            match self.peek() {
                Some(code) => {
                    if char_is_whitespace(code as char) {
                        self.advance();
                    } else {
                        break;
                    }
                },
                None => {
                    break;
                },
            }
        }
    }

    /// Reads the byte `c` if it is next. At the end of the source the byte
    /// read counts as 0.
    pub fn is_match(&mut self, c: u8) -> (matched: bool)
        requires
            old(self).wf(),
        ensures
            final(self).wf(),
            final(self).source() == old(self).source(),
            matched == (if old(self).position() < old(self).source().len() {
                old(self).source()[old(self).position()] == c
            } else {
                c == 0
            }),
            final(self).position() == if matched && old(self).position() < old(self).source().len() {
                old(self).position() + 1
            } else {
                old(self).position()
            },
    {
        let next = match self.peek() {
            Some(code) => code,
            None => 0,
        };
        if next == c {
            self.advance();
            true
        } else {
            false
        }
    }

    /// Whether the byte can stand in a word: a letter, a digit or an
    /// underscore.
    fn is_identifier_char(c: u8) -> (ident: bool)
        ensures
            ident == is_ident(c),
    {
        char_is_alphanumeric(c as char) || c == UNDERSCORE
    }

    /// Whether the text read is the given word.
    fn is_word(lexeme: &String, word: &str) -> (same: bool)
        ensures
            same == (lexeme@ == word@),
    {
        let other = String::from_str(word);
        *lexeme == other
    }

    /// Reads the rest of a word whose first byte was just read, and gives
    /// the connective it names or else the identifier it spells.
    pub fn lex_identifier(&mut self) -> (scanned: Result<Tok, String>)
        requires
            old(self).wf(),
            old(self).position() >= 1,
        ensures
            final(self).wf(),
            final(self).source() == old(self).source(),
            final(self).position() == word_end(old(self).source(), old(self).position()),
            final(self).position() >= old(self).position(),
            view_of(scanned) == reported(word(old(self).source(), old(self).position() - 1, final(self).position())),
    {
        let start = self.cur - 1;
        loop
            invariant
                self.wf(),
                start == old(self).position() - 1,
                self.position() >= old(self).position(),
                self.source() == old(self).source(),
                word_end(self.source(), self.position()) == word_end(old(self).source(), old(self).position()),
            ensures
                self.position() == word_end(self.source(), self.position()),
            decreases self.source().len() - self.position(),
        {
            match self.peek() {
                Some(c) => {
                    if Self::is_identifier_char(c) {
                        self.advance();
                    } else {
                        break;
                    }
                },
                None => {
                    break;
                },
            }
        }
        let lexeme = match text_of(slice_to_vec(slice_subrange(self.src, start, self.cur))) {
            Some(lexeme) => lexeme,
            None => {
                return Err(LexError::InvalidText { column: self.cur }.message());
            },
        };
        if Self::is_word(&lexeme, "and") {
            Ok(Tok::And)
        } else if Self::is_word(&lexeme, "or") {
            Ok(Tok::Or)
        } else if Self::is_word(&lexeme, "not") {
            Ok(Tok::Not)
        } else if Self::is_word(&lexeme, "nor") {
            Ok(Tok::Nor)
        } else if Self::is_word(&lexeme, "nand") {
            Ok(Tok::Nand)
        } else if Self::is_word(&lexeme, "xor") {
            Ok(Tok::Xor)
        } else {
            Ok(Tok::Identifier(lexeme))
        }
    }

    /// Reads the next symbol, skipping the blanks before it.
    pub fn next_tok(&mut self) -> (scanned: Result<Tok, String>)
        requires
            old(self).wf(),
        ensures
            final(self).wf(),
            final(self).source() == old(self).source(),
            view_of(scanned) == reported(scan(old(self).source(), old(self).position()).0),
            final(self).position() == scan(old(self).source(), old(self).position()).1,
            !(view_of(scanned) == Ok::<Token, Seq<char>>(Token::EOF)) ==> final(self).position() > old(self).position(),
    {
        self.skip_whitespace();
        let c = match self.advance() {
            Some(code) => code,
            None => {
                return Ok(Tok::EOF);
            },
        };
        if c == LETTER_T {
            Ok(Tok::T)
        } else if c == LETTER_F {
            Ok(Tok::F)
        } else if c == OPEN_PAREN {
            Ok(Tok::LPAREN)
        } else if c == CLOSE_PAREN {
            Ok(Tok::RPAREN)
        } else if c == DASH {
            if self.is_match(GREATER_THAN) {
                Ok(Tok::If)
            } else {
                Err(LexError::ExpectedImplication { column: self.cur }.message())
            }
        } else if c == LESS_THAN {
            if self.is_match(DASH) && self.is_match(GREATER_THAN) {
                Ok(Tok::Iff)
            } else {
                Err(LexError::ExpectedBiconditional { column: self.cur }.message())
            }
        } else if Self::is_identifier_char(c) {
            self.lex_identifier()
        } else {
            Err(LexError::UnexpectedCharacter { byte: c, column: self.cur }.message())
        }
    }

    /// Reads every symbol up to the end of the source.
    pub fn lex_all(&mut self) -> (scanned: Result<Vec<Tok>, String>)
        requires
            old(self).wf(),
        ensures
            final(self).wf(),
            final(self).source() == old(self).source(),
            final(self).position() == scan_all_end(old(self).source(), old(self).position()),
            match scanned {
                Ok(toks) => scan_all(old(self).source(), old(self).position()) == Ok::<Seq<Token>, LexError>(views_of(toks@)),
                Err(msg) => reported(scan_all(old(self).source(), old(self).position())) == Err::<
                    Seq<Token>,
                    Seq<char>,
                >(msg@),
            },
    {
        let mut toks: Vec<Tok> = Vec::new();
        assert(views_of(toks@) + Seq::<Token>::empty() =~= views_of(toks@));
        loop
            invariant
                self.wf(),
                self.source() == old(self).source(),
                scan_all(old(self).source(), old(self).position()) == before(
                    views_of(toks@),
                    scan_all(self.source(), self.position()),
                ),
                scan_all_end(old(self).source(), old(self).position()) == scan_all_end(
                    self.source(),
                    self.position(),
                ),
            ensures
                scan_all(old(self).source(), old(self).position()) == Ok::<Seq<Token>, LexError>(views_of(toks@)),
                self.position() == scan_all_end(old(self).source(), old(self).position()),
            decreases self.source().len() - self.position(),
        {
            let ghost done = views_of(toks@);
            let ghost at = self.position();
            let next_tok = match self.next_tok() {
                Ok(tok) => tok,
                Err(e) => {
                    return Err(e);
                },
            };
            if next_tok.is_eof() {
                assert(done + Seq::<Token>::empty() =~= done);
                break;
            }
            let ghost token = next_tok@;
            toks.push(next_tok);
            proof {
                assert(views_of(toks@) =~= done.push(token));
                match scan_all(self.source(), self.position()) {
                    Ok(more) => {
                        assert(done + (seq![token] + more) =~= done.push(token) + more);
                    },
                    Err(e) => {},
                }
            }
        }
        Ok(toks)
    }
}

} // verus!
