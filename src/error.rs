use vstd::prelude::*;

use crate::lexeme::LexErrorKind;

verus! {

/// A lexical error: what went wrong, the text of the offending run that the
/// scanner consumed, and where that run began.
#[derive(Clone, Debug, PartialEq, Eq)]
pub struct LexerError {
    pub message: String,
    pub text: String,
    pub row: usize,
    pub col: usize,
}

impl LexerError {
    /// An error with no consumed text.
    pub fn new(message: String, row: usize, col: usize) -> (e: LexerError)
        ensures
            e.message@ == message@,
            e.text@.len() == 0,
            e.row == row,
            e.col == col,
    {
        LexerError { message, text: String::new(), row, col }
    }
}

/// The message that reports each family of lexical error.
pub open spec fn error_message(kind: LexErrorKind) -> Seq<char> {
    match kind {
        LexErrorKind::UnterminatedComment => "unterminated block comment"@,
        LexErrorKind::MalformedIdentifier => "malformed identifier"@,
        LexErrorKind::MalformedNumber => "malformed numeric literal"@,
        LexErrorKind::MalformedCharacter => "malformed character literal"@,
        LexErrorKind::MalformedString => "malformed string literal"@,
        LexErrorKind::UnterminatedString => "unterminated string literal"@,
        LexErrorKind::UnknownCharacters => "unrecognized characters"@,
        LexErrorKind::EndOfInput => "unexpected end of input"@,
    }
}

pub fn message_of(kind: LexErrorKind) -> (r: String)
    ensures
        r@ == error_message(kind),
{
    match kind {
        LexErrorKind::UnterminatedComment => "unterminated block comment".to_owned(),
        LexErrorKind::MalformedIdentifier => "malformed identifier".to_owned(),
        LexErrorKind::MalformedNumber => "malformed numeric literal".to_owned(),
        LexErrorKind::MalformedCharacter => "malformed character literal".to_owned(),
        LexErrorKind::MalformedString => "malformed string literal".to_owned(),
        LexErrorKind::UnterminatedString => "unterminated string literal".to_owned(),
        LexErrorKind::UnknownCharacters => "unrecognized characters".to_owned(),
        LexErrorKind::EndOfInput => "unexpected end of input".to_owned(),
    }
}

} // verus!
