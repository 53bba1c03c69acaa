use vstd::prelude::*;

use crate::error::{error_message, message_of, LexerError};
use crate::lexeme::{char_at, lemma_lex_progress, lex, lexeme_text, scan, token_text, Lexeme};
use crate::text::{chars_of, string_of_range};
use crate::token::{Point, Token, TokenType};

verus! {

/// The row and column reached after the first `n` characters of `s`: a
/// newline starts the next row at column 1, any other character moves one
/// column on.
pub open spec fn position_after(s: Seq<char>, n: int) -> (int, int)
    decreases n,
{
    if n <= 0 {
        (1, 1)
    } else {
        let p = position_after(s, n - 1);
        if s[n - 1] == '\n' {
            (p.0 + 1, 1)
        } else {
            (p.0, p.1 + 1)
        }
    }
}

pub proof fn lemma_position_bounds(s: Seq<char>, n: int)
    requires
        0 <= n,
    ensures
        1 <= position_after(s, n).0 <= n + 1,
        1 <= position_after(s, n).1 <= n + 1,
    decreases n,
{
    if n > 0 {
        lemma_position_bounds(s, n - 1);
    }
}

/// What `advance_token` returns for the step `lex(s, p)`: a token of the
/// recognised kind carrying its text and start position, or an error with
/// the family's message, the consumed run and the start position.
pub open spec fn scan_result(s: Seq<char>, p: int, r: Result<Token, LexerError>) -> bool {
    let step = lex(s, p);
    let at = position_after(s, p);
    match r {
        Ok(t) => {
            &&& step.0 is Token
            &&& t.token_type == TokenType::Terminal(step.0->Token_0)
            &&& t.value@ == lexeme_text(s, p, step)
            &&& t.pos == Some(Point { row: at.0 as usize, col: at.1 as usize })
        },
        Err(e) => {
            &&& step.0 is Error
            &&& e.message@ == error_message(step.0->Error_0)
            &&& e.text@ == s.subrange(p, step.1)
            &&& e.row == at.0
            &&& e.col == at.1
        },
    }
}

/// A scanner over a source text: it hands out one lexeme per call, moving
/// forward through the text and keeping track of row and column.
pub struct Cursor {
    chars: Vec<char>,
    pos: usize,
    row: usize,
    column: usize,
}

impl Cursor {
    /// The source text.
    pub closed spec fn source(&self) -> Seq<char> {
        self.chars@
    }

    /// How many characters have been consumed.
    pub closed spec fn position(&self) -> int {
        self.pos as int
    }

    pub closed spec fn wf(&self) -> bool {
        &&& self.chars@.len() < usize::MAX
        &&& self.pos <= self.chars@.len()
        &&& position_after(self.chars@, self.pos as int) == (self.row as int, self.column as int)
    }

    pub fn new(input: &str) -> (c: Cursor)
        requires
            input@.len() < usize::MAX,
        ensures
            c.wf(),
            c.source() == input@,
            c.position() == 0,
    {
        Cursor { chars: chars_of(input), pos: 0, row: 1, column: 1 }
    }

    /// The position of a well-formed cursor lies within its source.
    pub proof fn lemma_position_in_source(&self)
        requires
            self.wf(),
        ensures
            0 <= self.position() <= self.source().len(),
    {
    }

    pub fn is_eof(&self) -> (r: bool)
        requires
            self.wf(),
        ensures
            r == (self.position() >= self.source().len()),
    {
        self.pos >= self.chars.len()
    }

    /// The next character, or NUL at the end.
    fn first(&self) -> (r: char)
        ensures
            r == char_at(self.chars@, self.pos as int),
    {
        if self.pos < self.chars.len() {
            self.chars[self.pos]
        } else {
            '\0'
        }
    }

    /// Consumes one character.
    fn next(&mut self) -> (r: Option<char>)
        requires
            old(self).wf(),
        ensures
            final(self).wf(),
            final(self).chars@ == old(self).chars@,
            old(self).pos < old(self).chars@.len() ==> final(self).pos == old(self).pos + 1
                && r == Some(old(self).chars@[old(self).pos as int]),
            old(self).pos >= old(self).chars@.len() ==> final(self).pos == old(self).pos
                && r is None,
    {
        if self.pos >= self.chars.len() {
            return None;
        }
        let c = self.first();
        proof {
            lemma_position_bounds(self.chars@, self.pos as int);
        }
        if c == '\n' {
            self.row = self.row + 1;
            self.column = 1;
        } else {
            self.column = self.column + 1;
        }
        self.pos = self.pos + 1;
        Some(c)
    }

    /// Consumes characters up to index `end`.
    fn advance_to(&mut self, end: usize)
        requires
            old(self).wf(),
            old(self).pos <= end <= old(self).chars@.len(),
        ensures
            final(self).wf(),
            final(self).chars@ == old(self).chars@,
            final(self).pos == end,
    {
        while self.pos < end
            invariant
                self.wf(),
                self.chars@ == old(self).chars@,
                self.pos <= end <= self.chars@.len(),
            decreases end - self.pos,
        {
            self.next();
        }
    }

    /// Recognises the lexeme at the current position and moves past it.
    pub fn advance_token(&mut self) -> (r: Result<Token, LexerError>)
        requires
            old(self).wf(),
        ensures
            final(self).wf(),
            final(self).source() == old(self).source(),
            final(self).position() == lex(old(self).source(), old(self).position()).1,
            0 <= final(self).position() <= final(self).source().len(),
            old(self).position() < old(self).source().len() ==> final(self).position() > old(self).position(),
            scan_result(old(self).source(), old(self).position(), r),
    {
        let row = self.row;
        let col = self.column;
        if self.pos >= self.chars.len() {
            let e = LexerError::new(message_of(crate::lexeme::LexErrorKind::EndOfInput), row, col);
            proof {
                assert(e.text@ =~= self.chars@.subrange(self.pos as int, self.pos as int));
            }
            return Err(e);
        }
        let step = scan(&self.chars, self.pos);
        proof {
            lemma_lex_progress(self.chars@, self.pos as int);
        }
        let start = self.pos;
        match step.0 {
            Lexeme::Token(kind) => {
                let value = token_text(&self.chars, start, step);
                self.advance_to(step.1);
                Ok(Token::new(TokenType::Terminal(kind), value, Some(Point::new(row, col))))
            },
            Lexeme::Error(kind) => {
                let text = string_of_range(&self.chars, start, step.1);
                self.advance_to(step.1);
                Err(LexerError { message: message_of(kind), text, row, col })
            },
        }
    }
}

} // verus!
