use vstd::prelude::*;

use crate::text::{push_char, str_equals, string_of_range};
use crate::token::{KeyWords, Numbers, Operators, TokenKind};

verus! {

// ---------------------------------------------------------------------------
// Character classes
// ---------------------------------------------------------------------------

pub open spec fn whitespace_char(c: char) -> bool {
    c == '\t' || c == '\n' || c == ' ' || c == '\r'
}

pub open spec fn operator_char(c: char) -> bool {
    c == '+' || c == '-' || c == '*' || c == '/' || c == '&' || c == '|' || c == '!'
        || c == '^' || c == '?' || c == ':' || c == '>' || c == '<' || c == '=' || c == '('
        || c == ')' || c == '[' || c == ']' || c == '%'
}

pub open spec fn delimiter_char(c: char) -> bool {
    c == '{' || c == '}' || c == ';' || c == ','
}

pub open spec fn id_start_char(c: char) -> bool {
    c == '_' || ('a' <= c && c <= 'z') || ('A' <= c && c <= 'Z')
}

pub open spec fn digit_char(c: char) -> bool {
    '0' <= c && c <= '9'
}

pub open spec fn id_continue_char(c: char) -> bool {
    id_start_char(c) || digit_char(c)
}

/// A character that ends a literal or an identifier without belonging to it.
pub open spec fn boundary_char(c: char) -> bool {
    whitespace_char(c) || operator_char(c) || delimiter_char(c)
}

/// The codes that may follow a backslash in character and string literals.
pub open spec fn escape_char(c: char) -> bool {
    c == 'n' || c == 't' || c == '\\' || c == 'r' || c == '\'' || c == '"'
}

/// The character at `i`, or NUL past either end.
pub open spec fn char_at(s: Seq<char>, i: int) -> char {
    if 0 <= i < s.len() {
        s[i]
    } else {
        '\0'
    }
}

pub fn is_whitespace(c: char) -> (r: bool)
    ensures
        r == whitespace_char(c),
{
    c == '\t' || c == '\n' || c == ' ' || c == '\r'
}

pub fn is_operator(c: char) -> (r: bool)
    ensures
        r == operator_char(c),
{
    c == '+' || c == '-' || c == '*' || c == '/' || c == '&' || c == '|' || c == '!'
        || c == '^' || c == '?' || c == ':' || c == '>' || c == '<' || c == '=' || c == '('
        || c == ')' || c == '[' || c == ']' || c == '%'
}

pub fn is_delimiter(c: char) -> (r: bool)
    ensures
        r == delimiter_char(c),
{
    c == '{' || c == '}' || c == ';' || c == ','
}

pub fn is_id_start(c: char) -> (r: bool)
    ensures
        r == id_start_char(c),
{
    c == '_' || ('a' <= c && c <= 'z') || ('A' <= c && c <= 'Z')
}

pub fn is_id_continue(c: char) -> (r: bool)
    ensures
        r == id_continue_char(c),
{
    is_id_start(c) || is_number(c)
}

pub fn is_number(c: char) -> (r: bool)
    ensures
        r == digit_char(c),
{
    '0' <= c && c <= '9'
}

pub fn is_whitespace_or_operator_or_delimiter(c: char) -> (r: bool)
    ensures
        r == boundary_char(c),
{
    is_whitespace(c) || is_operator(c) || is_delimiter(c)
}

fn is_escape(c: char) -> (r: bool)
    ensures
        r == escape_char(c),
{
    c == 'n' || c == 't' || c == '\\' || c == 'r' || c == '\'' || c == '"'
}

fn get(s: &Vec<char>, i: usize) -> (r: char)
    ensures
        r == char_at(s@, i as int),
{
    if i < s.len() {
        s[i]
    } else {
        '\0'
    }
}

// ---------------------------------------------------------------------------
// Outcomes
// ---------------------------------------------------------------------------

/// The families of lexical error.
#[derive(Clone, Copy, Debug, PartialEq, Eq, Structural)]
pub enum LexErrorKind {
    UnterminatedComment,
    MalformedIdentifier,
    MalformedNumber,
    MalformedCharacter,
    MalformedString,
    UnterminatedString,
    UnknownCharacters,
    EndOfInput,
}

/// What one scanning step recognises: a token of some kind, or an error.
#[derive(Clone, Copy, Debug, PartialEq, Eq, Structural)]
pub enum Lexeme {
    Token(TokenKind),
    Error(LexErrorKind),
}

// ---------------------------------------------------------------------------
// Runs
// ---------------------------------------------------------------------------

/// The first index at or after `i` that holds a boundary character, or the end.
pub open spec fn boundary_from(s: Seq<char>, i: int) -> int
    decreases s.len() - i,
{
    if i >= s.len() || boundary_char(s[i]) {
        i
    } else {
        boundary_from(s, i + 1)
    }
}

/// The end of the run of identifier characters that starts at `i`.
pub open spec fn ident_run_end(s: Seq<char>, i: int) -> int
    decreases s.len() - i,
{
    if i >= s.len() || !id_continue_char(s[i]) {
        i
    } else {
        ident_run_end(s, i + 1)
    }
}

/// The end of the run of whitespace that starts at `i`.
pub open spec fn whitespace_run_end(s: Seq<char>, i: int) -> int
    decreases s.len() - i,
{
    if i >= s.len() || !whitespace_char(s[i]) {
        i
    } else {
        whitespace_run_end(s, i + 1)
    }
}

/// The first newline at or after `i`, or the end.
pub open spec fn newline_from(s: Seq<char>, i: int) -> int
    decreases s.len() - i,
{
    if i >= s.len() || s[i] == '\n' {
        i
    } else {
        newline_from(s, i + 1)
    }
}

/// The first index at or after `i` where `*/` starts, if any.
pub open spec fn comment_close_from(s: Seq<char>, i: int) -> Option<int>
    decreases s.len() - i,
{
    if i + 1 >= s.len() {
        None
    } else if s[i] == '*' && s[i + 1] == '/' {
        Some(i)
    } else {
        comment_close_from(s, i + 1)
    }
}

proof fn lemma_boundary_from_bounds(s: Seq<char>, i: int)
    requires
        0 <= i <= s.len(),
    ensures
        i <= boundary_from(s, i) <= s.len(),
    decreases s.len() - i,
{
    if i < s.len() && !boundary_char(s[i]) {
        lemma_boundary_from_bounds(s, i + 1);
    }
}

proof fn lemma_ident_run_bounds(s: Seq<char>, i: int)
    requires
        0 <= i <= s.len(),
    ensures
        i <= ident_run_end(s, i) <= s.len(),
    decreases s.len() - i,
{
    if i < s.len() && id_continue_char(s[i]) {
        lemma_ident_run_bounds(s, i + 1);
    }
}

proof fn lemma_whitespace_run_bounds(s: Seq<char>, i: int)
    requires
        0 <= i <= s.len(),
    ensures
        i <= whitespace_run_end(s, i) <= s.len(),
    decreases s.len() - i,
{
    if i < s.len() && whitespace_char(s[i]) {
        lemma_whitespace_run_bounds(s, i + 1);
    }
}

proof fn lemma_newline_from_bounds(s: Seq<char>, i: int)
    requires
        0 <= i <= s.len(),
    ensures
        i <= newline_from(s, i) <= s.len(),
    decreases s.len() - i,
{
    if i < s.len() && s[i] != '\n' {
        lemma_newline_from_bounds(s, i + 1);
    }
}

proof fn lemma_comment_close_bounds(s: Seq<char>, i: int)
    requires
        0 <= i,
    ensures
        comment_close_from(s, i) matches Some(k) ==> i <= k && k + 2 <= s.len(),
    decreases s.len() - i,
{
    if i + 1 < s.len() && !(s[i] == '*' && s[i + 1] == '/') {
        lemma_comment_close_bounds(s, i + 1);
    }
}

fn skip_to_boundary(s: &Vec<char>, i: usize) -> (r: usize)
    requires
        s@.len() < usize::MAX,
        i <= s@.len(),
    ensures
        r == boundary_from(s@, i as int),
{
    let mut k = i;
    while k < s.len() && !is_whitespace_or_operator_or_delimiter(s[k])
        invariant
            i <= k <= s@.len(),
            boundary_from(s@, k as int) == boundary_from(s@, i as int),
        decreases s@.len() - k,
    {
        k = k + 1;
    }
    k
}

// ---------------------------------------------------------------------------
// Comments and whitespace
// ---------------------------------------------------------------------------

/// A line comment runs up to, not including, the next newline.
pub open spec fn scan_line_comment(s: Seq<char>, i: int) -> (Lexeme, int) {
    (Lexeme::Token(TokenKind::Comment), newline_from(s, i + 2))
}

/// A block comment runs through the first `*/` after its opening.
pub open spec fn scan_block_comment(s: Seq<char>, i: int) -> (Lexeme, int) {
    match comment_close_from(s, i + 2) {
        Some(k) => (Lexeme::Token(TokenKind::Comment), k + 2),
        None => (Lexeme::Error(LexErrorKind::UnterminatedComment), s.len() as int),
    }
}

pub open spec fn scan_whitespace(s: Seq<char>, i: int) -> (Lexeme, int) {
    (Lexeme::Token(TokenKind::WhiteSpace), whitespace_run_end(s, i + 1))
}

fn line_comment(s: &Vec<char>, i: usize) -> (r: (Lexeme, usize))
    requires
        s@.len() < usize::MAX,
        i + 2 <= s@.len(),
    ensures
        (r.0, r.1 as int) == scan_line_comment(s@, i as int),
{
    let mut k = i + 2;
    while k < s.len() && s[k] != '\n'
        invariant
            i + 2 <= k <= s@.len(),
            newline_from(s@, k as int) == newline_from(s@, i + 2),
        decreases s@.len() - k,
    {
        k = k + 1;
    }
    (Lexeme::Token(TokenKind::Comment), k)
}

fn block_comment(s: &Vec<char>, i: usize) -> (r: (Lexeme, usize))
    requires
        s@.len() < usize::MAX,
        i + 2 <= s@.len(),
    ensures
        (r.0, r.1 as int) == scan_block_comment(s@, i as int),
{
    let mut k = i + 2;
    while k + 1 < s.len() && !(s[k] == '*' && s[k + 1] == '/')
        invariant
            s@.len() < usize::MAX,
            i + 2 <= k <= s@.len(),
            comment_close_from(s@, k as int) == comment_close_from(s@, i + 2),
        decreases s@.len() - k,
    {
        k = k + 1;
    }
    if k + 1 < s.len() {
        (Lexeme::Token(TokenKind::Comment), k + 2)
    } else {
        (Lexeme::Error(LexErrorKind::UnterminatedComment), s.len())
    }
}

fn whitespace(s: &Vec<char>, i: usize) -> (r: (Lexeme, usize))
    requires
        s@.len() < usize::MAX,
        i < s@.len(),
    ensures
        (r.0, r.1 as int) == scan_whitespace(s@, i as int),
{
    let mut k = i + 1;
    while k < s.len() && is_whitespace(s[k])
        invariant
            i + 1 <= k <= s@.len(),
            whitespace_run_end(s@, k as int) == whitespace_run_end(s@, i + 1),
        decreases s@.len() - k,
    {
        k = k + 1;
    }
    (Lexeme::Token(TokenKind::WhiteSpace), k)
}

// ---------------------------------------------------------------------------
// Identifiers and keywords
// ---------------------------------------------------------------------------

pub open spec fn keyword_of(w: Seq<char>) -> Option<KeyWords> {
    if w == "char"@ { Some(KeyWords::Char) }
    else if w == "int"@ { Some(KeyWords::Int) }
    else if w == "float"@ { Some(KeyWords::Float) }
    else if w == "break"@ { Some(KeyWords::Break) }
    else if w == "const"@ { Some(KeyWords::Const) }
    else if w == "return"@ { Some(KeyWords::Return) }
    else if w == "void"@ { Some(KeyWords::Void) }
    else if w == "continue"@ { Some(KeyWords::Continue) }
    else if w == "do"@ { Some(KeyWords::Do) }
    else if w == "while"@ { Some(KeyWords::While) }
    else if w == "if"@ { Some(KeyWords::If) }
    else if w == "else"@ { Some(KeyWords::Else) }
    else if w == "for"@ { Some(KeyWords::For) }
    else { None }
}

/// The kind of a well-formed identifier-shaped word: a keyword or a plain identifier.
pub open spec fn word_kind(w: Seq<char>) -> TokenKind {
    match keyword_of(w) {
        Some(k) => TokenKind::KeyWord(k),
        None => TokenKind::Identifier,
    }
}

/// An identifier is a run of identifier characters ending at a boundary or
/// the end; anything else glued to it makes the run up to the next boundary
/// a malformed identifier.
pub open spec fn scan_ident(s: Seq<char>, i: int) -> (Lexeme, int) {
    let j = ident_run_end(s, i + 1);
    if j >= s.len() || boundary_char(s[j]) {
        (Lexeme::Token(word_kind(s.subrange(i, j))), j)
    } else {
        (Lexeme::Error(LexErrorKind::MalformedIdentifier), boundary_from(s, j))
    }
}

/// The keyword kind of a word, if it is one.
pub fn is_keyword(buf: &str) -> (r: Option<TokenKind>)
    ensures
        r == (match keyword_of(buf@) {
            Some(k) => Some(TokenKind::KeyWord(k)),
            None => None,
        }),
{
    if str_equals(buf, "char") { Some(TokenKind::KeyWord(KeyWords::Char)) }
    else if str_equals(buf, "int") { Some(TokenKind::KeyWord(KeyWords::Int)) }
    else if str_equals(buf, "float") { Some(TokenKind::KeyWord(KeyWords::Float)) }
    else if str_equals(buf, "break") { Some(TokenKind::KeyWord(KeyWords::Break)) }
    else if str_equals(buf, "const") { Some(TokenKind::KeyWord(KeyWords::Const)) }
    else if str_equals(buf, "return") { Some(TokenKind::KeyWord(KeyWords::Return)) }
    else if str_equals(buf, "void") { Some(TokenKind::KeyWord(KeyWords::Void)) }
    else if str_equals(buf, "continue") { Some(TokenKind::KeyWord(KeyWords::Continue)) }
    else if str_equals(buf, "do") { Some(TokenKind::KeyWord(KeyWords::Do)) }
    else if str_equals(buf, "while") { Some(TokenKind::KeyWord(KeyWords::While)) }
    else if str_equals(buf, "if") { Some(TokenKind::KeyWord(KeyWords::If)) }
    else if str_equals(buf, "else") { Some(TokenKind::KeyWord(KeyWords::Else)) }
    else if str_equals(buf, "for") { Some(TokenKind::KeyWord(KeyWords::For)) }
    else { None }
}

fn ident(s: &Vec<char>, i: usize) -> (r: (Lexeme, usize))
    requires
        s@.len() < usize::MAX,
        i < s@.len(),
    ensures
        (r.0, r.1 as int) == scan_ident(s@, i as int),
{
    let mut k = i + 1;
    while k < s.len() && is_id_continue(s[k])
        invariant
            i + 1 <= k <= s@.len(),
            ident_run_end(s@, k as int) == ident_run_end(s@, i + 1),
        decreases s@.len() - k,
    {
        k = k + 1;
    }
    if k >= s.len() || is_whitespace_or_operator_or_delimiter(s[k]) {
        let word = string_of_range(s, i, k);
        match is_keyword(word.as_str()) {
            Some(kind) => (Lexeme::Token(kind), k),
            None => (Lexeme::Token(TokenKind::Identifier), k),
        }
    } else {
        (Lexeme::Error(LexErrorKind::MalformedIdentifier), skip_to_boundary(s, k))
    }
}

// ---------------------------------------------------------------------------
// Numeric literals
// ---------------------------------------------------------------------------

/// The states of the numeric-literal automaton.
#[derive(Clone, Copy, Debug, PartialEq, Eq, Structural)]
pub enum NumState {
    /// a lone leading `0`
    Zero,
    /// `0[1-7]+`
    Octal,
    /// `0x`, waiting for a hex digit
    HexStart,
    /// `0x[0-9a-fA-F]+`
    Hex,
    /// `0b`, waiting for a binary digit
    BinStart,
    /// `0b[01]+`
    Bin,
    /// `[1-9][0-9]*`
    Decimal,
    /// a decimal point, waiting for a digit
    FracStart,
    /// digits after the decimal point
    Frac,
    /// `e` or `E`, waiting for a sign or a digit
    ExpStart,
    /// the exponent's sign, waiting for a digit
    ExpSign,
    /// digits of the exponent
    Exp,
}

pub open spec fn hex_digit_char(c: char) -> bool {
    digit_char(c) || ('a' <= c && c <= 'f') || ('A' <= c && c <= 'F')
}

/// The transition table of the numeric-literal automaton.
pub open spec fn number_step(st: NumState, c: char) -> Option<NumState> {
    match st {
        NumState::Zero => if '1' <= c && c <= '7' {
            Some(NumState::Octal)
        } else if c == 'x' || c == 'X' {
            Some(NumState::HexStart)
        } else if c == 'b' || c == 'B' {
            Some(NumState::BinStart)
        } else if c == '.' {
            Some(NumState::FracStart)
        } else {
            None
        },
        NumState::Octal => if '1' <= c && c <= '7' { Some(NumState::Octal) } else { None },
        NumState::HexStart | NumState::Hex => if hex_digit_char(c) {
            Some(NumState::Hex)
        } else {
            None
        },
        NumState::BinStart | NumState::Bin => if c == '0' || c == '1' {
            Some(NumState::Bin)
        } else {
            None
        },
        NumState::Decimal => if digit_char(c) {
            Some(NumState::Decimal)
        } else if c == '.' {
            Some(NumState::FracStart)
        } else if c == 'e' || c == 'E' {
            Some(NumState::ExpStart)
        } else {
            None
        },
        NumState::FracStart => if digit_char(c) { Some(NumState::Frac) } else { None },
        NumState::Frac => if digit_char(c) {
            Some(NumState::Frac)
        } else if c == 'e' || c == 'E' {
            Some(NumState::ExpStart)
        } else {
            None
        },
        NumState::ExpStart => if digit_char(c) {
            Some(NumState::Exp)
        } else if c == '+' || c == '-' {
            Some(NumState::ExpSign)
        } else {
            None
        },
        NumState::ExpSign | NumState::Exp => if digit_char(c) { Some(NumState::Exp) } else { None },
    }
}

/// The literal subtype of each accepting state.
pub open spec fn number_accepts(st: NumState) -> Option<Numbers> {
    match st {
        NumState::Zero | NumState::Octal | NumState::Hex | NumState::Bin | NumState::Decimal => Some(
            Numbers::Integer,
        ),
        NumState::Frac => Some(Numbers::Float),
        NumState::Exp => Some(Numbers::Exponent),
        _ => None,
    }
}

/// Runs the automaton from state `st` at index `i` while the next character extends the literal.
pub open spec fn number_run(s: Seq<char>, i: int, st: NumState) -> (int, NumState)
    decreases s.len() - i,
{
    if i < s.len() && number_step(st, s[i]) is Some {
        number_run(s, i + 1, number_step(st, s[i])->0)
    } else {
        (i, st)
    }
}

pub open spec fn number_start(c: char) -> NumState {
    if c == '0' {
        NumState::Zero
    } else {
        NumState::Decimal
    }
}

/// A numeric literal ends where the automaton stops; it is well formed when
/// it stops in an accepting state at a boundary or the end.
pub open spec fn scan_number(s: Seq<char>, i: int) -> (Lexeme, int) {
    let run = number_run(s, i + 1, number_start(s[i]));
    let j = run.0;
    if j >= s.len() || boundary_char(s[j]) {
        match number_accepts(run.1) {
            Some(n) => (Lexeme::Token(TokenKind::Number(n)), j),
            None => (Lexeme::Error(LexErrorKind::MalformedNumber), j),
        }
    } else {
        (Lexeme::Error(LexErrorKind::MalformedNumber), boundary_from(s, j))
    }
}

fn next_number_state(st: NumState, c: char) -> (r: Option<NumState>)
    ensures
        r == number_step(st, c),
{
    match st {
        NumState::Zero => if '1' <= c && c <= '7' {
            Some(NumState::Octal)
        } else if c == 'x' || c == 'X' {
            Some(NumState::HexStart)
        } else if c == 'b' || c == 'B' {
            Some(NumState::BinStart)
        } else if c == '.' {
            Some(NumState::FracStart)
        } else {
            None
        },
        NumState::Octal => if '1' <= c && c <= '7' { Some(NumState::Octal) } else { None },
        NumState::HexStart | NumState::Hex => if is_number(c) || ('a' <= c && c <= 'f') || (
        'A' <= c && c <= 'F') {
            Some(NumState::Hex)
        } else {
            None
        },
        NumState::BinStart | NumState::Bin => if c == '0' || c == '1' {
            Some(NumState::Bin)
        } else {
            None
        },
        NumState::Decimal => if is_number(c) {
            Some(NumState::Decimal)
        } else if c == '.' {
            Some(NumState::FracStart)
        } else if c == 'e' || c == 'E' {
            Some(NumState::ExpStart)
        } else {
            None
        },
        NumState::FracStart => if is_number(c) { Some(NumState::Frac) } else { None },
        NumState::Frac => if is_number(c) {
            Some(NumState::Frac)
        } else if c == 'e' || c == 'E' {
            Some(NumState::ExpStart)
        } else {
            None
        },
        NumState::ExpStart => if is_number(c) {
            Some(NumState::Exp)
        } else if c == '+' || c == '-' {
            Some(NumState::ExpSign)
        } else {
            None
        },
        NumState::ExpSign | NumState::Exp => if is_number(c) { Some(NumState::Exp) } else { None },
    }
}

fn number_kind(st: NumState) -> (r: Option<Numbers>)
    ensures
        r == number_accepts(st),
{
    match st {
        NumState::Zero | NumState::Octal | NumState::Hex | NumState::Bin | NumState::Decimal => Some(
            Numbers::Integer,
        ),
        NumState::Frac => Some(Numbers::Float),
        NumState::Exp => Some(Numbers::Exponent),
        _ => None,
    }
}

fn number(s: &Vec<char>, i: usize) -> (r: (Lexeme, usize))
    requires
        s@.len() < usize::MAX,
        i < s@.len(),
    ensures
        (r.0, r.1 as int) == scan_number(s@, i as int),
{
    let start = if s[i] == '0' { NumState::Zero } else { NumState::Decimal };
    let mut st = start;
    let mut k = i + 1;
    while k < s.len() && next_number_state(st, s[k]).is_some()
        invariant
            i + 1 <= k <= s@.len(),
            number_run(s@, k as int, st) == number_run(s@, i + 1, number_start(s@[i as int])),
        decreases s@.len() - k,
    {
        st = next_number_state(st, s[k]).unwrap();
        k = k + 1;
    }
    assert(start == number_start(s@[i as int]));
    if k >= s.len() || is_whitespace_or_operator_or_delimiter(s[k]) {
        match number_kind(st) {
            Some(n) => (Lexeme::Token(TokenKind::Number(n)), k),
            None => (Lexeme::Error(LexErrorKind::MalformedNumber), k),
        }
    } else {
        (Lexeme::Error(LexErrorKind::MalformedNumber), skip_to_boundary(s, k))
    }
}

// ---------------------------------------------------------------------------
// Character and string literals
// ---------------------------------------------------------------------------

/// A character literal is a quote, one raw character or a backslash and an
/// escape code, and a closing quote; it stops where it first goes wrong.
pub open spec fn scan_character(s: Seq<char>, i: int) -> (Lexeme, int) {
    let bad = Lexeme::Error(LexErrorKind::MalformedCharacter);
    if i + 1 >= s.len() || s[i + 1] == '\'' {
        (bad, i + 1)
    } else if s[i + 1] == '\\' {
        if i + 2 >= s.len() || !escape_char(s[i + 2]) {
            (bad, i + 2)
        } else if i + 3 < s.len() && s[i + 3] == '\'' {
            (Lexeme::Token(TokenKind::Character), i + 4)
        } else {
            (bad, i + 3)
        }
    } else if i + 2 < s.len() && s[i + 2] == '\'' {
        (Lexeme::Token(TokenKind::Character), i + 3)
    } else {
        (bad, i + 2)
    }
}

/// The rest of a string literal from index `k`, just after its opening quote
/// or after an earlier character or escape of it.
pub open spec fn scan_string_from(s: Seq<char>, k: int) -> (Lexeme, int)
    decreases s.len() - k,
{
    if k >= s.len() {
        (Lexeme::Error(LexErrorKind::UnterminatedString), s.len() as int)
    } else if s[k] == '"' {
        (Lexeme::Token(TokenKind::String), k + 1)
    } else if s[k] == '\n' {
        (Lexeme::Error(LexErrorKind::UnterminatedString), k)
    } else if s[k] == '\\' {
        if k + 1 >= s.len() {
            (Lexeme::Error(LexErrorKind::UnterminatedString), s.len() as int)
        } else if escape_char(s[k + 1]) || s[k + 1] == '\n' {
            scan_string_from(s, k + 2)
        } else {
            (Lexeme::Error(LexErrorKind::MalformedString), k + 1)
        }
    } else {
        scan_string_from(s, k + 1)
    }
}

pub open spec fn scan_string(s: Seq<char>, i: int) -> (Lexeme, int) {
    scan_string_from(s, i + 1)
}

/// A string token's text: its source text without the newlines that a
/// backslash escapes to continue the string onto the next line.
pub open spec fn strip_continuations(w: Seq<char>) -> Seq<char>
    decreases w.len(),
{
    if w.len() == 0 {
        w
    } else if w.len() >= 2 && w[0] == '\\' {
        if w[1] == '\n' {
            seq![w[0]] + strip_continuations(w.subrange(2, w.len() as int))
        } else {
            w.subrange(0, 2) + strip_continuations(w.subrange(2, w.len() as int))
        }
    } else {
        seq![w[0]] + strip_continuations(w.subrange(1, w.len() as int))
    }
}

fn character(s: &Vec<char>, i: usize) -> (r: (Lexeme, usize))
    requires
        s@.len() < usize::MAX,
        i < s@.len(),
    ensures
        (r.0, r.1 as int) == scan_character(s@, i as int),
{
    let bad = Lexeme::Error(LexErrorKind::MalformedCharacter);
    if i + 1 >= s.len() || s[i + 1] == '\'' {
        (bad, i + 1)
    } else if s[i + 1] == '\\' {
        if i + 2 >= s.len() || !is_escape(s[i + 2]) {
            (bad, i + 2)
        } else if i + 3 < s.len() && s[i + 3] == '\'' {
            (Lexeme::Token(TokenKind::Character), i + 4)
        } else {
            (bad, i + 3)
        }
    } else if i + 2 < s.len() && s[i + 2] == '\'' {
        (Lexeme::Token(TokenKind::Character), i + 3)
    } else {
        (bad, i + 2)
    }
}

fn string(s: &Vec<char>, i: usize) -> (r: (Lexeme, usize))
    requires
        s@.len() < usize::MAX,
        i < s@.len(),
    ensures
        (r.0, r.1 as int) == scan_string(s@, i as int),
{
    let mut k = i + 1;
    loop
        invariant
            s@.len() < usize::MAX,
            i + 1 <= k <= s@.len(),
            scan_string_from(s@, k as int) == scan_string_from(s@, i + 1),
        decreases s@.len() - k,
    {
        if k >= s.len() {
            return (Lexeme::Error(LexErrorKind::UnterminatedString), s.len());
        }
        let c = s[k];
        if c == '"' {
            return (Lexeme::Token(TokenKind::String), k + 1);
        } else if c == '\n' {
            return (Lexeme::Error(LexErrorKind::UnterminatedString), k);
        } else if c == '\\' {
            if k + 1 >= s.len() {
                return (Lexeme::Error(LexErrorKind::UnterminatedString), s.len());
            }
            let d = s[k + 1];
            if is_escape(d) || d == '\n' {
                k = k + 2;
            } else {
                return (Lexeme::Error(LexErrorKind::MalformedString), k + 1);
            }
        } else {
            k = k + 1;
        }
    }
}

/// The text of `s[from..to]` without the newlines that a backslash escapes.
fn string_value(s: &Vec<char>, from: usize, to: usize) -> (r: String)
    requires
        from <= to <= s@.len(),
    ensures
        r@ == strip_continuations(s@.subrange(from as int, to as int)),
{
    let mut out = String::new();
    let mut k = from;
    while k < to
        invariant
            from <= k <= to <= s@.len(),
            out@ + strip_continuations(s@.subrange(k as int, to as int))
                == strip_continuations(s@.subrange(from as int, to as int)),
        decreases to - k,
    {
        let ghost w = s@.subrange(k as int, to as int);
        let ghost prev = out@;
        if s[k] == '\\' && k + 1 < to {
            let ghost rest = s@.subrange(k + 2, to as int);
            assert(w.subrange(2, w.len() as int) =~= rest);
            if s[k + 1] == '\n' {
                push_char(&mut out, s[k]);
                assert(out@ + strip_continuations(rest) =~= prev + (seq![w[0]]
                    + strip_continuations(rest)));
                k = k + 2;
            } else {
                push_char(&mut out, s[k]);
                push_char(&mut out, s[k + 1]);
                assert(out@ =~= prev + w.subrange(0, 2));
                assert(out@ + strip_continuations(rest) =~= prev + (w.subrange(0, 2)
                    + strip_continuations(rest)));
                k = k + 2;
            }
        } else {
            let ghost rest = s@.subrange(k + 1, to as int);
            assert(w.subrange(1, w.len() as int) =~= rest);
            push_char(&mut out, s[k]);
            assert(out@ + strip_continuations(rest) =~= prev + (seq![w[0]]
                + strip_continuations(rest)));
            k = k + 1;
        }
    }
    assert(s@.subrange(to as int, to as int).len() == 0);
    out
}

// ---------------------------------------------------------------------------
// Operators and delimiters
// ---------------------------------------------------------------------------

/// One-character operators.
pub open spec fn operator1(a: char) -> Option<TokenKind> {
    match a {
        '+' => Some(TokenKind::Operator(Operators::Add)),
        '-' => Some(TokenKind::Operator(Operators::Sub)),
        '*' => Some(TokenKind::Operator(Operators::Mul)),
        '/' => Some(TokenKind::Operator(Operators::Div)),
        '%' => Some(TokenKind::Operator(Operators::Mod)),
        '>' => Some(TokenKind::Operator(Operators::Grt)),
        '<' => Some(TokenKind::Operator(Operators::Les)),
        '&' => Some(TokenKind::Operator(Operators::And)),
        '|' => Some(TokenKind::Operator(Operators::Or)),
        '!' => Some(TokenKind::Operator(Operators::Not)),
        '^' => Some(TokenKind::Operator(Operators::Xor)),
        '?' => Some(TokenKind::Operator(Operators::Question)),
        '=' => Some(TokenKind::Operator(Operators::Eq)),
        '(' => Some(TokenKind::OpenParen),
        ')' => Some(TokenKind::CloseParen),
        '[' => Some(TokenKind::Operator(Operators::OpenBracket)),
        ']' => Some(TokenKind::Operator(Operators::CloseBracket)),
        _ => None,
    }
}

/// Two-character operators.
pub open spec fn operator2(a: char, b: char) -> Option<TokenKind> {
    match (a, b) {
        ('+', '+') => Some(TokenKind::Operator(Operators::DoubleAdd)),
        ('+', '=') => Some(TokenKind::Operator(Operators::AddEqual)),
        ('-', '-') => Some(TokenKind::Operator(Operators::DoubleMinus)),
        ('-', '=') => Some(TokenKind::Operator(Operators::MinusEqual)),
        ('*', '=') => Some(TokenKind::Operator(Operators::MulEqual)),
        ('/', '=') => Some(TokenKind::Operator(Operators::DivisionEqual)),
        ('%', '=') => Some(TokenKind::Operator(Operators::PercentEqual)),
        ('>', '>') => Some(TokenKind::Operator(Operators::DoubleGreater)),
        ('>', '=') => Some(TokenKind::Operator(Operators::GrtEq)),
        ('<', '<') => Some(TokenKind::Operator(Operators::DoubleLess)),
        ('<', '=') => Some(TokenKind::Operator(Operators::LesEq)),
        ('&', '&') => Some(TokenKind::Operator(Operators::LAnd)),
        ('&', '=') => Some(TokenKind::Operator(Operators::AndEqual)),
        ('|', '|') => Some(TokenKind::Operator(Operators::LOr)),
        ('|', '=') => Some(TokenKind::Operator(Operators::OrEqual)),
        ('!', '=') => Some(TokenKind::Operator(Operators::NotEq)),
        ('^', '=') => Some(TokenKind::Operator(Operators::XorEqual)),
        ('=', '=') => Some(TokenKind::Operator(Operators::LEq)),
        _ => None,
    }
}

/// Three-character operators.
pub open spec fn operator3(a: char, b: char, c: char) -> Option<TokenKind> {
    match (a, b, c) {
        ('>', '>', '=') => Some(TokenKind::Operator(Operators::DoubleGreaterEqual)),
        ('<', '<', '=') => Some(TokenKind::Operator(Operators::DoubleLessEqual)),
        _ => None,
    }
}

/// Maximal munch: the longest operator spelled by the characters at `i`.
/// Every three-character operator extends a two-character one and every
/// two-character one a one-character one, so one character of lookahead at
/// a time decides it.
pub open spec fn scan_operator(s: Seq<char>, i: int) -> (Lexeme, int) {
    let a = s[i];
    let b = char_at(s, i + 1);
    let c = char_at(s, i + 2);
    match operator2(a, b) {
        Some(two) => match operator3(a, b, c) {
            Some(three) => (Lexeme::Token(three), i + 3),
            None => (Lexeme::Token(two), i + 2),
        },
        None => (Lexeme::Token(operator1(a)->0), i + 1),
    }
}

pub open spec fn delimiter_kind(c: char) -> TokenKind {
    if c == ';' {
        TokenKind::Semicolon
    } else if c == ',' {
        TokenKind::Comma
    } else if c == '{' {
        TokenKind::OpenBrace
    } else {
        TokenKind::CloseBrace
    }
}

pub open spec fn scan_delimiter(s: Seq<char>, i: int) -> (Lexeme, int) {
    (Lexeme::Token(delimiter_kind(s[i])), i + 1)
}

/// A character that starts no lexeme begins a run that ends at the next boundary.
pub open spec fn scan_unknown(s: Seq<char>, i: int) -> (Lexeme, int) {
    (Lexeme::Error(LexErrorKind::UnknownCharacters), boundary_from(s, i + 1))
}

fn single_operator(a: char) -> (r: Option<TokenKind>)
    ensures
        r == operator1(a),
{
    match a {
        '+' => Some(TokenKind::Operator(Operators::Add)),
        '-' => Some(TokenKind::Operator(Operators::Sub)),
        '*' => Some(TokenKind::Operator(Operators::Mul)),
        '/' => Some(TokenKind::Operator(Operators::Div)),
        '%' => Some(TokenKind::Operator(Operators::Mod)),
        '>' => Some(TokenKind::Operator(Operators::Grt)),
        '<' => Some(TokenKind::Operator(Operators::Les)),
        '&' => Some(TokenKind::Operator(Operators::And)),
        '|' => Some(TokenKind::Operator(Operators::Or)),
        '!' => Some(TokenKind::Operator(Operators::Not)),
        '^' => Some(TokenKind::Operator(Operators::Xor)),
        '?' => Some(TokenKind::Operator(Operators::Question)),
        '=' => Some(TokenKind::Operator(Operators::Eq)),
        '(' => Some(TokenKind::OpenParen),
        ')' => Some(TokenKind::CloseParen),
        '[' => Some(TokenKind::Operator(Operators::OpenBracket)),
        ']' => Some(TokenKind::Operator(Operators::CloseBracket)),
        _ => None,
    }
}

fn double_operator(a: char, b: char) -> (r: Option<TokenKind>)
    ensures
        r == operator2(a, b),
{
    match (a, b) {
        ('+', '+') => Some(TokenKind::Operator(Operators::DoubleAdd)),
        ('+', '=') => Some(TokenKind::Operator(Operators::AddEqual)),
        ('-', '-') => Some(TokenKind::Operator(Operators::DoubleMinus)),
        ('-', '=') => Some(TokenKind::Operator(Operators::MinusEqual)),
        ('*', '=') => Some(TokenKind::Operator(Operators::MulEqual)),
        ('/', '=') => Some(TokenKind::Operator(Operators::DivisionEqual)),
        ('%', '=') => Some(TokenKind::Operator(Operators::PercentEqual)),
        ('>', '>') => Some(TokenKind::Operator(Operators::DoubleGreater)),
        ('>', '=') => Some(TokenKind::Operator(Operators::GrtEq)),
        ('<', '<') => Some(TokenKind::Operator(Operators::DoubleLess)),
        ('<', '=') => Some(TokenKind::Operator(Operators::LesEq)),
        ('&', '&') => Some(TokenKind::Operator(Operators::LAnd)),
        ('&', '=') => Some(TokenKind::Operator(Operators::AndEqual)),
        ('|', '|') => Some(TokenKind::Operator(Operators::LOr)),
        ('|', '=') => Some(TokenKind::Operator(Operators::OrEqual)),
        ('!', '=') => Some(TokenKind::Operator(Operators::NotEq)),
        ('^', '=') => Some(TokenKind::Operator(Operators::XorEqual)),
        ('=', '=') => Some(TokenKind::Operator(Operators::LEq)),
        _ => None,
    }
}

fn triple_operator(a: char, b: char, c: char) -> (r: Option<TokenKind>)
    ensures
        r == operator3(a, b, c),
{
    match (a, b, c) {
        ('>', '>', '=') => Some(TokenKind::Operator(Operators::DoubleGreaterEqual)),
        ('<', '<', '=') => Some(TokenKind::Operator(Operators::DoubleLessEqual)),
        _ => None,
    }
}

fn operator(s: &Vec<char>, i: usize) -> (r: (Lexeme, usize))
    requires
        s@.len() < usize::MAX,
        i < s@.len(),
        operator1(s@[i as int]) is Some,
    ensures
        (r.0, r.1 as int) == scan_operator(s@, i as int),
{
    let a = s[i];
    let b = get(s, i + 1);
    match double_operator(a, b) {
        Some(two) => {
            let c = if i + 1 < s.len() { get(s, i + 2) } else { '\0' };
            match triple_operator(a, b, c) {
                Some(three) => (Lexeme::Token(three), i + 3),
                None => (Lexeme::Token(two), i + 2),
            }
        },
        None => (Lexeme::Token(single_operator(a).unwrap()), i + 1),
    }
}

fn delimiter(s: &Vec<char>, i: usize) -> (r: (Lexeme, usize))
    requires
        s@.len() < usize::MAX,
        i < s@.len(),
    ensures
        (r.0, r.1 as int) == scan_delimiter(s@, i as int),
{
    let c = s[i];
    let kind = if c == ';' {
        TokenKind::Semicolon
    } else if c == ',' {
        TokenKind::Comma
    } else if c == '{' {
        TokenKind::OpenBrace
    } else {
        TokenKind::CloseBrace
    };
    (Lexeme::Token(kind), i + 1)
}

fn unknown(s: &Vec<char>, i: usize) -> (r: (Lexeme, usize))
    requires
        s@.len() < usize::MAX,
        i < s@.len(),
    ensures
        (r.0, r.1 as int) == scan_unknown(s@, i as int),
{
    (Lexeme::Error(LexErrorKind::UnknownCharacters), skip_to_boundary(s, i + 1))
}

// ---------------------------------------------------------------------------
// One scanning step
// ---------------------------------------------------------------------------

/// What the scanner recognises at index `i` of `s`, and where it stops.
/// The current character and the next one choose the lexeme family.
pub open spec fn lex(s: Seq<char>, i: int) -> (Lexeme, int) {
    if i < 0 || i >= s.len() {
        (Lexeme::Error(LexErrorKind::EndOfInput), i)
    } else {
        let c = s[i];
        let d = char_at(s, i + 1);
        if c == '/' && d == '/' {
            scan_line_comment(s, i)
        } else if c == '/' && d == '*' {
            scan_block_comment(s, i)
        } else if whitespace_char(c) {
            scan_whitespace(s, i)
        } else if id_start_char(c) {
            scan_ident(s, i)
        } else if digit_char(c) {
            scan_number(s, i)
        } else if c == '\'' {
            scan_character(s, i)
        } else if c == '"' {
            scan_string(s, i)
        } else if operator1(c) is Some {
            scan_operator(s, i)
        } else if delimiter_char(c) {
            scan_delimiter(s, i)
        } else {
            scan_unknown(s, i)
        }
    }
}

/// The text a token carries: the characters it spans, except that a string
/// literal drops the newlines of its line continuations.
pub open spec fn lexeme_text(s: Seq<char>, i: int, step: (Lexeme, int)) -> Seq<char> {
    if step.0 == Lexeme::Token(TokenKind::String) {
        strip_continuations(s.subrange(i, step.1))
    } else {
        s.subrange(i, step.1)
    }
}

/// Recognises the lexeme at index `i` of `s`.
pub fn scan(s: &Vec<char>, i: usize) -> (r: (Lexeme, usize))
    requires
        s@.len() < usize::MAX,
        i < s@.len(),
    ensures
        (r.0, r.1 as int) == lex(s@, i as int),
{
    let c = s[i];
    let d = get(s, i + 1);
    if c == '/' && d == '/' {
        line_comment(s, i)
    } else if c == '/' && d == '*' {
        block_comment(s, i)
    } else if is_whitespace(c) {
        whitespace(s, i)
    } else if is_id_start(c) {
        ident(s, i)
    } else if is_number(c) {
        number(s, i)
    } else if c == '\'' {
        character(s, i)
    } else if c == '"' {
        string(s, i)
    } else if single_operator(c).is_some() {
        operator(s, i)
    } else if is_delimiter(c) {
        delimiter(s, i)
    } else {
        unknown(s, i)
    }
}

/// The text that the token recognised at `i` carries.
pub fn token_text(s: &Vec<char>, i: usize, step: (Lexeme, usize)) -> (r: String)
    requires
        i <= step.1 <= s@.len(),
    ensures
        r@ == lexeme_text(s@, i as int, (step.0, step.1 as int)),
{
    if step.0 == Lexeme::Token(TokenKind::String) {
        string_value(s, i, step.1)
    } else {
        string_of_range(s, i, step.1)
    }
}

proof fn lemma_number_run_bounds(s: Seq<char>, i: int, st: NumState)
    requires
        0 <= i <= s.len(),
    ensures
        i <= number_run(s, i, st).0 <= s.len(),
    decreases s.len() - i,
{
    if i < s.len() && number_step(st, s[i]) is Some {
        lemma_number_run_bounds(s, i + 1, number_step(st, s[i])->0);
    }
}

proof fn lemma_string_bounds(s: Seq<char>, k: int)
    requires
        1 <= k <= s.len(),
    ensures
        k <= scan_string_from(s, k).1 <= s.len(),
    decreases s.len() - k,
{
    if k < s.len() && s[k] != '"' && s[k] != '\n' {
        if s[k] == '\\' {
            if k + 1 < s.len() && (escape_char(s[k + 1]) || s[k + 1] == '\n') {
                lemma_string_bounds(s, k + 2);
            }
        } else {
            lemma_string_bounds(s, k + 1);
        }
    }
}

/// Each step at a position inside the input consumes at least one
/// character and stays within the input.
pub proof fn lemma_lex_progress(s: Seq<char>, i: int)
    requires
        0 <= i < s.len(),
    ensures
        i < lex(s, i).1 <= s.len(),
{
    let c = s[i];
    let d = char_at(s, i + 1);
    lemma_boundary_from_bounds(s, i + 1);
    lemma_whitespace_run_bounds(s, i + 1);
    lemma_ident_run_bounds(s, i + 1);
    if c == '/' && (d == '/' || d == '*') {
        lemma_newline_from_bounds(s, i + 2);
        lemma_comment_close_bounds(s, i + 2);
    }
    if digit_char(c) {
        lemma_number_run_bounds(s, i + 1, number_start(c));
        let j = number_run(s, i + 1, number_start(c)).0;
        lemma_boundary_from_bounds(s, j);
    }
    if id_start_char(c) {
        let j = ident_run_end(s, i + 1);
        lemma_boundary_from_bounds(s, j);
    }
    if c == '"' {
        lemma_string_bounds(s, i + 1);
    }
}

// ---------------------------------------------------------------------------
// Laws of scanning
// ---------------------------------------------------------------------------

/// The texts of the lexemes recognised from index `i` to the end, in order,
/// each step starting where the previous one stopped.
pub open spec fn lexeme_texts(s: Seq<char>, i: int) -> Seq<Seq<char>>
    decreases s.len() - i,
{
    if i < 0 || i >= s.len() {
        seq![]
    } else {
        let step = lex(s, i);
        if step.1 <= i || step.1 > s.len() {
            seq![]
        } else {
            seq![lexeme_text(s, i, step)] + lexeme_texts(s, step.1)
        }
    }
}

/// No string literal recognised from index `i` on is continued onto a
/// further line with an escaped newline.
pub open spec fn no_continued_strings(s: Seq<char>, i: int) -> bool
    decreases s.len() - i,
{
    if i < 0 || i >= s.len() {
        true
    } else {
        let step = lex(s, i);
        if step.1 <= i || step.1 > s.len() {
            true
        } else {
            &&& (step.0 == Lexeme::Token(TokenKind::String) ==> lexeme_text(s, i, step)
                == s.subrange(i, step.1))
            &&& no_continued_strings(s, step.1)
        }
    }
}

/// Scanning repeatedly from index `i` to the end consumes every character
/// exactly once: the texts of the tokens and errors, joined in order, are
/// the input from `i` on. A string literal continued onto a further line
/// drops the escaped newline from its text, so such strings are left out.
pub proof fn lemma_scan_consumes_input(s: Seq<char>, i: int)
    requires
        0 <= i <= s.len(),
        no_continued_strings(s, i),
    ensures
        lexeme_texts(s, i).flatten() == s.subrange(i, s.len() as int),
    decreases s.len() - i,
{
    if i == s.len() {
        assert(s.subrange(i, s.len() as int) =~= Seq::<char>::empty());
    } else {
        let step = lex(s, i);
        lemma_lex_progress(s, i);
        lemma_scan_consumes_input(s, step.1);
        let head = lexeme_text(s, i, step);
        let rest = lexeme_texts(s, step.1);
        assert(head == s.subrange(i, step.1));
        let all = seq![head] + rest;
        assert(all.first() == head);
        assert(all.drop_first() =~= rest);
        assert(s.subrange(i, s.len() as int) =~= s.subrange(i, step.1) + s.subrange(
            step.1,
            s.len() as int,
        ));
    }
}

/// Scanning a whole input consumes every character exactly once (see
/// `lemma_scan_consumes_input`).
pub proof fn lemma_scan_whole_input(s: Seq<char>)
    requires
        no_continued_strings(s, 0),
    ensures
        lexeme_texts(s, 0).flatten() == s,
{
    lemma_scan_consumes_input(s, 0);
    assert(s.subrange(0, s.len() as int) =~= s);
}

/// Maximal munch on shifts: `<<=` is one operator, and `<<` not followed
/// by `=` is one operator, never two `<` tokens.
pub proof fn lemma_shift_operators_munch(s: Seq<char>, i: int)
    requires
        0 <= i,
        i + 1 < s.len(),
        s[i] == '<',
        s[i + 1] == '<',
    ensures
        char_at(s, i + 2) == '=' ==> lex(s, i) == (Lexeme::Token(
            TokenKind::Operator(Operators::DoubleLessEqual),
        ), i + 3),
        char_at(s, i + 2) != '=' ==> lex(s, i) == (Lexeme::Token(
            TokenKind::Operator(Operators::DoubleLess),
        ), i + 2),
{
}

/// A numeric literal glued to letters is one malformed numeric literal that
/// runs to the next boundary, never a number followed by an identifier.
pub proof fn lemma_number_glued_to_letters(s: Seq<char>, i: int, j: int)
    requires
        0 <= i < j < s.len(),
        '1' <= s[i] <= '9',
        forall|k: int| i < k < j ==> digit_char(#[trigger] s[k]),
        'a' <= s[j] <= 'd' || 'f' <= s[j] <= 'z',
    ensures
        lex(s, i) == (Lexeme::Error(LexErrorKind::MalformedNumber), boundary_from(s, j)),
{
    assert forall|k: int| i < k <= j implies #[trigger] number_run(s, k, NumState::Decimal)
        == number_run(s, j, NumState::Decimal) by {
        lemma_decimal_run(s, k, j);
    }
}

proof fn lemma_decimal_run(s: Seq<char>, k: int, j: int)
    requires
        0 < k <= j < s.len(),
        forall|m: int| k <= m < j ==> digit_char(#[trigger] s[m]),
    ensures
        number_run(s, k, NumState::Decimal) == number_run(s, j, NumState::Decimal),
    decreases j - k,
{
    if k < j {
        lemma_decimal_run(s, k + 1, j);
    }
}

/// The runs of characters that the steps from index `i` to the end
/// consume, in order: a token's source text or an error's consumed run.
pub open spec fn consumed_runs(s: Seq<char>, i: int) -> Seq<Seq<char>>
    decreases s.len() - i,
{
    if i < 0 || i >= s.len() {
        seq![]
    } else {
        let step = lex(s, i);
        if step.1 <= i || step.1 > s.len() {
            seq![]
        } else {
            seq![s.subrange(i, step.1)] + consumed_runs(s, step.1)
        }
    }
}

/// Scanning repeatedly from index `i` to the end consumes every character
/// exactly once, in order: the consumed runs, joined, are the input from `i` on.
pub proof fn lemma_runs_cover_input(s: Seq<char>, i: int)
    requires
        0 <= i <= s.len(),
    ensures
        consumed_runs(s, i).flatten() == s.subrange(i, s.len() as int),
    decreases s.len() - i,
{
    if i == s.len() {
        assert(s.subrange(i, s.len() as int) =~= Seq::<char>::empty());
    } else {
        let step = lex(s, i);
        lemma_lex_progress(s, i);
        lemma_runs_cover_input(s, step.1);
        let head = s.subrange(i, step.1);
        let all = seq![head] + consumed_runs(s, step.1);
        assert(all.first() == head);
        assert(all.drop_first() =~= consumed_runs(s, step.1));
        assert(s.subrange(i, s.len() as int) =~= s.subrange(i, step.1) + s.subrange(
            step.1,
            s.len() as int,
        ));
    }
}

/// What a step hands back as text is the run it consumed, except that a
/// string token leaves out the newlines its backslashes escape.
pub proof fn lemma_text_is_run(s: Seq<char>, i: int)
    requires
        0 <= i < s.len(),
    ensures
        lex(s, i).0 != Lexeme::Token(TokenKind::String) ==> lexeme_text(s, i, lex(s, i)) == s.subrange(i, lex(s, i).1),
        lex(s, i).0 == Lexeme::Token(TokenKind::String) ==> lexeme_text(s, i, lex(s, i)) == strip_continuations(s.subrange(i, lex(s, i).1)),
{
}

/// Maximal munch for every operator: at an operator character that starts
/// no comment, the scanner returns one operator token whose spelling is the
/// consumed text, and no longer prefix of the input spells an operator.
pub proof fn lemma_operator_munch(s: Seq<char>, i: int)
    requires
        0 <= i < s.len(),
        operator1(s[i]) is Some,
        !(s[i] == '/' && (char_at(s, i + 1) == '/' || char_at(s, i + 1) == '*')),
    ensures
        ({
            let step = lex(s, i);
            let a = s[i];
            let b = char_at(s, i + 1);
            let c = char_at(s, i + 2);
            &&& i + 1 <= step.1 <= i + 3
            &&& step.1 <= s.len()
            &&& step.1 == i + 1 ==> step.0 == Lexeme::Token(operator1(a)->0) && operator2(a, b) is None
                && operator3(a, b, c) is None
            &&& step.1 == i + 2 ==> step.0 == Lexeme::Token(operator2(a, b)->0) && operator3(a, b, c) is None
            &&& step.1 == i + 3 ==> step.0 == Lexeme::Token(operator3(a, b, c)->0)
        }),
{
    let a = s[i];
    let b = char_at(s, i + 1);
    let c = char_at(s, i + 2);
    assert(!whitespace_char(a) && !id_start_char(a) && !digit_char(a) && a != '\'' && a != '"');
    assert(operator3(a, b, c) is Some ==> operator2(a, b) is Some);
    assert(operator2(a, b) is Some ==> i + 1 < s.len());
    assert(operator3(a, b, c) is Some ==> i + 2 < s.len());
}

} // verus!
