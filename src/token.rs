use vstd::prelude::*;

use crate::text::str_equals;

verus! {

/// A row/column location in the source text, both counted from 1.
#[derive(Clone, Copy, Debug, PartialEq, Eq, PartialOrd, Ord, Hash, Structural)]
pub struct Point {
    pub row: usize,
    pub col: usize,
}

impl Point {
    pub fn new(row: usize, col: usize) -> (p: Point)
        ensures
            p.row == row,
            p.col == col,
    {
        Point { row, col }
    }

    pub fn get_row(&self) -> (r: &usize)
        ensures
            *r == self.row,
    {
        &self.row
    }

    pub fn get_col(&self) -> (r: &usize)
        ensures
            *r == self.col,
    {
        &self.col
    }
}

#[derive(Clone, Copy, Debug, PartialEq, Eq, PartialOrd, Ord, Hash, Structural)]
pub enum KeyWords {
    Char,
    Int,
    Float,
    Break,
    Const,
    Return,
    Void,
    Continue,
    Do,
    While,
    If,
    Else,
    For,
}

/// The three families of numeric literal.
#[derive(Clone, Copy, Debug, PartialEq, Eq, PartialOrd, Ord, Hash, Structural)]
pub enum Numbers {
    Integer,
    Exponent,
    Float,
}

#[derive(Clone, Copy, Debug, PartialEq, Eq, PartialOrd, Ord, Hash, Structural)]
pub enum Operators {
    Add,
    AddEqual,
    And,
    AndEqual,
    DoubleAdd,
    DoubleGreater,
    DoubleGreaterEqual,
    DoubleLess,
    DoubleLessEqual,
    DoubleMinus,
    Div,
    DivisionEqual,
    Eq,
    Grt,
    GrtEq,
    Les,
    LesEq,
    LAnd,
    LEq,
    LOr,
    Sub,
    MinusEqual,
    Mul,
    MulEqual,
    Not,
    NotEq,
    Or,
    OrEqual,
    Mod,
    PercentEqual,
    Question,
    Xor,
    XorEqual,
    OpenBracket,
    CloseBracket,
}

/// What a terminal token is: the lexeme family and, where it has one, its subtype.
#[derive(Clone, Copy, Debug, PartialEq, Eq, PartialOrd, Ord, Hash, Structural)]
pub enum TokenKind {
    Comment,
    WhiteSpace,
    Identifier,
    KeyWord(KeyWords),
    Number(Numbers),
    Character,
    String,
    Operator(Operators),
    OpenParen,
    CloseParen,
    OpenBrace,
    CloseBrace,
    Semicolon,
    Comma,
    Empty,
    Unknown,
    Error,
    Start,
    End,
}

#[derive(Clone, Copy, Debug, PartialEq, Eq, PartialOrd, Ord, Hash, Structural)]
pub enum TokenType {
    Terminal(TokenKind),
    NotTerminal,
}

/// The token type that a grammar file's symbol name stands for; names that
/// are no known terminal are nonterminals.
pub open spec fn token_type_of_name(w: Seq<char>) -> TokenType {
    if w == "err"@ { TokenType::Terminal(TokenKind::Error) }
    else if w == "Ident"@ { TokenType::Terminal(TokenKind::Identifier) }
    else if w == "IntConst"@ { TokenType::Terminal(TokenKind::Number(Numbers::Integer)) }
    else if w == "FloatConst"@ { TokenType::Terminal(TokenKind::Number(Numbers::Float)) }
    else if w == "const"@ { TokenType::Terminal(TokenKind::KeyWord(KeyWords::Const)) }
    else if w == "int"@ { TokenType::Terminal(TokenKind::KeyWord(KeyWords::Int)) }
    else if w == "float"@ { TokenType::Terminal(TokenKind::KeyWord(KeyWords::Float)) }
    else if w == "void"@ { TokenType::Terminal(TokenKind::KeyWord(KeyWords::Void)) }
    else if w == "if"@ { TokenType::Terminal(TokenKind::KeyWord(KeyWords::If)) }
    else if w == "else"@ { TokenType::Terminal(TokenKind::KeyWord(KeyWords::Else)) }
    else if w == "while"@ { TokenType::Terminal(TokenKind::KeyWord(KeyWords::While)) }
    else if w == "break"@ { TokenType::Terminal(TokenKind::KeyWord(KeyWords::Break)) }
    else if w == "continue"@ { TokenType::Terminal(TokenKind::KeyWord(KeyWords::Continue)) }
    else if w == "return"@ { TokenType::Terminal(TokenKind::KeyWord(KeyWords::Return)) }
    else if w == "["@ { TokenType::Terminal(TokenKind::Operator(Operators::OpenBracket)) }
    else if w == "]"@ { TokenType::Terminal(TokenKind::Operator(Operators::CloseBracket)) }
    else if w == "="@ { TokenType::Terminal(TokenKind::Operator(Operators::Eq)) }
    else if w == "{"@ { TokenType::Terminal(TokenKind::OpenBrace) }
    else if w == "}"@ { TokenType::Terminal(TokenKind::CloseBrace) }
    else if w == ","@ { TokenType::Terminal(TokenKind::Comma) }
    else if w == ";"@ { TokenType::Terminal(TokenKind::Semicolon) }
    else if w == "("@ { TokenType::Terminal(TokenKind::OpenParen) }
    else if w == ")"@ { TokenType::Terminal(TokenKind::CloseParen) }
    else if w == "+"@ { TokenType::Terminal(TokenKind::Operator(Operators::Add)) }
    else if w == "-"@ { TokenType::Terminal(TokenKind::Operator(Operators::Sub)) }
    else if w == "*"@ { TokenType::Terminal(TokenKind::Operator(Operators::Mul)) }
    else if w == "/"@ { TokenType::Terminal(TokenKind::Operator(Operators::Div)) }
    else if w == "%"@ { TokenType::Terminal(TokenKind::Operator(Operators::Mod)) }
    else if w == "!"@ { TokenType::Terminal(TokenKind::Operator(Operators::Not)) }
    else if w == "<"@ { TokenType::Terminal(TokenKind::Operator(Operators::Les)) }
    else if w == ">"@ { TokenType::Terminal(TokenKind::Operator(Operators::Grt)) }
    else if w == "<="@ { TokenType::Terminal(TokenKind::Operator(Operators::LesEq)) }
    else if w == ">="@ { TokenType::Terminal(TokenKind::Operator(Operators::GrtEq)) }
    else if w == "=="@ { TokenType::Terminal(TokenKind::Operator(Operators::LEq)) }
    else if w == "&&"@ { TokenType::Terminal(TokenKind::Operator(Operators::LAnd)) }
    else if w == "||"@ { TokenType::Terminal(TokenKind::Operator(Operators::LOr)) }
    else if w == "ε"@ { TokenType::Terminal(TokenKind::Empty) }
    else if w == "#"@ { TokenType::Terminal(TokenKind::End) }
    else { TokenType::NotTerminal }
}

impl TokenType {
    /// Classifies a symbol name of a grammar file.
    pub fn from(s: &str) -> (r: TokenType)
        ensures
            r == token_type_of_name(s@),
    {
        if str_equals(s, "err") { TokenType::Terminal(TokenKind::Error) }
        else if str_equals(s, "Ident") { TokenType::Terminal(TokenKind::Identifier) }
        else if str_equals(s, "IntConst") { TokenType::Terminal(TokenKind::Number(Numbers::Integer)) }
        else if str_equals(s, "FloatConst") { TokenType::Terminal(TokenKind::Number(Numbers::Float)) }
        else if str_equals(s, "const") { TokenType::Terminal(TokenKind::KeyWord(KeyWords::Const)) }
        else if str_equals(s, "int") { TokenType::Terminal(TokenKind::KeyWord(KeyWords::Int)) }
        else if str_equals(s, "float") { TokenType::Terminal(TokenKind::KeyWord(KeyWords::Float)) }
        else if str_equals(s, "void") { TokenType::Terminal(TokenKind::KeyWord(KeyWords::Void)) }
        else if str_equals(s, "if") { TokenType::Terminal(TokenKind::KeyWord(KeyWords::If)) }
        else if str_equals(s, "else") { TokenType::Terminal(TokenKind::KeyWord(KeyWords::Else)) }
        else if str_equals(s, "while") { TokenType::Terminal(TokenKind::KeyWord(KeyWords::While)) }
        else if str_equals(s, "break") { TokenType::Terminal(TokenKind::KeyWord(KeyWords::Break)) }
        else if str_equals(s, "continue") { TokenType::Terminal(TokenKind::KeyWord(KeyWords::Continue)) }
        else if str_equals(s, "return") { TokenType::Terminal(TokenKind::KeyWord(KeyWords::Return)) }
        else if str_equals(s, "[") { TokenType::Terminal(TokenKind::Operator(Operators::OpenBracket)) }
        else if str_equals(s, "]") { TokenType::Terminal(TokenKind::Operator(Operators::CloseBracket)) }
        else if str_equals(s, "=") { TokenType::Terminal(TokenKind::Operator(Operators::Eq)) }
        else if str_equals(s, "{") { TokenType::Terminal(TokenKind::OpenBrace) }
        else if str_equals(s, "}") { TokenType::Terminal(TokenKind::CloseBrace) }
        else if str_equals(s, ",") { TokenType::Terminal(TokenKind::Comma) }
        else if str_equals(s, ";") { TokenType::Terminal(TokenKind::Semicolon) }
        else if str_equals(s, "(") { TokenType::Terminal(TokenKind::OpenParen) }
        else if str_equals(s, ")") { TokenType::Terminal(TokenKind::CloseParen) }
        else if str_equals(s, "+") { TokenType::Terminal(TokenKind::Operator(Operators::Add)) }
        else if str_equals(s, "-") { TokenType::Terminal(TokenKind::Operator(Operators::Sub)) }
        else if str_equals(s, "*") { TokenType::Terminal(TokenKind::Operator(Operators::Mul)) }
        else if str_equals(s, "/") { TokenType::Terminal(TokenKind::Operator(Operators::Div)) }
        else if str_equals(s, "%") { TokenType::Terminal(TokenKind::Operator(Operators::Mod)) }
        else if str_equals(s, "!") { TokenType::Terminal(TokenKind::Operator(Operators::Not)) }
        else if str_equals(s, "<") { TokenType::Terminal(TokenKind::Operator(Operators::Les)) }
        else if str_equals(s, ">") { TokenType::Terminal(TokenKind::Operator(Operators::Grt)) }
        else if str_equals(s, "<=") { TokenType::Terminal(TokenKind::Operator(Operators::LesEq)) }
        else if str_equals(s, ">=") { TokenType::Terminal(TokenKind::Operator(Operators::GrtEq)) }
        else if str_equals(s, "==") { TokenType::Terminal(TokenKind::Operator(Operators::LEq)) }
        else if str_equals(s, "&&") { TokenType::Terminal(TokenKind::Operator(Operators::LAnd)) }
        else if str_equals(s, "||") { TokenType::Terminal(TokenKind::Operator(Operators::LOr)) }
        else if str_equals(s, "ε") { TokenType::Terminal(TokenKind::Empty) }
        else if str_equals(s, "#") { TokenType::Terminal(TokenKind::End) }
        else { TokenType::NotTerminal }
    }
}

/// The name under which a grammar file refers to a token kind; kinds that
/// no grammar names are `Unknown`.
pub open spec fn kind_name(k: TokenKind) -> Seq<char> {
    match k {
        TokenKind::Error => "Err"@,
        TokenKind::Identifier => "Ident"@,
        TokenKind::Number(Numbers::Integer) => "IntConst"@,
        TokenKind::Number(Numbers::Float) => "FloatConst"@,
        TokenKind::KeyWord(KeyWords::Const) => "const"@,
        TokenKind::KeyWord(KeyWords::Int) => "int"@,
        TokenKind::KeyWord(KeyWords::Float) => "float"@,
        TokenKind::KeyWord(KeyWords::Void) => "void"@,
        TokenKind::KeyWord(KeyWords::If) => "if"@,
        TokenKind::KeyWord(KeyWords::Else) => "else"@,
        TokenKind::KeyWord(KeyWords::While) => "while"@,
        TokenKind::KeyWord(KeyWords::Break) => "break"@,
        TokenKind::KeyWord(KeyWords::Continue) => "continue"@,
        TokenKind::KeyWord(KeyWords::Return) => "return"@,
        TokenKind::OpenParen => "("@,
        TokenKind::CloseParen => ")"@,
        TokenKind::OpenBrace => "{"@,
        TokenKind::CloseBrace => "}"@,
        TokenKind::Semicolon => ";"@,
        TokenKind::Comma => ","@,
        TokenKind::Operator(Operators::OpenBracket) => "["@,
        TokenKind::Operator(Operators::CloseBracket) => "]"@,
        TokenKind::Operator(Operators::Add) => "+"@,
        TokenKind::Operator(Operators::Sub) => "-"@,
        TokenKind::Operator(Operators::Mul) => "*"@,
        TokenKind::Operator(Operators::Div) => "/"@,
        TokenKind::Operator(Operators::Mod) => "%"@,
        TokenKind::Operator(Operators::Not) => "!"@,
        TokenKind::Operator(Operators::Les) => "<"@,
        TokenKind::Operator(Operators::Grt) => ">"@,
        TokenKind::Operator(Operators::LesEq) => "<="@,
        TokenKind::Operator(Operators::GrtEq) => ">="@,
        TokenKind::Operator(Operators::LEq) => "=="@,
        TokenKind::Operator(Operators::NotEq) => "!="@,
        TokenKind::Operator(Operators::LAnd) => "&&"@,
        TokenKind::Operator(Operators::LOr) => "||"@,
        TokenKind::Operator(Operators::Eq) => "="@,
        TokenKind::Empty => "ε"@,
        TokenKind::End => "#"@,
        _ => "Unknown"@,
    }
}



impl TokenKind {
    /// The grammar-file name of this kind (see `kind_name`).
    pub fn name(&self) -> (r: String)
        ensures
            r@ == kind_name(*self),
    {
        match self {
            TokenKind::Error => "Err".to_owned(),
            TokenKind::Identifier => "Ident".to_owned(),
            TokenKind::Number(Numbers::Integer) => "IntConst".to_owned(),
            TokenKind::Number(Numbers::Float) => "FloatConst".to_owned(),
            TokenKind::KeyWord(KeyWords::Const) => "const".to_owned(),
            TokenKind::KeyWord(KeyWords::Int) => "int".to_owned(),
            TokenKind::KeyWord(KeyWords::Float) => "float".to_owned(),
            TokenKind::KeyWord(KeyWords::Void) => "void".to_owned(),
            TokenKind::KeyWord(KeyWords::If) => "if".to_owned(),
            TokenKind::KeyWord(KeyWords::Else) => "else".to_owned(),
            TokenKind::KeyWord(KeyWords::While) => "while".to_owned(),
            TokenKind::KeyWord(KeyWords::Break) => "break".to_owned(),
            TokenKind::KeyWord(KeyWords::Continue) => "continue".to_owned(),
            TokenKind::KeyWord(KeyWords::Return) => "return".to_owned(),
            TokenKind::OpenParen => "(".to_owned(),
            TokenKind::CloseParen => ")".to_owned(),
            TokenKind::OpenBrace => "{".to_owned(),
            TokenKind::CloseBrace => "}".to_owned(),
            TokenKind::Semicolon => ";".to_owned(),
            TokenKind::Comma => ",".to_owned(),
            TokenKind::Operator(Operators::OpenBracket) => "[".to_owned(),
            TokenKind::Operator(Operators::CloseBracket) => "]".to_owned(),
            TokenKind::Operator(Operators::Add) => "+".to_owned(),
            TokenKind::Operator(Operators::Sub) => "-".to_owned(),
            TokenKind::Operator(Operators::Mul) => "*".to_owned(),
            TokenKind::Operator(Operators::Div) => "/".to_owned(),
            TokenKind::Operator(Operators::Mod) => "%".to_owned(),
            TokenKind::Operator(Operators::Not) => "!".to_owned(),
            TokenKind::Operator(Operators::Les) => "<".to_owned(),
            TokenKind::Operator(Operators::Grt) => ">".to_owned(),
            TokenKind::Operator(Operators::LesEq) => "<=".to_owned(),
            TokenKind::Operator(Operators::GrtEq) => ">=".to_owned(),
            TokenKind::Operator(Operators::LEq) => "==".to_owned(),
            TokenKind::Operator(Operators::NotEq) => "!=".to_owned(),
            TokenKind::Operator(Operators::LAnd) => "&&".to_owned(),
            TokenKind::Operator(Operators::LOr) => "||".to_owned(),
            TokenKind::Operator(Operators::Eq) => "=".to_owned(),
            TokenKind::Empty => "ε".to_owned(),
            TokenKind::End => "#".to_owned(),
            _ => "Unknown".to_owned(),
        }
    }
}

impl TokenType {
    /// The name of a terminal's kind, or `NotTerminal`.
    pub fn name(&self) -> (r: String)
        ensures
            *self matches TokenType::Terminal(k) ==> r@ == kind_name(k),
            *self is NotTerminal ==> r@ == "NotTerminal"@,
    {
        match self {
            TokenType::Terminal(k) => k.name(),
            TokenType::NotTerminal => "NotTerminal".to_owned(),
        }
    }
}

/// A terminal or nonterminal symbol with its text and, for scanned tokens,
/// the place in the source where it began.
#[derive(Clone, Debug, PartialEq, Eq, PartialOrd, Ord, Hash)]
pub struct Token {
    pub token_type: TokenType,
    pub value: String,
    pub pos: Option<Point>,
}

impl Token {
    pub fn new(token_type: TokenType, value: String, pos: Option<Point>) -> (t: Token)
        ensures
            t.token_type == token_type,
            t.value@ == value@,
            t.pos == pos,
    {
        Token { token_type, value, pos }
    }

    pub fn new_terminal(value: String, pos: Option<Point>) -> (t: Token)
        ensures
            t.token_type == TokenType::Terminal(TokenKind::Identifier),
            t.value@ == value@,
            t.pos == pos,
    {
        Token::new(TokenType::Terminal(TokenKind::Identifier), value, pos)
    }

    pub fn new_not_terminal(value: String, pos: Option<Point>) -> (t: Token)
        ensures
            t.token_type == TokenType::NotTerminal,
            t.value@ == value@,
            t.pos == pos,
    {
        Token::new(TokenType::NotTerminal, value, pos)
    }

    pub fn is_terminal(&self) -> (r: bool)
        ensures
            r == (self.token_type is Terminal),
    {
        match self.token_type {
            TokenType::Terminal(_) => true,
            TokenType::NotTerminal => false,
        }
    }

    pub fn is_not_terminal(&self) -> (r: bool)
        ensures
            r == (self.token_type is NotTerminal),
    {
        match self.token_type {
            TokenType::Terminal(_) => false,
            TokenType::NotTerminal => true,
        }
    }

    pub fn get_pos(&self) -> (r: &Option<Point>)
        ensures
            *r == self.pos,
    {
        &self.pos
    }

    pub fn get_value(&self) -> (r: &String)
        ensures
            r@ == self.value@,
    {
        &self.value
    }

    pub fn get_type(&self) -> (r: &TokenType)
        ensures
            *r == self.token_type,
    {
        &self.token_type
    }

    /// The kind of a terminal token.
    pub fn get_kind(&self) -> (r: &TokenKind)
        requires
            self.token_type is Terminal,
        ensures
            self.token_type == TokenType::Terminal(*r),
    {
        match &self.token_type {
            TokenType::Terminal(kind) => kind,
            TokenType::NotTerminal => {
                proof {
                    assert(false);
                }
                &TokenKind::Error
            },
        }
    }

    pub fn is_whitespace(&self) -> (r: bool)
        ensures
            r == (self.token_type == TokenType::Terminal(TokenKind::WhiteSpace)),
    {
        match self.token_type {
            TokenType::Terminal(TokenKind::WhiteSpace) => true,
            _ => false,
        }
    }

    pub fn is_comment(&self) -> (r: bool)
        ensures
            r == (self.token_type == TokenType::Terminal(TokenKind::Comment)),
    {
        match self.token_type {
            TokenType::Terminal(TokenKind::Comment) => true,
            _ => false,
        }
    }
}

} // verus!
