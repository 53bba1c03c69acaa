use cp_core::{Cursor, KeyWords, LexerError, Numbers, Operators, Point, Token, TokenKind, TokenType};

fn scan_all(src: &str) -> Vec<Result<Token, LexerError>> {
    let mut c = Cursor::new(src);
    let mut out = Vec::new();
    while !c.is_eof() {
        out.push(c.advance_token());
    }
    out
}

fn kind(r: &Result<Token, LexerError>) -> TokenKind {
    match r {
        Ok(t) => *t.get_kind(),
        Err(e) => panic!("unexpected error {}", e.message),
    }
}

fn value(r: &Result<Token, LexerError>) -> String {
    r.as_ref().unwrap().get_value().clone()
}

#[test]
fn shift_assign_is_one_operator() {
    let toks = scan_all("<<=");
    assert_eq!(toks.len(), 1);
    assert_eq!(kind(&toks[0]), TokenKind::Operator(Operators::DoubleLessEqual));
    assert_eq!(value(&toks[0]), "<<=");
}

#[test]
fn shift_without_assign_is_two_character_operator() {
    let toks = scan_all("<<x");
    assert_eq!(toks.len(), 2);
    assert_eq!(kind(&toks[0]), TokenKind::Operator(Operators::DoubleLess));
    assert_eq!(value(&toks[0]), "<<");
    assert_eq!(kind(&toks[1]), TokenKind::Identifier);
}

#[test]
fn operators_take_the_longest_spelling() {
    let toks = scan_all("a+=b++ -- -=c>=d>>=e!=f&&g||h==i");
    let ops: Vec<TokenKind> = toks.iter().map(kind).filter(|k| matches!(k, TokenKind::Operator(_))).collect();
    assert_eq!(
        ops,
        vec![
            TokenKind::Operator(Operators::AddEqual),
            TokenKind::Operator(Operators::DoubleAdd),
            TokenKind::Operator(Operators::DoubleMinus),
            TokenKind::Operator(Operators::MinusEqual),
            TokenKind::Operator(Operators::GrtEq),
            TokenKind::Operator(Operators::DoubleGreaterEqual),
            TokenKind::Operator(Operators::NotEq),
            TokenKind::Operator(Operators::LAnd),
            TokenKind::Operator(Operators::LOr),
            TokenKind::Operator(Operators::LEq),
        ]
    );
}

#[test]
fn number_glued_to_letters_is_one_error() {
    let toks = scan_all("123abc");
    assert_eq!(toks.len(), 1);
    let e = toks[0].as_ref().unwrap_err();
    assert_eq!(e.message, "malformed numeric literal");
    assert_eq!(e.text, "123abc");
    assert_eq!((e.row, e.col), (1, 1));
}

#[test]
fn malformed_hex_literal_reported_at_its_zero() {
    let toks = scan_all("x = 0x1G;");
    let e = toks.iter().find_map(|r| r.as_ref().err()).unwrap();
    assert_eq!(e.message, "malformed numeric literal");
    assert_eq!((e.row, e.col), (1, 5));
    assert_eq!(kind(toks.last().unwrap()), TokenKind::Semicolon);
}

#[test]
fn unterminated_string_is_an_error() {
    let toks = scan_all("\"unterminated");
    assert_eq!(toks.len(), 1);
    assert_eq!(toks[0].as_ref().unwrap_err().message, "unterminated string literal");
}

#[test]
fn numeric_literal_families() {
    let cases = [
        ("0", Numbers::Integer),
        ("017", Numbers::Integer),
        ("0x1aF", Numbers::Integer),
        ("0b101", Numbers::Integer),
        ("42", Numbers::Integer),
        ("3.25", Numbers::Float),
        ("0.5", Numbers::Float),
        ("1e10", Numbers::Exponent),
        ("6.02E+23", Numbers::Exponent),
        ("2e-3", Numbers::Exponent),
    ];
    for (src, n) in cases {
        let toks = scan_all(src);
        assert_eq!(toks.len(), 1, "{}", src);
        assert_eq!(kind(&toks[0]), TokenKind::Number(n), "{}", src);
        assert_eq!(value(&toks[0]), src);
    }
    for bad in ["0x", "1.", "0b2", "09", "1e", "1e+"] {
        let toks = scan_all(bad);
        assert_eq!(toks[0].as_ref().unwrap_err().message, "malformed numeric literal", "{}", bad);
    }
}

#[test]
fn number_ends_at_operator() {
    let toks = scan_all("12+3");
    assert_eq!(toks.len(), 3);
    assert_eq!(value(&toks[0]), "12");
    assert_eq!(kind(&toks[1]), TokenKind::Operator(Operators::Add));
    assert_eq!(value(&toks[2]), "3");
}

#[test]
fn keywords_and_identifiers() {
    let toks = scan_all("int main while_x return");
    assert_eq!(kind(&toks[0]), TokenKind::KeyWord(KeyWords::Int));
    assert_eq!(kind(&toks[2]), TokenKind::Identifier);
    assert_eq!(value(&toks[2]), "main");
    assert_eq!(kind(&toks[4]), TokenKind::Identifier);
    assert_eq!(kind(&toks[6]), TokenKind::KeyWord(KeyWords::Return));
}

#[test]
fn identifier_with_glued_punctuation_is_one_error() {
    let toks = scan_all("ab$cd ef");
    let e = toks[0].as_ref().unwrap_err();
    assert_eq!(e.message, "malformed identifier");
    assert_eq!(kind(&toks[1]), TokenKind::WhiteSpace);
    assert_eq!(value(&toks[2]), "ef");
}

#[test]
fn comments_and_whitespace() {
    let toks = scan_all("// note\n/* a\n * b */x");
    assert_eq!(kind(&toks[0]), TokenKind::Comment);
    assert_eq!(value(&toks[0]), "// note");
    assert_eq!(kind(&toks[1]), TokenKind::WhiteSpace);
    assert_eq!(kind(&toks[2]), TokenKind::Comment);
    assert_eq!(value(&toks[2]), "/* a\n * b */");
    assert_eq!(value(&toks[3]), "x");
    assert_eq!(toks[3].as_ref().unwrap().get_pos(), &Some(Point::new(3, 8)));
    let file_ends_in_comment = scan_all("// last");
    assert_eq!(kind(&file_ends_in_comment[0]), TokenKind::Comment);
    let open = scan_all("/* open");
    assert_eq!(open[0].as_ref().unwrap_err().message, "unterminated block comment");
}

#[test]
fn character_literals() {
    assert_eq!(kind(&scan_all("'a'")[0]), TokenKind::Character);
    assert_eq!(value(&scan_all("'\\n'")[0]), "'\\n'");
    for bad in ["''", "'ab'", "'\\q'", "'a"] {
        let toks = scan_all(bad);
        assert_eq!(toks[0].as_ref().unwrap_err().message, "malformed character literal", "{}", bad);
    }
}

#[test]
fn string_literals() {
    let toks = scan_all("\"a\\tb\" \"x\\\ny\"");
    assert_eq!(kind(&toks[0]), TokenKind::String);
    assert_eq!(value(&toks[0]), "\"a\\tb\"");
    assert_eq!(value(&toks[2]), "\"x\\y\"");
    assert_eq!(scan_all("\"bad\\q\"")[0].as_ref().unwrap_err().message, "malformed string literal");
    assert_eq!(scan_all("\"line\nbreak\"")[0].as_ref().unwrap_err().message, "unterminated string literal");
}

#[test]
fn delimiters_and_unknown_runs() {
    let toks = scan_all("{;,}");
    assert_eq!(
        toks.iter().map(kind).collect::<Vec<_>>(),
        vec![TokenKind::OpenBrace, TokenKind::Semicolon, TokenKind::Comma, TokenKind::CloseBrace]
    );
    let toks = scan_all("@#x y");
    assert_eq!(toks[0].as_ref().unwrap_err().message, "unrecognized characters");
    assert_eq!(kind(&toks[1]), TokenKind::WhiteSpace);
}

#[test]
fn scanning_consumes_every_character_once() {
    let src = "int x = 0x1G + 'a';\n// c\nfloat y=1.5e3; @@ \"s\"";
    let mut c = Cursor::new(src);
    let mut rebuilt = String::new();
    let mut errors = 0;
    while !c.is_eof() {
        match c.advance_token() {
            Ok(t) => rebuilt.push_str(t.get_value()),
            Err(_) => errors += 1,
        }
    }
    assert_eq!(errors, 2);
    let mut c = Cursor::new(src);
    let mut all = String::new();
    while !c.is_eof() {
        match c.advance_token() {
            Ok(t) => all.push_str(t.get_value()),
            Err(e) => all.push_str(&e.text),
        }
    }
    assert_eq!(all, src);
    let continued = "\"a\\\nb\" x";
    let mut c = Cursor::new(continued);
    let mut all = String::new();
    while !c.is_eof() {
        all.push_str(c.advance_token().unwrap().get_value());
    }
    assert_eq!(all, "\"a\\b\" x");
    let mut c = Cursor::new("a+b // z\n  c");
    let mut all = String::new();
    while !c.is_eof() {
        all.push_str(c.advance_token().unwrap().get_value());
    }
    assert_eq!(all, "a+b // z\n  c");
}

#[test]
fn positions_follow_newlines() {
    let toks = scan_all("a\n  b");
    assert_eq!(toks[0].as_ref().unwrap().get_pos(), &Some(Point::new(1, 1)));
    assert_eq!(toks[2].as_ref().unwrap().get_pos(), &Some(Point::new(2, 3)));
    let p = Point::new(2, 3);
    assert_eq!((*p.get_row(), *p.get_col()), (2, 3));
}

#[test]
fn end_of_input_is_reported() {
    let mut c = Cursor::new("");
    assert!(c.is_eof());
    assert_eq!(c.advance_token().unwrap_err().message, "unexpected end of input");
}

#[test]
fn token_helpers() {
    let t = Token::new_terminal("x".to_string(), None);
    assert!(t.is_terminal());
    assert!(!t.is_not_terminal());
    assert_eq!(t.get_kind(), &TokenKind::Identifier);
    let n = Token::new_not_terminal("Expr".to_string(), None);
    assert!(n.is_not_terminal());
    assert_eq!(n.get_type(), &TokenType::NotTerminal);
    assert_eq!(TokenType::from("Ident"), TokenType::Terminal(TokenKind::Identifier));
    assert_eq!(TokenType::from("<="), TokenType::Terminal(TokenKind::Operator(Operators::LesEq)));
    assert_eq!(TokenType::from("#"), TokenType::Terminal(TokenKind::End));
    assert_eq!(TokenType::from("Expr"), TokenType::NotTerminal);
    assert_eq!(LexerError::new("m".to_string(), 3, 4).col, 4);
}

#[test]
fn kind_names_match_grammar_names() {
    assert_eq!(TokenKind::Identifier.name(), "Ident");
    assert_eq!(TokenKind::Number(Numbers::Integer).name(), "IntConst");
    assert_eq!(TokenKind::Number(Numbers::Float).name(), "FloatConst");
    assert_eq!(TokenKind::KeyWord(KeyWords::While).name(), "while");
    assert_eq!(TokenKind::Operator(Operators::LesEq).name(), "<=");
    assert_eq!(TokenKind::OpenBrace.name(), "{");
    assert_eq!(TokenKind::End.name(), "#");
    assert_eq!(TokenKind::Comment.name(), "Unknown");
    assert_eq!(TokenType::NotTerminal.name(), "NotTerminal");
    for k in [TokenKind::Identifier, TokenKind::Semicolon, TokenKind::Operator(Operators::LAnd)] {
        assert_eq!(TokenType::from(&k.name()), TokenType::Terminal(k));
    }
}
