use cp_core::{Action, Grammar, GrammarError, LR1Parser, Operators, Point, Symbol, Token, TokenKind, TokenType, TreeNode};

const EXPR_GRAMMAR: &str = "%token id + * ( )\n{\nE : E + T | T\nT : T * F | F\nF : ( E ) | id\n}\n";

fn expr_grammar() -> Grammar {
    let mut grammar = Grammar::new();
    grammar.grammar_load(EXPR_GRAMMAR).unwrap();
    grammar
}

fn tok(kind: TokenKind, text: &str, col: usize) -> Token {
    Token::new(TokenType::Terminal(kind), text.to_string(), Some(Point::new(1, col)))
}

fn id(col: usize) -> Token {
    tok(TokenKind::Identifier, "id", col)
}

fn plus(col: usize) -> Token {
    tok(TokenKind::Operator(Operators::Add), "+", col)
}

fn times(col: usize) -> Token {
    tok(TokenKind::Operator(Operators::Mul), "*", col)
}

fn head_of(node: &TreeNode) -> &str {
    match node {
        TreeNode::Node { head, .. } => head.as_str(),
        TreeNode::Leaf(t) => t.get_value().as_str(),
    }
}

fn children_of(node: &TreeNode) -> &Vec<TreeNode> {
    match node {
        TreeNode::Node { children, .. } => children,
        TreeNode::Leaf(_) => panic!("a leaf has no children"),
    }
}

fn collect_leaves(node: &TreeNode, out: &mut Vec<String>) {
    match node {
        TreeNode::Leaf(t) => out.push(t.get_value().clone()),
        TreeNode::Node { children, .. } => {
            for c in children {
                collect_leaves(c, out);
            }
        }
    }
}

#[test]
fn test_grammar() {
    let mut grammar = Grammar::new();
    grammar.grammar_load(EXPR_GRAMMAR).unwrap();
    println!("{:#?}", grammar);
}

#[test]
fn test_lr1_sets() {
    let mut grammar = Grammar::new();
    grammar.grammar_load(EXPR_GRAMMAR).unwrap();
    let mut lr1_parser = LR1Parser::new();
    lr1_parser.compute_lr1_item_sets(&grammar).unwrap();
    println!("{:?}", lr1_parser.lr1_sets);
}

#[test]
fn test_lr1_table() {
    let mut grammar = Grammar::new();
    grammar.grammar_load(EXPR_GRAMMAR).unwrap();
    let mut lr1_parser = LR1Parser::new();
    lr1_parser.compute_lr1_item_sets(&grammar).unwrap();
    lr1_parser.construct_parsing_table(&grammar);
    println!("{:?}", lr1_parser.action_table);
    println!("{:?}", lr1_parser.goto_table);
}

#[test]
fn new_grammar_is_empty() {
    let g = Grammar::new();
    assert!(g.token_list.is_empty() && g.nonterminals.is_empty() && g.productions.is_empty());
    assert!(g.first_sets.is_empty() && g.nullable.is_empty() && g.start_symbol.is_empty());
}

#[test]
fn grammar_load_reads_terminals_nonterminals_and_productions() {
    let g = expr_grammar();
    assert_eq!(g.token_list, vec!["id", "+", "*", "(", ")"]);
    assert_eq!(g.nonterminals, vec!["E'", "E", "T", "F"]);
    assert_eq!(g.start_symbol, "E'");
    assert_eq!(g.productions.len(), 7);
    assert_eq!(g.productions[0].head, 0);
    assert_eq!(g.productions[0].body, vec![Symbol::NonTerminal(1)]);
    assert_eq!(g.productions[1].head, 1);
    assert_eq!(g.productions[1].body, vec![Symbol::NonTerminal(1), Symbol::Terminal(1), Symbol::NonTerminal(2)]);
    assert_eq!(g.productions[6].head, 3);
    assert_eq!(g.productions[6].body, vec![Symbol::Terminal(0)]);
}

#[test]
fn first_sets_of_expression_grammar() {
    let g = expr_grammar();
    let expected = vec![true, false, false, true, false];
    for n in 0..4 {
        assert_eq!(g.first_sets[n], expected, "FIRST of {}", g.nonterminals[n]);
        assert!(!g.nullable[n]);
    }
}

#[test]
fn first_set_of_leading_terminals_is_their_union() {
    let mut g = Grammar::new();
    g.grammar_load("%token a b c\nS : a S | b | c S\n").unwrap();
    assert_eq!(g.first_sets[1], vec![true, true, true]);
    let mut g = Grammar::new();
    g.grammar_load("%token a b c\nS : a | c\n").unwrap();
    assert_eq!(g.first_sets[1], vec![true, false, true]);
}

#[test]
fn first_of_terminal_is_itself() {
    let g = expr_grammar();
    let la = g.first_symbols(&vec![Symbol::Terminal(2)], 5);
    assert_eq!(la, vec![false, false, true, false, false, false]);
}

#[test]
fn empty_productions_make_nullable_and_fall_back() {
    let mut g = Grammar::new();
    g.grammar_load("%token a b\nS : A b\nA : a | ε\n").unwrap();
    assert_eq!(g.nonterminals, vec!["S'", "S", "A"]);
    assert!(g.nullable[2]);
    assert!(!g.nullable[1]);
    assert_eq!(g.first_sets[1], vec![true, true]);
    assert_eq!(g.first_sets[2], vec![true, false]);
    let la = g.first_symbols(&vec![Symbol::NonTerminal(2)], 2);
    assert_eq!(la, vec![true, false, true]);
}

#[test]
fn grammar_errors() {
    let mut g = Grammar::new();
    assert_eq!(g.grammar_load("%token a\nS a\n"), Err(GrammarError::MalformedLine(1)));
    let mut g = Grammar::new();
    assert_eq!(g.grammar_load("%token a\n{\n}\n"), Err(GrammarError::NoProductions));
    let mut g = Grammar::new();
    assert_eq!(g.grammar_load("%token a\nS : a\nT : S b\n"), Err(GrammarError::UndefinedSymbol(2, 3)));
    let mut g = Grammar::new();
    assert_eq!(g.grammar_load("%token a\nS : a B\n"), Err(GrammarError::UndefinedSymbol(1, 3)));
}

#[test]
fn tables_are_built_the_same_way_twice() {
    let g = expr_grammar();
    let p1 = LR1Parser::build_tables(&g).unwrap();
    let p2 = LR1Parser::build_tables(&g).unwrap();
    assert_eq!(p1.lr1_sets.len(), p2.lr1_sets.len());
    assert_eq!(p1.action_table, p2.action_table);
    assert_eq!(p1.goto_table, p2.goto_table);
    assert!(p1.conflicts.is_empty());
    assert_eq!(p1.lr1_sets.len(), 22);
}

#[test]
fn parses_sum_of_product() {
    let g = expr_grammar();
    let p = LR1Parser::build_tables(&g).unwrap();
    let tokens = vec![id(1), plus(4), id(6), times(9), id(11)];
    let tree = p.construct_tree(&g, tokens).unwrap();
    assert_eq!(head_of(&tree), "E");
    let top = children_of(&tree);
    assert_eq!(top.len(), 3);
    assert_eq!(head_of(&top[0]), "E");
    assert_eq!(head_of(&top[1]), "+");
    assert_eq!(head_of(&top[2]), "T");
    let right = children_of(&top[2]);
    assert_eq!(right.len(), 3);
    assert_eq!(head_of(&right[0]), "T");
    assert_eq!(head_of(&right[1]), "*");
    assert_eq!(head_of(&right[2]), "F");
    let mut leaves = Vec::new();
    collect_leaves(&tree, &mut leaves);
    assert_eq!(leaves, vec!["id", "+", "id", "*", "id"]);
}

#[test]
fn leaves_reproduce_a_nested_input() {
    let g = expr_grammar();
    let p = LR1Parser::build_tables(&g).unwrap();
    let tokens = vec![
        tok(TokenKind::OpenParen, "(", 1),
        id(2),
        plus(3),
        id(4),
        tok(TokenKind::CloseParen, ")", 5),
        times(6),
        id(7),
    ];
    let tree = p.construct_tree(&g, tokens).unwrap();
    let mut leaves = Vec::new();
    collect_leaves(&tree, &mut leaves);
    assert_eq!(leaves, vec!["(", "id", "+", "id", ")", "*", "id"]);
}

#[test]
fn rejects_operator_without_operand() {
    let g = expr_grammar();
    let p = LR1Parser::build_tables(&g).unwrap();
    let err = p.construct_tree(&g, vec![id(1), plus(3), times(5)]).unwrap_err();
    assert_eq!(err.token.get_value(), "*");
    assert_eq!(err.token.get_pos(), &Some(Point::new(1, 5)));
    assert!(err.state < p.lr1_sets.len());
    assert!(!err.exhausted);
    assert_eq!(p.action_table[err.state][2], None);
}

#[test]
fn rejects_truncated_input_at_end_marker() {
    let g = expr_grammar();
    let p = LR1Parser::build_tables(&g).unwrap();
    let err = p.construct_tree(&g, vec![id(1), plus(3)]).unwrap_err();
    assert_eq!(err.token.get_value(), "#");
    assert_eq!(err.token.get_type(), &TokenType::Terminal(TokenKind::End));
    assert_eq!(p.action_table[err.state][5], None);
}

#[test]
fn scanned_identifiers_match_the_ident_class() {
    let mut g = Grammar::new();
    g.grammar_load("%token Ident IntConst =\nS : Ident = IntConst\n").unwrap();
    let p = LR1Parser::build_tables(&g).unwrap();
    let mut c = cp_core::Cursor::new("x = 42");
    let mut tokens = Vec::new();
    while !c.is_eof() {
        let t = c.advance_token().unwrap();
        if !t.is_whitespace() && !t.is_comment() {
            tokens.push(t);
        }
    }
    let tree = p.construct_tree(&g, tokens).unwrap();
    let mut leaves = Vec::new();
    collect_leaves(&tree, &mut leaves);
    assert_eq!(leaves, vec!["x", "=", "42"]);
}

#[test]
fn conflicting_grammar_records_conflicts() {
    let mut g = Grammar::new();
    g.grammar_load("%token a\nS : S S | a\n").unwrap();
    let p = LR1Parser::build_tables(&g).unwrap();
    assert!(!p.conflicts.is_empty());
    for c in &p.conflicts {
        assert_ne!(c.kept, c.rejected);
        assert_eq!(p.action_table[c.state][c.terminal], Some(c.kept));
    }
    let accepts = p.action_table.iter().flatten().filter(|a| **a == Some(Action::Accept)).count();
    assert_eq!(accepts, 1);
}

#[test]
fn unproductive_nonterminal_is_refused() {
    let mut g = Grammar::new();
    assert_eq!(g.grammar_load("%token a\nS : a | A\nA : A a\n"), Err(GrammarError::Unproductive(2)));
    let mut g = Grammar::new();
    assert_eq!(g.grammar_load("%token a\nS : a S\n"), Err(GrammarError::Unproductive(1)));
}

#[test]
fn structural_lines_and_blank_lines_are_ignored() {
    let mut g = Grammar::new();
    g.grammar_load("{\n\n%token x\n  }\nS : x\n").unwrap();
    assert_eq!(g.token_list, vec!["x"]);
    assert_eq!(g.nonterminals, vec!["S'", "S"]);
    assert_eq!(g.productions.len(), 2);
}

#[test]
fn later_rules_for_a_head_add_alternatives() {
    let mut g = Grammar::new();
    g.grammar_load("%token a b\nS : a\nS : b\n").unwrap();
    assert_eq!(g.nonterminals, vec!["S'", "S"]);
    assert_eq!(g.productions.len(), 3);
    assert_eq!(g.productions[2].body, vec![Symbol::Terminal(1)]);
}

#[test]
fn terminal_classification_uses_the_final_token_list() {
    let mut g = Grammar::new();
    g.grammar_load("S : a b\n%token a b\n").unwrap();
    assert_eq!(g.productions[1].body, vec![Symbol::Terminal(0), Symbol::Terminal(1)]);
}

const STATEMENT_GRAMMAR: &str = "%token Ident IntConst if else while return ( ) { } ; = + - * / < ==
Program : StmtList
StmtList : StmtList Stmt | Stmt
Stmt : Ident = Expr ; | if ( Expr ) Stmt else Stmt | while ( Expr ) Stmt | return Expr ; | { StmtList }
Expr : Expr == Add | Expr < Add | Add
Add : Add + Mul | Add - Mul | Mul
Mul : Mul * Prim | Mul / Prim | Prim
Prim : ( Expr ) | Ident | IntConst
";

#[test]
fn parses_scanned_statements() {
    let mut g = Grammar::new();
    g.grammar_load(STATEMENT_GRAMMAR).unwrap();
    let p = LR1Parser::build_tables(&g).unwrap();
    assert!(p.conflicts.is_empty());
    let source = "x = 1 + 2 * y;\nwhile (x < 10) { x = x + 1; }\nif (x == 10) return x; else { y = (x - 1) / 2; }";
    let mut c = cp_core::Cursor::new(source);
    let mut tokens = Vec::new();
    while !c.is_eof() {
        let t = c.advance_token().unwrap();
        if !t.is_whitespace() && !t.is_comment() {
            tokens.push(t);
        }
    }
    let expected: Vec<String> = tokens.iter().map(|t| t.get_value().clone()).collect();
    let tree = p.construct_tree(&g, tokens).unwrap();
    assert_eq!(head_of(&tree), "Program");
    let mut leaves = Vec::new();
    collect_leaves(&tree, &mut leaves);
    assert_eq!(leaves, expected);
}
