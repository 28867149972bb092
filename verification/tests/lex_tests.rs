use v2::lex::{Lexer, Symbol, SymbolKind};

fn smi(val: i64) -> Symbol {
    Symbol { kind: SymbolKind::Smi, int_val: Some(val), str_val: String::new() }
}

fn tok(kind: SymbolKind) -> Symbol {
    Symbol { kind, int_val: None, str_val: String::new() }
}

fn ident(name: &str) -> Symbol {
    Symbol { kind: SymbolKind::Ident, int_val: None, str_val: name.to_string() }
}

fn str_lit(val: &str) -> Symbol {
    Symbol { kind: SymbolKind::Str, int_val: None, str_val: val.to_string() }
}

#[test]
fn single_number() {
    assert_eq!(Lexer::lex("123"), vec![smi(123)]);
}

#[test]
fn arithmetic_expression() {
    assert_eq!(
        Lexer::lex("123 + (23 * 43) * 3"),
        vec![
            smi(123),
            tok(SymbolKind::Add),
            tok(SymbolKind::LPar),
            smi(23),
            tok(SymbolKind::Mul),
            smi(43),
            tok(SymbolKind::RPar),
            tok(SymbolKind::Mul),
            smi(3),
        ]
    );
}

#[test]
fn lex_variable_declaration() {
    assert_eq!(
        Lexer::lex("let x = 5;"),
        vec![tok(SymbolKind::Let), ident("x"), tok(SymbolKind::Assign), smi(5), tok(SymbolKind::Semi)]
    );
}

#[test]
fn condition() {
    assert_eq!(Lexer::lex("a == b"), vec![ident("a"), tok(SymbolKind::Equal), ident("b")]);
}

#[test]
fn function_declaration() {
    assert_eq!(
        Lexer::lex("function add(a, b) { return a + b; }"),
        vec![
            tok(SymbolKind::Function),
            ident("add"),
            tok(SymbolKind::LPar),
            ident("a"),
            tok(SymbolKind::Comma),
            ident("b"),
            tok(SymbolKind::RPar),
            tok(SymbolKind::LBrace),
            tok(SymbolKind::Return),
            ident("a"),
            tok(SymbolKind::Add),
            ident("b"),
            tok(SymbolKind::Semi),
            tok(SymbolKind::RBrace),
        ]
    );
}

#[test]
fn const_and_var_keywords() {
    assert_eq!(
        Lexer::lex("const x = 1; var y = 2;"),
        vec![
            tok(SymbolKind::Const),
            ident("x"),
            tok(SymbolKind::Assign),
            smi(1),
            tok(SymbolKind::Semi),
            tok(SymbolKind::Var),
            ident("y"),
            tok(SymbolKind::Assign),
            smi(2),
            tok(SymbolKind::Semi),
        ]
    );
}

#[test]
fn identifier_vs_keyword() {
    assert_eq!(
        Lexer::lex("let letters = 42;"),
        vec![tok(SymbolKind::Let), ident("letters"), tok(SymbolKind::Assign), smi(42), tok(SymbolKind::Semi)]
    );
}

#[test]
fn lex_comparison_and_logic_operators() {
    assert_eq!(
        Lexer::lex("a <= b >= c != d && !e || f < g > h"),
        vec![
            ident("a"),
            tok(SymbolKind::Lte),
            ident("b"),
            tok(SymbolKind::Gte),
            ident("c"),
            tok(SymbolKind::NotEqual),
            ident("d"),
            tok(SymbolKind::And),
            tok(SymbolKind::Not),
            ident("e"),
            tok(SymbolKind::Or),
            ident("f"),
            tok(SymbolKind::Lt),
            ident("g"),
            tok(SymbolKind::Gt),
            ident("h"),
        ]
    );
}

#[test]
fn lex_control_keywords_and_strings() {
    assert_eq!(
        Lexer::lex("if (x) { y = \"hi there\"; } else { while (z) {} } for"),
        vec![
            tok(SymbolKind::If),
            tok(SymbolKind::LPar),
            ident("x"),
            tok(SymbolKind::RPar),
            tok(SymbolKind::LBrace),
            ident("y"),
            tok(SymbolKind::Assign),
            str_lit("hi there"),
            tok(SymbolKind::Semi),
            tok(SymbolKind::RBrace),
            tok(SymbolKind::Else),
            tok(SymbolKind::LBrace),
            tok(SymbolKind::While),
            tok(SymbolKind::LPar),
            ident("z"),
            tok(SymbolKind::RPar),
            tok(SymbolKind::LBrace),
            tok(SymbolKind::RBrace),
            tok(SymbolKind::RBrace),
            tok(SymbolKind::For),
        ]
    );
}

#[test]
fn lex_empty_source() {
    assert_eq!(Lexer::lex(""), vec![]);
    assert_eq!(Lexer::lex("  \n\t "), vec![]);
}

#[test]
fn try_lex_rejects_unknown_character() {
    assert_eq!(Lexer::try_lex("let x = 5 # 3;"), None);
    assert_eq!(Lexer::try_lex("x ="), None);
    assert_eq!(Lexer::try_lex("99999999999999999999"), None);
    assert_eq!(Lexer::try_lex("12"), Some(vec![smi(12)]));
}

#[test]
fn symbol_kind_display() {
    assert_eq!(SymbolKind::Smi.display(), "SMI");
    assert_eq!(SymbolKind::LBrace.display(), "{");
    assert_eq!(SymbolKind::Let.display(), "let");
    assert_eq!(SymbolKind::If.display(), "IF");
    assert_eq!(SymbolKind::Equal.display(), "==");
}

#[test]
fn word_token_reads_keywords_and_identifiers() {
    let cs: Vec<char> = "let total while".chars().collect();
    let t = Lexer::word_token(&cs, 0, 3);
    assert_eq!(t.kind, SymbolKind::Let);
    assert_eq!(t.str_val, "");
    let t = Lexer::word_token(&cs, 4, 9);
    assert_eq!(t.kind, SymbolKind::Ident);
    assert_eq!(t.str_val, "total");
    let t = Lexer::word_token(&cs, 10, 15);
    assert_eq!(t.kind, SymbolKind::While);
}

#[test]
fn identifiers_take_letters_digits_and_underscores() {
    let toks = Lexer::lex("_a1 b2c");
    assert_eq!(toks.len(), 2);
    assert_eq!(toks[0].str_val, "_a1");
    assert_eq!(toks[1].str_val, "b2c");
}

#[test]
fn a_word_may_follow_a_number_directly() {
    let toks = Lexer::lex("1abc x");
    assert_eq!(toks.len(), 3);
    assert_eq!(toks[0].int_val, Some(1));
    assert_eq!(toks[1].str_val, "abc");
    assert_eq!(toks[2].str_val, "x");
}
