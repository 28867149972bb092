use v2::ast::{Expr, Op, Stmt};
use v2::lex::{Symbol, SymbolKind};
use v2::parser::Parser;

fn smi(val: i64) -> Symbol {
    Symbol { kind: SymbolKind::Smi, int_val: Some(val), str_val: String::new() }
}

fn tok(kind: SymbolKind) -> Symbol {
    Symbol { kind, int_val: None, str_val: String::new() }
}

fn ident(name: &str) -> Symbol {
    Symbol { kind: SymbolKind::Ident, int_val: None, str_val: name.to_string() }
}

fn str_lit(val: &str) -> Symbol {
    Symbol { kind: SymbolKind::Str, int_val: None, str_val: val.to_string() }
}

#[test]
fn expression_statement() {
    let got = Parser::new(vec![smi(30), tok(SymbolKind::Semi)]).parse();
    assert_eq!(got, vec![Stmt::ExprStmt(Expr::NumberLit(30))]);
}

#[test]
fn binary_expression_with_precedence() {
    let got = Parser::new(vec![
        smi(1),
        tok(SymbolKind::Add),
        smi(2),
        tok(SymbolKind::Mul),
        smi(3),
        tok(SymbolKind::Semi),
    ])
    .parse();
    assert_eq!(
        got,
        vec![Stmt::ExprStmt(Expr::Binary {
            op: Op::Add,
            left: Box::new(Expr::NumberLit(1)),
            right: Box::new(Expr::Binary {
                op: Op::Mul,
                left: Box::new(Expr::NumberLit(2)),
                right: Box::new(Expr::NumberLit(3)),
            }),
        }),]
    );
}

#[test]
fn parenthesized_expression() {
    let got = Parser::new(vec![
        smi(30),
        tok(SymbolKind::Add),
        tok(SymbolKind::LPar),
        smi(20),
        tok(SymbolKind::Mul),
        smi(40),
        tok(SymbolKind::RPar),
        tok(SymbolKind::Semi),
    ])
    .parse();
    assert_eq!(
        got,
        vec![Stmt::ExprStmt(Expr::Binary {
            op: Op::Add,
            left: Box::new(Expr::NumberLit(30)),
            right: Box::new(Expr::Binary {
                op: Op::Mul,
                left: Box::new(Expr::NumberLit(20)),
                right: Box::new(Expr::NumberLit(40)),
            }),
        }),]
    );
}

#[test]
fn parser_variable_declaration() {
    let got = Parser::new(vec![
        tok(SymbolKind::Let),
        ident("x"),
        tok(SymbolKind::Assign),
        smi(5),
        tok(SymbolKind::Add),
        smi(3),
        tok(SymbolKind::Semi),
    ])
    .parse();
    assert_eq!(
        got,
        vec![Stmt::VarDecl {
            kind: SymbolKind::Let,
            name: "x".to_string(),
            value: Expr::Binary {
                op: Op::Add,
                left: Box::new(Expr::NumberLit(5)),
                right: Box::new(Expr::NumberLit(3)),
            },
        },]
    );
}

#[test]
fn function_declaration_with_return() {
    let got = Parser::new(vec![
        tok(SymbolKind::Function),
        ident("add"),
        tok(SymbolKind::LPar),
        ident("a"),
        tok(SymbolKind::Comma),
        ident("b"),
        tok(SymbolKind::RPar),
        tok(SymbolKind::LBrace),
        tok(SymbolKind::Return),
        ident("a"),
        tok(SymbolKind::Add),
        ident("b"),
        tok(SymbolKind::Semi),
        tok(SymbolKind::RBrace),
    ])
    .parse();
    assert_eq!(
        got,
        vec![Stmt::FuncDecl {
            name: "add".to_string(),
            params: vec!["a".to_string(), "b".to_string()],
            body: vec![Stmt::Return(Expr::Binary {
                op: Op::Add,
                left: Box::new(Expr::Ident("a".to_string())),
                right: Box::new(Expr::Ident("b".to_string())),
            }),],
        },]
    );
}

#[test]
fn function_call() {
    let got = Parser::new(vec![
        ident("add"),
        tok(SymbolKind::LPar),
        smi(1),
        tok(SymbolKind::Comma),
        smi(2),
        tok(SymbolKind::RPar),
        tok(SymbolKind::Semi),
    ])
    .parse();
    assert_eq!(
        got,
        vec![Stmt::ExprStmt(Expr::Call {
            func: "add".to_string(),
            args: vec![Expr::NumberLit(1), Expr::NumberLit(2)],
        }),]
    );
}

#[test]
fn no_arg_function() {
    let got = Parser::new(vec![
        tok(SymbolKind::Function),
        ident("noop"),
        tok(SymbolKind::LPar),
        tok(SymbolKind::RPar),
        tok(SymbolKind::LBrace),
        tok(SymbolKind::RBrace),
    ])
    .parse();
    assert_eq!(
        got,
        vec![Stmt::FuncDecl {
            name: "noop".to_string(),
            params: vec![],
            body: vec![],
        },]
    );
}

#[test]
fn boolean_expression_greater_than() {
    let got = Parser::new(vec![
        ident("a"),
        tok(SymbolKind::Gt),
        ident("b"),
        tok(SymbolKind::Semi),
    ])
    .parse();
    assert_eq!(
        got,
        vec![Stmt::ExprStmt(Expr::Bool {
            op: Op::Gt,
            left: Box::new(Expr::Ident("a".to_string())),
            right: Box::new(Expr::Ident("b".to_string())),
        })]
    );
}

#[test]
fn boolean_expression_less_than() {
    let got = Parser::new(vec![
        smi(1),
        tok(SymbolKind::Lt),
        smi(2),
        tok(SymbolKind::Semi),
    ])
    .parse();
    assert_eq!(
        got,
        vec![Stmt::ExprStmt(Expr::Bool {
            op: Op::Lt,
            left: Box::new(Expr::NumberLit(1)),
            right: Box::new(Expr::NumberLit(2)),
        })]
    );
}

#[test]
fn boolean_expression_equal() {
    let got = Parser::new(vec![
        ident("x"),
        tok(SymbolKind::Equal),
        smi(10),
        tok(SymbolKind::Semi),
    ])
    .parse();
    assert_eq!(
        got,
        vec![Stmt::ExprStmt(Expr::Bool {
            op: Op::Equal,
            left: Box::new(Expr::Ident("x".to_string())),
            right: Box::new(Expr::NumberLit(10)),
        })]
    );
}

#[test]
fn comparison_with_arithmetic() {
    // a + 1 > b * 2;
    let got = Parser::new(vec![
        ident("a"),
        tok(SymbolKind::Add),
        smi(1),
        tok(SymbolKind::Gt),
        ident("b"),
        tok(SymbolKind::Mul),
        smi(2),
        tok(SymbolKind::Semi),
    ])
    .parse();
    assert_eq!(
        got,
        vec![Stmt::ExprStmt(Expr::Bool {
            op: Op::Gt,
            left: Box::new(Expr::Binary {
                op: Op::Add,
                left: Box::new(Expr::Ident("a".to_string())),
                right: Box::new(Expr::NumberLit(1)),
            }),
            right: Box::new(Expr::Binary {
                op: Op::Mul,
                left: Box::new(Expr::Ident("b".to_string())),
                right: Box::new(Expr::NumberLit(2)),
            }),
        })]
    );
}

#[test]
fn conditional_without_else() {
    // if (a > b) { return a; }
    let got = Parser::new(vec![
        tok(SymbolKind::If),
        tok(SymbolKind::LPar),
        ident("a"),
        tok(SymbolKind::Gt),
        ident("b"),
        tok(SymbolKind::RPar),
        tok(SymbolKind::LBrace),
        tok(SymbolKind::Return),
        ident("a"),
        tok(SymbolKind::Semi),
        tok(SymbolKind::RBrace),
    ])
    .parse();
    assert_eq!(
        got,
        vec![Stmt::Cond {
            condition: Expr::Bool {
                op: Op::Gt,
                left: Box::new(Expr::Ident("a".to_string())),
                right: Box::new(Expr::Ident("b".to_string())),
            },
            body: vec![Stmt::Return(Expr::Ident("a".to_string()))],
            alternate: None,
        }]
    );
}

#[test]
fn conditional_with_else() {
    // if (a > b) { return a; } else { return b; }
    let got = Parser::new(vec![
        tok(SymbolKind::If),
        tok(SymbolKind::LPar),
        ident("a"),
        tok(SymbolKind::Gt),
        ident("b"),
        tok(SymbolKind::RPar),
        tok(SymbolKind::LBrace),
        tok(SymbolKind::Return),
        ident("a"),
        tok(SymbolKind::Semi),
        tok(SymbolKind::RBrace),
        tok(SymbolKind::Else),
        tok(SymbolKind::LBrace),
        tok(SymbolKind::Return),
        ident("b"),
        tok(SymbolKind::Semi),
        tok(SymbolKind::RBrace),
    ])
    .parse();
    assert_eq!(
        got,
        vec![Stmt::Cond {
            condition: Expr::Bool {
                op: Op::Gt,
                left: Box::new(Expr::Ident("a".to_string())),
                right: Box::new(Expr::Ident("b".to_string())),
            },
            body: vec![Stmt::Return(Expr::Ident("a".to_string()))],
            alternate: Some(vec![Stmt::Return(Expr::Ident("b".to_string()))]),
        }]
    );
}


#[test]
fn string_literal_expression() {
    let got = Parser::new(vec![str_lit("hello"), tok(SymbolKind::Semi)]).parse();
    assert_eq!(
        got,
        vec![Stmt::ExprStmt(Expr::StringLit("hello".to_string()))]
    );
}

#[test]
fn parser_string_var_decl() {
    let got = Parser::new(vec![
        tok(SymbolKind::Let),
        ident("name"),
        tok(SymbolKind::Assign),
        str_lit("alice"),
        tok(SymbolKind::Semi),
    ])
    .parse();
    assert_eq!(
        got,
        vec![Stmt::VarDecl {
            kind: SymbolKind::Let,
            name: "name".to_string(),
            value: Expr::StringLit("alice".to_string()),
        }]
    );
}

#[test]
fn string_equality_comparison() {
    let got = Parser::new(vec![
        str_lit("a"),
        tok(SymbolKind::Equal),
        str_lit("b"),
        tok(SymbolKind::Semi),
    ])
    .parse();
    assert_eq!(
        got,
        vec![Stmt::ExprStmt(Expr::Bool {
            op: Op::Equal,
            left: Box::new(Expr::StringLit("a".to_string())),
            right: Box::new(Expr::StringLit("b".to_string())),
        })]
    );
}

#[test]
fn string_as_function_argument() {
    let got = Parser::new(vec![
        ident("greet"),
        tok(SymbolKind::LPar),
        str_lit("world"),
        tok(SymbolKind::RPar),
        tok(SymbolKind::Semi),
    ])
    .parse();
    assert_eq!(
        got,
        vec![Stmt::ExprStmt(Expr::Call {
            func: "greet".to_string(),
            args: vec![Expr::StringLit("world".to_string())],
        })]
    );
}

#[test]
fn multi_statement_program() {
    let got = Parser::new(vec![
        tok(SymbolKind::Let),
        ident("x"),
        tok(SymbolKind::Assign),
        smi(10),
        tok(SymbolKind::Semi),
        tok(SymbolKind::Let),
        ident("y"),
        tok(SymbolKind::Assign),
        ident("x"),
        tok(SymbolKind::Mul),
        smi(2),
        tok(SymbolKind::Semi),
    ])
    .parse();
    assert_eq!(
        got,
        vec![
            Stmt::VarDecl {
                kind: SymbolKind::Let,
                name: "x".to_string(),
                value: Expr::NumberLit(10),
            },
            Stmt::VarDecl {
                kind: SymbolKind::Let,
                name: "y".to_string(),
                value: Expr::Binary {
                    op: Op::Mul,
                    left: Box::new(Expr::Ident("x".to_string())),
                    right: Box::new(Expr::NumberLit(2)),
                },
            },
        ]
    );
}
