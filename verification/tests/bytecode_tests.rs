use v2::ast::{Expr, Op, Stmt};
use v2::bytecode::{ByteCode, Compiler};
use v2::heap::Heap;
use v2::lex::SymbolKind;
use v2::value::Value;

fn compile_and_read(stmts: &[Stmt], heap: &mut Heap) -> (Value, Value) {
    let mut compiler = Compiler::init();
    compiler.compile_stmts(stmts, heap);
    let closure_val = compiler.finalize(heap);
    let func_val = heap.read_closure(closure_val).function;
    (closure_val, func_val)
}

#[test]
fn example_from_lesson() {
    let stmts = vec![
        Stmt::VarDecl {
            kind: SymbolKind::Let,
            name: "x".to_string(),
            value: Expr::NumberLit(10),
        },
        Stmt::VarDecl {
            kind: SymbolKind::Let,
            name: "y".to_string(),
            value: Expr::Binary {
                op: Op::Add,
                left: Box::new(Expr::NumberLit(20)),
                right: Box::new(Expr::Ident("x".to_string())),
            },
        },
        Stmt::ExprStmt(Expr::Binary {
            op: Op::Mul,
            left: Box::new(Expr::Ident("x".to_string())),
            right: Box::new(Expr::Ident("y".to_string())),
        }),
    ];

    let mut heap = Heap::new();
    let (_, func_val) = compile_and_read(&stmts, &mut heap);
    let func = heap.read_function(func_val);

    assert_eq!(
        func.code,
        vec![
            ByteCode::LdaSmi as u8, 0,
            ByteCode::Star as u8, 0,
            ByteCode::LdaSmi as u8, 1,
            ByteCode::Star as u8, 1,
            ByteCode::Ldar as u8, 0,
            ByteCode::Add as u8, 1,
            ByteCode::Star as u8, 2,
            ByteCode::Ldar as u8, 0,
            ByteCode::Star as u8, 3,
            ByteCode::Ldar as u8, 2,
            ByteCode::Mul as u8, 3,
        ]
    );
    assert_eq!(func.constant_pool, vec![Value::from_smi(10), Value::from_smi(20)]);
}

#[test]
fn add_caller_and_callee() {
    let stmts = vec![
        Stmt::FuncDecl {
            name: "add".to_string(),
            params: vec!["a".to_string(), "b".to_string()],
            body: vec![Stmt::Return(Expr::Binary {
                op: Op::Add,
                left: Box::new(Expr::Ident("a".to_string())),
                right: Box::new(Expr::Ident("b".to_string())),
            })],
        },
        Stmt::ExprStmt(Expr::Call {
            func: "add".to_string(),
            args: vec![Expr::NumberLit(10), Expr::NumberLit(20)],
        }),
    ];

    let mut heap = Heap::new();
    let (_, func_val) = compile_and_read(&stmts, &mut heap);
    let func = heap.read_function(func_val);

    assert_eq!(
        func.code,
        vec![
            ByteCode::LdaSmi as u8, 0,
            ByteCode::Star as u8, 0,
            ByteCode::LdaSmi as u8, 1,
            ByteCode::Star as u8, 1,
            ByteCode::LdaSmi as u8, 2,
            ByteCode::Star as u8, 2,
            ByteCode::Call as u8, 0, 3,
        ]
    );
    assert!(func.constant_pool[0].is_heap_object());
    assert_eq!(func.constant_pool[1], Value::from_smi(10));
    assert_eq!(func.constant_pool[2], Value::from_smi(20));

    let child_closure = heap.read_closure(func.constant_pool[0]);
    let child_func = heap.read_function(child_closure.function);
    assert_eq!(child_func.param_count, 2);
    assert_eq!(
        child_func.code,
        vec![
            // preamble: inject parent closure "add" into r2
            ByteCode::LdaSmi as u8, 0,
            ByteCode::Star as u8, 2,
            // body: return a + b
            ByteCode::Ldar as u8, 0,
            ByteCode::Star as u8, 3,
            ByteCode::Ldar as u8, 1,
            ByteCode::Add as u8, 3,
            ByteCode::Return as u8,
        ]
    );
    assert_eq!(child_func.constant_pool.len(), 1);
    assert!(child_func.constant_pool[0].is_heap_object());
}

#[test]
fn bytecode_string_var_decl() {
    let stmts = vec![Stmt::VarDecl {
        kind: SymbolKind::Let,
        name: "s".to_string(),
        value: Expr::StringLit("hello".to_string()),
    }];

    let mut heap = Heap::new();
    let (_, func_val) = compile_and_read(&stmts, &mut heap);
    let func = heap.read_function(func_val);

    assert_eq!(
        func.code,
        vec![ByteCode::LdaSmi as u8, 0, ByteCode::Star as u8, 0]
    );
    assert!(func.constant_pool[0].is_heap_object());
    assert_eq!(heap.read_string(func.constant_pool[0]), "hello");
}

#[test]
fn string_equality_bytecode() {
    let stmts = vec![Stmt::ExprStmt(Expr::Bool {
        op: Op::Equal,
        left: Box::new(Expr::StringLit("a".to_string())),
        right: Box::new(Expr::StringLit("b".to_string())),
    })];

    let mut heap = Heap::new();
    let (_, func_val) = compile_and_read(&stmts, &mut heap);
    let func = heap.read_function(func_val);

    assert_eq!(
        func.code,
        vec![
            ByteCode::LdaSmi as u8, 0,
            ByteCode::Star as u8, 0,
            ByteCode::LdaSmi as u8, 1,
            ByteCode::TestEqual as u8, 0,
        ]
    );
    assert_eq!(heap.read_string(func.constant_pool[0]), "a");
    assert_eq!(heap.read_string(func.constant_pool[1]), "b");
}

#[test]
fn conditional_bytecode() {
    let stmts = vec![Stmt::Cond {
        condition: Expr::Bool {
            op: Op::Gt,
            left: Box::new(Expr::Ident("x".to_string())),
            right: Box::new(Expr::NumberLit(0)),
        },
        body: vec![Stmt::VarDecl {
            kind: SymbolKind::Let,
            name: "y".to_string(),
            value: Expr::NumberLit(1),
        }],
        alternate: None,
    }];

    let mut compiler = Compiler::init();
    compiler.symbols.insert("x".to_string(), 0);
    compiler.next_reg = 1;
    let mut heap = Heap::new();
    compiler.compile_stmts(&stmts, &mut heap);
    let closure_val = compiler.finalize(&mut heap);
    let func_val = heap.read_closure(closure_val).function;
    let func = heap.read_function(func_val);

    assert_eq!(
        func.code,
        vec![
            ByteCode::Ldar as u8, 0,
            ByteCode::Star as u8, 1,
            ByteCode::LdaSmi as u8, 0,
            ByteCode::TestGreater as u8, 1,
            ByteCode::JumpIfFalse as u8, 4,
            ByteCode::LdaSmi as u8, 1,
            ByteCode::Star as u8, 2,
        ]
    );
}

#[test]
fn logical_not_bytecode() {
    let stmts = vec![Stmt::ExprStmt(Expr::Not(Box::new(Expr::Ident(
        "x".to_string(),
    ))))];

    let mut compiler = Compiler::init();
    compiler.symbols.insert("x".to_string(), 0);
    compiler.next_reg = 1;
    let mut heap = Heap::new();
    compiler.compile_stmts(&stmts, &mut heap);
    let closure_val = compiler.finalize(&mut heap);
    let func_val = heap.read_closure(closure_val).function;
    let func = heap.read_function(func_val);

    assert_eq!(
        func.code,
        vec![ByteCode::Ldar as u8, 0, ByteCode::LogicalNot as u8]
    );
}
