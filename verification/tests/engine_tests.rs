use std::collections::HashMap;
use v2::ast::{Expr, Op, Stmt};
use v2::bytecode::{ByteCode, Compiler, Program};
use v2::heap::{Heap, HeapClosure, HeapObject};
use v2::isolate::Isolate;
use v2::lex::{Lexer, Symbol, SymbolKind};
use v2::parser::Parser;
use v2::symbols::SymbolTable;
use v2::value::Value;
use v2::vm::VM;

fn eval_text(source: &str) -> String {
    let mut iso = Isolate::new();
    let v = iso.eval(source);
    iso.format_value(v)
}

#[test]
fn smi_tagging_round_trips() {
    for n in [0i64, 1, -1, 42, -4000, 0x3fff_ffff_ffff_ffff, -0x4000_0000_0000_0000] {
        let v = Value::from_smi(n);
        assert!(v.is_smi());
        assert!(!v.is_heap_object());
        assert_eq!(v.as_smi(), n);
    }
    assert_eq!(Value::from_smi(21).0, 42);
}

#[test]
fn heap_tagging_round_trips() {
    for k in [0usize, 1, 7, 1000] {
        let v = Value::from_heap(k);
        assert!(v.is_heap_object());
        assert!(!v.is_smi());
        assert_eq!(v.heap_offset(), k);
    }
    assert_eq!(Value::from_heap(3).0, 7);
}

#[test]
fn value_display() {
    assert_eq!(Value::from_smi(-12).display(), "-12");
    assert_eq!(Value::from_smi(0).display(), "0");
    assert_eq!(Value::from_heap(3).display(), "HeapObject(3)");
    assert_eq!(Value::default(), Value::from_smi(0));
}

#[test]
fn allocation_reads_back_and_reuses_freed_slots() {
    let mut heap = Heap::new();
    let a = heap.alloc_string("a");
    let b = heap.alloc_string("b");
    assert_eq!(a, Value::from_heap(0));
    assert_eq!(b, Value::from_heap(1));
    assert_eq!(heap.read_string(a), "a");
    assert_eq!(heap.read_string(b), "b");
    assert_eq!(heap.len(), 2);
    heap.collect(&[b]);
    assert_eq!(heap.len(), 1);
    assert!(heap.get(a).is_none());
    let c = heap.alloc_string("c");
    assert_eq!(c, Value::from_heap(0));
    assert_eq!(heap.read_string(c), "c");
    assert_eq!(heap.read_string(b), "b");
    assert!(heap.is_over_threshold(1));
    assert!(!heap.is_over_threshold(2));
}

#[test]
fn collection_keeps_what_roots_reach() {
    let mut heap = Heap::new();
    let s = heap.alloc_string("kept through a constant");
    let lost = heap.alloc_string("lost");
    let func = heap.allocate(HeapObject::Function(v2::heap::BytecodeFunction {
        code: vec![],
        constant_pool: vec![s, Value::from_smi(5)],
        param_count: 0,
        register_count: 0,
    }));
    let closure = heap.allocate(HeapObject::Closure(HeapClosure { function: func, upvalues: vec![] }));
    heap.collect(&[closure, Value::from_smi(1)]);
    assert_eq!(heap.len(), 3);
    assert_eq!(heap.read_string(s), "kept through a constant");
    assert!(heap.get(lost).is_none());
    assert_eq!(heap.read_closure(closure).function, func);
    heap.collect(&[closure]);
    assert_eq!(heap.len(), 3);
    heap.collect(&[]);
    assert_eq!(heap.len(), 0);
}

#[test]
fn collection_skips_a_freed_slot_it_reaches() {
    let mut heap = Heap::new();
    let x = heap.alloc_string("x");
    let y = heap.alloc_string("y");
    heap.collect(&[y]);
    assert!(heap.get(x).is_none());
    heap.collect(&[x, y, Value::from_heap(40)]);
    assert_eq!(heap.len(), 1);
    assert!(heap.get(x).is_none());
    assert_eq!(heap.read_string(y), "y");
}

#[test]
fn patch_closure_points_at_new_function() {
    let mut heap = Heap::new();
    let f1 = heap.alloc_string("f1");
    let f2 = heap.alloc_string("f2");
    let c = heap.allocate(HeapObject::Closure(HeapClosure { function: f1, upvalues: vec![Value::from_smi(3)] }));
    heap.patch_closure(c, f2);
    assert_eq!(heap.read_closure(c).function, f2);
    assert_eq!(heap.read_closure(c).upvalues, vec![Value::from_smi(3)]);
}

#[test]
fn symbol_table_reads_back_last_binding() {
    let mut t: SymbolTable<usize> = SymbolTable::new();
    t.insert("b".to_string(), 1);
    t.insert("a".to_string(), 2);
    t.insert("c".to_string(), 3);
    t.insert("a".to_string(), 4);
    assert_eq!(t.get(&"a".to_string()), Some(4));
    assert_eq!(t.get(&"b".to_string()), Some(1));
    assert_eq!(t.get(&"c".to_string()), Some(3));
    assert_eq!(t.get(&"d".to_string()), None);
    assert_eq!(t.len(), 3);
    assert_eq!(t.entry(0), ("a".to_string(), 4));
    let u = t.duplicate();
    assert_eq!(u.get(&"c".to_string()), Some(3));
}

#[test]
fn lexer_uses_unicode_classes() {
    assert_eq!(
        Lexer::lex("x\u{a0}y"),
        vec![
            Symbol { kind: SymbolKind::Ident, int_val: None, str_val: "x".to_string() },
            Symbol { kind: SymbolKind::Ident, int_val: None, str_val: "y".to_string() },
        ]
    );
    assert_eq!(
        Lexer::lex("é\u{663}"),
        vec![Symbol { kind: SymbolKind::Ident, int_val: None, str_val: "é\u{663}".to_string() }]
    );
    assert_eq!(
        Lexer::lex("_a1"),
        vec![Symbol { kind: SymbolKind::Ident, int_val: None, str_val: "_a1".to_string() }]
    );
}

#[test]
fn parser_rejects_malformed_programs() {
    let toks = Lexer::lex("let = 5;");
    assert_eq!(Parser::new(toks).try_parse(), None);
    let toks = Lexer::lex("1 + ;");
    assert_eq!(Parser::new(toks).try_parse(), None);
    let toks = Lexer::lex("x = 1;");
    assert_eq!(
        Parser::new(toks).try_parse(),
        Some(vec![Stmt::Assign { name: "x".to_string(), value: Expr::NumberLit(1) }])
    );
}

#[test]
fn parser_reads_loops_and_logic() {
    let toks = Lexer::lex("while (!a && b || c != 1) { a = a - 1; }");
    let got = Parser::new(toks).parse();
    assert_eq!(got.len(), 1);
    assert_eq!(got[0].display(), "while (((!a && b) || (c != 1))) { a = (a - 1); }");
    let toks = Lexer::lex("for (let i = 0; i <= 3; i = i + 1) { s = s + i; }");
    let got = Parser::new(toks).parse();
    assert_eq!(got.len(), 1);
    assert_eq!(got[0].display(), "for (let i = 0; (i <= 3); i = (i + 1);) { s = (s + i); }");
}

#[test]
fn syntax_tree_display() {
    let toks = Lexer::lex("function add(a, b) { return a + b * 2; } if (a > b) { f(1, \"s\"); } else { let q = 3; }");
    let got = Parser::new(toks).parse();
    assert_eq!(got[0].display(), "function add(a, b) { return (a + (b * 2)); }");
    assert_eq!(got[1].display(), "if ((a > b)) { f(1, \"s\"); }else { let q = 3; }");
    assert_eq!(Op::Gte.display(), ">=");
    assert_eq!(Expr::Call { func: "g".to_string(), args: vec![] }.display(), "g()");
}

#[test]
fn bytecode_names_and_bytes() {
    assert_eq!(ByteCode::LdaSmi.display(), "LdaSmi");
    assert_eq!(ByteCode::JumpLoop.display(), "JumpLoop");
    assert_eq!(ByteCode::JumpLoop.to_byte(), 21);
    assert_eq!(ByteCode::from_byte(7), Some(ByteCode::Star));
    assert_eq!(ByteCode::from_byte(22), None);
    for b in 0u8..22 {
        assert_eq!(ByteCode::from_byte(b).map(|op| op.to_byte()), Some(b));
    }
}

#[test]
fn disassembly_listing() {
    let toks = Lexer::lex("let x = 10; f(x);");
    let stmts = Parser::new(toks).parse();
    let mut compiler = Compiler::init();
    compiler.symbols.insert("f".to_string(), 0);
    compiler.next_reg = 1;
    let mut heap = Heap::new();
    compiler.compile_stmts(&stmts, &mut heap);
    assert_eq!(
        compiler.display(),
        "Constants: [Value(20)]\nRegisters: 3, Params: 0\nBytecode:\n  0000  LdaSmi [0] (Value(20))\n  0002  Star r1\n  0004  Ldar r1\n  0006  Star r2\n  0008  Call r0 args@r3\n"
    );
    assert!(compiler.disassemble("> ").starts_with("> Constants: [Value(20)]\n> Registers: 3"));
}

#[test]
fn compiling_an_unbound_name_fails() {
    let stmts = Parser::new(Lexer::lex("y + 1;")).parse();
    let mut compiler = Compiler::init();
    let mut heap = Heap::new();
    assert!(!compiler.compile_stmts_checked(&stmts, &mut heap));
    let stmts = Parser::new(Lexer::lex("let y = 2; y + 1;")).parse();
    let mut compiler = Compiler::init();
    assert!(compiler.compile_stmts_checked(&stmts, &mut heap));
}

#[test]
fn eval_while_loop_from_readme() {
    assert_eq!(
        eval_text("var i = 10; var result = 1; while (i > 0) { result = result * i; i = i - 1; } result;"),
        "3628800"
    );
}

#[test]
fn eval_for_loop_and_reassignment() {
    assert_eq!(eval_text("let s = 0; for (let i = 1; i <= 4; i = i + 1) { s = s + i; } s;"), "10");
    assert_eq!(eval_text("let x = 10; x = x + 1; x;"), "11");
}

#[test]
fn eval_comparisons_and_logic() {
    assert_eq!(eval_text("3 <= 3;"), "1");
    assert_eq!(eval_text("2 >= 3;"), "0");
    assert_eq!(eval_text("2 != 3;"), "1");
    assert_eq!(eval_text("1 < 2 && 3 > 4;"), "0");
    assert_eq!(eval_text("1 < 2 || 3 > 4;"), "1");
    assert_eq!(eval_text("!0;"), "1");
    assert_eq!(eval_text("\"ab\" == \"ab\";"), "1");
    assert_eq!(eval_text("\"ab\" == \"ba\";"), "0");
}

#[test]
fn eval_division_truncates_toward_zero() {
    assert_eq!(eval_text("7 / 2;"), "3");
    assert_eq!(eval_text("let m = 0 - 7; m / 2;"), "-3");
    assert_eq!(eval_text("let m = 0 - 7; m * 3;"), "-21");
}

#[test]
fn empty_program_keeps_accumulator() {
    let mut iso = Isolate::new();
    iso.eval("let x = 5;");
    let v = iso.eval("");
    assert_eq!(iso.format_value(v), "5");
}

#[test]
fn display_isolate_exact() {
    let mut iso = Isolate::new();
    iso.eval("let x = 42;");
    assert_eq!(iso.display(), "Isolate{ acc: 42, heap_size: 2 }");
}

#[test]
fn format_value_freed_and_string() {
    let mut heap = Heap::new();
    let s = heap.alloc_string("text");
    let iso = Isolate::with_heap(heap, 10);
    assert_eq!(iso.format_value(s), "text");
    assert_eq!(iso.format_value(Value::from_heap(9)), "<freed>");
    assert_eq!(iso.format_value(Value::from_smi(-7)), "-7");
    assert_eq!(iso.gc_threshold, 10);
}

#[test]
fn same_source_same_result() {
    let src = "function fib(n) { if (n < 2) { return n; } return fib(n - 1) + fib(n - 2); } fib(12);";
    let mut a = Isolate::new();
    let mut b = Isolate::new();
    let ra = a.eval(src);
    let rb = b.eval(src);
    assert_eq!(ra, rb);
    assert_eq!(a.format_value(ra), "144");
    assert_eq!(a.heap.len(), b.heap.len());
}

#[test]
fn collection_during_string_building() {
    let mut iso = Isolate::new();
    iso.gc_threshold = 3;
    let v = iso.eval("let s = \"a\"; let i = 0; while (i < 5) { s = s + \"b\"; i = i + 1; } s;");
    assert_eq!(iso.format_value(v), "abbbbb");
    assert!(iso.heap.len() <= 8);
}

#[test]
fn vm_call_and_loop() {
    let program = Program {
        code: vec![
            ByteCode::LdaSmi as u8, 0,
            ByteCode::Star as u8, 0,
            ByteCode::LdaSmi as u8, 1,
            ByteCode::Star as u8, 1,
            ByteCode::Call as u8, 0, 2,
            ByteCode::Star as u8, 2,
            ByteCode::LdaSmi as u8, 2,
            ByteCode::Add as u8, 2,
        ],
        cons: vec![Value::from_smi(6), Value::from_smi(7), Value::from_smi(100)],
        funcs: vec![Program {
            code: vec![ByteCode::Ldar as u8, 0, ByteCode::Mul as u8, 1, ByteCode::Return as u8],
            cons: vec![],
            funcs: vec![],
            func_map: HashMap::new(),
            param_count: 2,
            next_reg: 2,
            symbols: HashMap::new(),
        }],
        func_map: HashMap::new(),
        param_count: 0,
        next_reg: 3,
        symbols: HashMap::new(),
    };
    let mut vm = VM::new(Heap::new());
    let v = vm.fde(&program);
    assert_eq!(v.as_smi(), 142);
    assert_eq!(vm.format_value(v), "142");
    assert_eq!(vm.display(), "VM{acc: 142}");
}

#[test]
fn vm_jump_loop_counts_down() {
    // r0 counts down from 3 to 0 through a backward jump.
    let program = Program {
        code: vec![
            ByteCode::LdaSmi as u8, 0,
            ByteCode::Star as u8, 0,
            ByteCode::LdaSmi as u8, 1,
            ByteCode::Star as u8, 1,
            ByteCode::LdaSmi as u8, 2,
            ByteCode::TestGreater as u8, 0,
            ByteCode::JumpIfFalse as u8, 8,
            ByteCode::LdaSmi as u8, 1,
            ByteCode::Sub as u8, 0,
            ByteCode::Star as u8, 0,
            ByteCode::JumpLoop as u8, 14,
            ByteCode::Ldar as u8, 0,
        ],
        cons: vec![Value::from_smi(3), Value::from_smi(1), Value::from_smi(0)],
        funcs: vec![],
        func_map: HashMap::new(),
        param_count: 0,
        next_reg: 2,
        symbols: HashMap::new(),
    };
    let mut vm = VM::new(Heap::new());
    assert_eq!(vm.fde(&program).as_smi(), 0);
}

#[test]
fn call_arguments_with_temporaries() {
    assert_eq!(eval_text("function sub(a, b) { return a - b; } sub(10, 1 + 2);"), "7");
    assert_eq!(eval_text("function sub(a, b) { return a - b; } sub(2 * 5, 3);"), "7");
    assert_eq!(
        eval_text("function f(a, b, c) { return a * 100 + b * 10 + c; } f(1, 1 + 1, 1 + 1 + 1);"),
        "123"
    );
}

#[test]
fn string_not_equal_compares_text() {
    assert_eq!(eval_text("\"hello\" != \"hello\";"), "0");
    assert_eq!(eval_text("\"hello\" != \"world\";"), "1");
    let mut heap = Heap::new();
    let a = heap.alloc_string("hello");
    let b = heap.alloc_string("hello");
    let func = heap.allocate(HeapObject::Function(v2::heap::BytecodeFunction {
        code: vec![
            ByteCode::LdaSmi as u8, 0,
            ByteCode::Star as u8, 0,
            ByteCode::LdaSmi as u8, 1,
            ByteCode::TestNotEqual as u8, 0,
        ],
        constant_pool: vec![a, b],
        param_count: 0,
        register_count: 16,
    }));
    let c = heap.allocate(HeapObject::Closure(HeapClosure { function: func, upvalues: vec![] }));
    let mut iso = Isolate::with_heap(heap, 1024);
    assert_eq!(iso.run(c).as_smi(), 0);
}

#[test]
fn a_rooted_string_reads_back_across_allocations_and_collections() {
    let mut heap = Heap::new();
    let v = heap.alloc_string("kept");
    let w = heap.alloc_string("dropped");
    heap.collect(&[v]);
    let x = heap.alloc_string("reuses the freed slot");
    assert_eq!(x, w);
    heap.collect(&[x, v]);
    assert_eq!(heap.read_string(v), "kept");
    assert_eq!(heap.read_string(x), "reuses the freed slot");
}

#[test]
fn not_equal_on_a_number_and_a_string_compares_words() {
    assert_eq!(eval_text("1 != \"a\";"), "1");
    assert_eq!(eval_text("\"a\" != 1;"), "1");
    assert_eq!(eval_text("0 != \"a\";"), "1");
}
