use v2::bytecode::ByteCode;
use v2::heap::{BytecodeFunction, Closure, Heap, HeapObject};
use v2::isolate::Isolate;
use v2::value::Value;

fn make_closure(
    heap: &mut Heap,
    code: Vec<u8>,
    constant_pool: Vec<Value>,
    param_count: usize,
) -> Value {
    let func = heap.allocate(HeapObject::Function(BytecodeFunction {
        code,
        constant_pool,
        param_count,
        register_count: 16,
    }));
    heap.allocate(HeapObject::Closure(Closure {
        function: func,
        upvalues: vec![],
    }))
}

#[test]
fn isolate_first_example() {
    let mut heap = Heap::new();
    let closure = make_closure(
        &mut heap,
        vec![
            ByteCode::LdaSmi as u8, 0,
            ByteCode::Star as u8, 0,
            ByteCode::LdaSmi as u8, 1,
            ByteCode::Star as u8, 1,
            ByteCode::LdaSmi as u8, 2,
            ByteCode::Mul as u8, 1,
            ByteCode::Add as u8, 0,
        ],
        vec![Value::from_smi(30), Value::from_smi(20), Value::from_smi(40)],
        0,
    );
    let mut iso = Isolate::with_heap(heap, 1024);
    assert_eq!(iso.run(closure).as_smi(), 830);
}

#[test]
fn isolate_with_function_call() {
    let mut heap = Heap::new();

    let child = make_closure(
        &mut heap,
        vec![
            ByteCode::Ldar as u8, 0,
            ByteCode::Star as u8, 2,
            ByteCode::Ldar as u8, 1,
            ByteCode::Add as u8, 2,
            ByteCode::Return as u8,
        ],
        vec![],
        2,
    );

    let closure = make_closure(
        &mut heap,
        vec![
            ByteCode::LdaSmi as u8, 0,
            ByteCode::Star as u8, 0,
            ByteCode::LdaSmi as u8, 1,
            ByteCode::Star as u8, 1,
            ByteCode::LdaSmi as u8, 2,
            ByteCode::Star as u8, 2,
            ByteCode::Call as u8, 0, 3,
        ],
        vec![child, Value::from_smi(10), Value::from_smi(20)],
        0,
    );

    let mut iso = Isolate::with_heap(heap, 1024);
    assert_eq!(iso.run(closure).as_smi(), 30);
}

#[test]
fn isolate_test_equal_true() {
    let mut heap = Heap::new();
    let closure = make_closure(
        &mut heap,
        vec![
            ByteCode::LdaSmi as u8, 0,
            ByteCode::Star as u8, 0,
            ByteCode::LdaSmi as u8, 0,
            ByteCode::TestEqual as u8, 0,
        ],
        vec![Value::from_smi(42)],
        0,
    );
    let mut iso = Isolate::with_heap(heap, 1024);
    assert_eq!(iso.run(closure).as_smi(), 1);
}

#[test]
fn isolate_test_equal_false() {
    let mut heap = Heap::new();
    let closure = make_closure(
        &mut heap,
        vec![
            ByteCode::LdaSmi as u8, 0,
            ByteCode::Star as u8, 0,
            ByteCode::LdaSmi as u8, 1,
            ByteCode::TestEqual as u8, 0,
        ],
        vec![Value::from_smi(1), Value::from_smi(2)],
        0,
    );
    let mut iso = Isolate::with_heap(heap, 1024);
    assert_eq!(iso.run(closure).as_smi(), 0);
}

#[test]
fn isolate_test_less_than() {
    let mut heap = Heap::new();
    let closure = make_closure(
        &mut heap,
        vec![
            ByteCode::LdaSmi as u8, 0,
            ByteCode::Star as u8, 0,
            ByteCode::LdaSmi as u8, 1,
            ByteCode::TestLess as u8, 0,
        ],
        vec![Value::from_smi(5), Value::from_smi(10)],
        0,
    );
    let mut iso = Isolate::with_heap(heap, 1024);
    assert_eq!(iso.run(closure).as_smi(), 1);
}

#[test]
fn isolate_test_greater_than() {
    let mut heap = Heap::new();
    let closure = make_closure(
        &mut heap,
        vec![
            ByteCode::LdaSmi as u8, 0,
            ByteCode::Star as u8, 0,
            ByteCode::LdaSmi as u8, 1,
            ByteCode::TestGreater as u8, 0,
        ],
        vec![Value::from_smi(10), Value::from_smi(5)],
        0,
    );
    let mut iso = Isolate::with_heap(heap, 1024);
    assert_eq!(iso.run(closure).as_smi(), 1);
}

#[test]
fn isolate_test_logical_not() {
    let mut heap = Heap::new();
    let closure = make_closure(
        &mut heap,
        vec![ByteCode::LdaSmi as u8, 0, ByteCode::LogicalNot as u8],
        vec![Value::from_smi(0)],
        0,
    );
    let mut iso = Isolate::with_heap(heap, 1024);
    assert_eq!(iso.run(closure).as_smi(), 1);
}

#[test]
fn isolate_test_logical_and() {
    let mut heap = Heap::new();
    let closure = make_closure(
        &mut heap,
        vec![
            ByteCode::LdaSmi as u8, 0,
            ByteCode::Star as u8, 0,
            ByteCode::LdaSmi as u8, 0,
            ByteCode::LogicalAnd as u8, 0,
        ],
        vec![Value::from_smi(1)],
        0,
    );
    let mut iso = Isolate::with_heap(heap, 1024);
    assert_eq!(iso.run(closure).as_smi(), 1);
}

#[test]
fn isolate_test_logical_or() {
    let mut heap = Heap::new();
    let closure = make_closure(
        &mut heap,
        vec![
            ByteCode::LdaSmi as u8, 0,
            ByteCode::Star as u8, 0,
            ByteCode::LdaSmi as u8, 1,
            ByteCode::LogicalOr as u8, 0,
        ],
        vec![Value::from_smi(1), Value::from_smi(0)],
        0,
    );
    let mut iso = Isolate::with_heap(heap, 1024);
    assert_eq!(iso.run(closure).as_smi(), 1);
}

#[test]
fn isolate_test_jump_if_false() {
    let mut heap = Heap::new();
    let closure = make_closure(
        &mut heap,
        vec![
            ByteCode::LdaSmi as u8, 0,
            ByteCode::JumpIfFalse as u8, 2,
            ByteCode::LdaSmi as u8, 1,
        ],
        vec![Value::from_smi(0), Value::from_smi(99)],
        0,
    );
    let mut iso = Isolate::with_heap(heap, 1024);
    assert_eq!(iso.run(closure).as_smi(), 0);
}

#[test]
fn isolate_test_jump_if_false_not_taken() {
    let mut heap = Heap::new();
    let closure = make_closure(
        &mut heap,
        vec![
            ByteCode::LdaSmi as u8, 0,
            ByteCode::JumpIfFalse as u8, 2,
            ByteCode::LdaSmi as u8, 1,
        ],
        vec![Value::from_smi(1), Value::from_smi(99)],
        0,
    );
    let mut iso = Isolate::with_heap(heap, 1024);
    assert_eq!(iso.run(closure).as_smi(), 99);
}

#[test]
fn isolate_string_equality_same() {
    let mut heap = Heap::new();
    let a = heap.alloc_string("hello");
    let b = heap.alloc_string("hello");
    let closure = make_closure(
        &mut heap,
        vec![
            ByteCode::LdaSmi as u8, 0,
            ByteCode::Star as u8, 0,
            ByteCode::LdaSmi as u8, 1,
            ByteCode::TestEqual as u8, 0,
        ],
        vec![a, b],
        0,
    );
    let mut iso = Isolate::with_heap(heap, 1024);
    assert_eq!(iso.run(closure).as_smi(), 1);
}

#[test]
fn isolate_string_equality_different() {
    let mut heap = Heap::new();
    let a = heap.alloc_string("hello");
    let b = heap.alloc_string("world");
    let closure = make_closure(
        &mut heap,
        vec![
            ByteCode::LdaSmi as u8, 0,
            ByteCode::Star as u8, 0,
            ByteCode::LdaSmi as u8, 1,
            ByteCode::TestEqual as u8, 0,
        ],
        vec![a, b],
        0,
    );
    let mut iso = Isolate::with_heap(heap, 1024);
    assert_eq!(iso.run(closure).as_smi(), 0);
}

#[test]
fn isolate_subtraction() {
    let mut heap = Heap::new();
    let closure = make_closure(
        &mut heap,
        vec![
            ByteCode::LdaSmi as u8, 0,
            ByteCode::Star as u8, 0,
            ByteCode::LdaSmi as u8, 1,
            ByteCode::Sub as u8, 0,
        ],
        vec![Value::from_smi(10), Value::from_smi(3)],
        0,
    );
    let mut iso = Isolate::with_heap(heap, 1024);
    assert_eq!(iso.run(closure).as_smi(), 7);
}

#[test]
fn isolate_division() {
    let mut heap = Heap::new();
    let closure = make_closure(
        &mut heap,
        vec![
            ByteCode::LdaSmi as u8, 0,
            ByteCode::Star as u8, 0,
            ByteCode::LdaSmi as u8, 1,
            ByteCode::Div as u8, 0,
        ],
        vec![Value::from_smi(20), Value::from_smi(4)],
        0,
    );
    let mut iso = Isolate::with_heap(heap, 1024);
    assert_eq!(iso.run(closure).as_smi(), 5);
}

#[test]
fn isolate_string_concatenation() {
    let mut heap = Heap::new();
    let a = heap.alloc_string("hello");
    let b = heap.alloc_string(" world");
    let closure = make_closure(
        &mut heap,
        vec![
            ByteCode::LdaSmi as u8, 0,
            ByteCode::Star as u8, 0,
            ByteCode::LdaSmi as u8, 1,
            ByteCode::Add as u8, 0,
        ],
        vec![a, b],
        0,
    );
    let mut iso = Isolate::with_heap(heap, 1024);
    let result = iso.run(closure);
    assert!(result.is_heap_object());
    assert_eq!(iso.format_value(result), "hello world");
}

#[test]
fn garbage_collection() {
    let mut heap = Heap::new();
    let a = heap.alloc_string("a");
    let b = heap.alloc_string("b");
    let closure = make_closure(
        &mut heap,
        vec![
            ByteCode::LdaSmi as u8, 0,
            ByteCode::Star as u8, 0,
            ByteCode::LdaSmi as u8, 1,
            ByteCode::Add as u8, 0,
            ByteCode::Star as u8, 0,
            ByteCode::LdaSmi as u8, 0,
            ByteCode::Star as u8, 0,
            ByteCode::LdaSmi as u8, 1,
            ByteCode::Add as u8, 0,
        ],
        vec![a, b],
        0,
    );
    let mut iso = Isolate::with_heap(heap, 6);
    let result = iso.run(closure);
    assert!(result.is_heap_object());
    assert_eq!(iso.format_value(result), "ab");
}

#[test]
fn eval_arithmetic() {
    let mut iso = Isolate::new();
    let result = iso.eval("let x = 10 + 20;");
    assert_eq!(iso.format_value(result), "30");
}

#[test]
fn eval_function_call() {
    let mut iso = Isolate::new();
    let result = iso.eval("function add(a, b) { return a + b; } add(10, 20);");
    assert_eq!(iso.format_value(result), "30");
}

#[test]
fn eval_string() {
    let mut iso = Isolate::new();
    let result = iso.eval("let s = \"hello\" + \" world\";");
    assert_eq!(iso.format_value(result), "hello world");
}

#[test]
fn two_isolates_are_independent() {
    let mut iso_a = Isolate::new();
    let mut iso_b = Isolate::new();
    iso_a.eval("let x = 10 + 20;");
    iso_b.eval("let x = 99;");
    assert_eq!(iso_a.format_value(iso_a.acc), "30");
    assert_eq!(iso_b.format_value(iso_b.acc), "99");
}

#[test]
fn eval_recursive_factorial() {
    let mut iso = Isolate::new();
    let result = iso.eval(
        "function factorial(n) { if (n < 1) { return 1; } return n * factorial(n - 1); } factorial(10);",
    );
    assert_eq!(iso.format_value(result), "3628800");
}

#[test]
fn eval_recursive_fibonacci() {
    let mut iso = Isolate::new();
    let result = iso.eval(
        "function fib(n) { if (n < 2) { return n; } return fib(n - 1) + fib(n - 2); } fib(10);",
    );
    assert_eq!(iso.format_value(result), "55");
}

#[test]
fn eval_nested_function_calls() {
    let mut iso = Isolate::new();
    let result = iso.eval(
        "function square(x) { return x * x; } \
         function sum_of_squares(a, b) { return square(a) + square(b); } \
         sum_of_squares(3, 4);",
    );
    assert_eq!(iso.format_value(result), "25");
}

#[test]
fn eval_three_level_nested_calls() {
    let mut iso = Isolate::new();
    let result = iso.eval(
        "function square(x) { return x * x; } \
         function sum_of_squares(a, b) { return square(a) + square(b); } \
         function hypotenuse_squared(a, b) { return sum_of_squares(a, b); } \
         hypotenuse_squared(3, 4);",
    );
    assert_eq!(iso.format_value(result), "25");
}

#[test]
fn eval_conditional_chain() {
    let mut iso = Isolate::new();
    let result = iso.eval(
        "function classify(n) { \
           if (n > 100) { return 3; } \
           if (n > 10) { return 2; } \
           if (n > 0) { return 1; } \
           return 0; \
         } \
         let a = classify(200); \
         let b = classify(50); \
         let c = classify(5); \
         let d = classify(0); \
         a * 1000 + b * 100 + c * 10 + d;",
    );
    assert_eq!(iso.format_value(result), "3210");
}

#[test]
fn eval_max_clamp() {
    let mut iso = Isolate::new();
    let result = iso.eval(
        "function max(a, b) { if (a > b) { return a; } else { return b; } } \
         function clamp(val, lo, hi) { \
           if (val < lo) { return lo; } \
           if (val > hi) { return hi; } \
           return val; \
         } \
         max(clamp(500, 0, 100), clamp(30, 0, 100));",
    );
    assert_eq!(iso.format_value(result), "100");
}

#[test]
fn format_value_closure() {
    let mut heap = Heap::new();
    let closure = make_closure(&mut heap, vec![], vec![], 0);
    let iso = Isolate::with_heap(heap, 1024);
    assert_eq!(iso.format_value(closure), "<closure>");
}

#[test]
fn format_value_function() {
    let mut heap = Heap::new();
    let func = heap.allocate(HeapObject::Function(BytecodeFunction {
        code: vec![],
        constant_pool: vec![],
        param_count: 0,
        register_count: 0,
    }));
    let iso = Isolate::with_heap(heap, 1024);
    assert_eq!(iso.format_value(func), "<function>");
}

#[test]
fn display_isolate() {
    let mut iso = Isolate::new();
    iso.eval("let x = 42;");
    let display = iso.display();
    assert!(display.contains("42"));
    assert!(display.contains("heap_size"));
}

#[test]
fn gc_preserves_closures_during_execution() {
    let mut iso = Isolate::new();
    iso.gc_threshold = 8;
    let result = iso.eval(
        "function add(a, b) { return a + b; } \
         let x = add(1, 2); \
         let y = add(3, 4); \
         let z = add(5, 6); \
         x + y + z;",
    );
    assert_eq!(iso.format_value(result), "21");
}

#[test]
fn closure_shares_function() {
    let mut heap = Heap::new();
    let func = heap.allocate(HeapObject::Function(BytecodeFunction {
        code: vec![ByteCode::Return as u8],
        constant_pool: vec![],
        param_count: 0,
        register_count: 0,
    }));
    let closure_a = heap.allocate(HeapObject::Closure(Closure {
        function: func,
        upvalues: vec![],
    }));
    let closure_b = heap.allocate(HeapObject::Closure(Closure {
        function: func,
        upvalues: vec![],
    }));
    let func_a = heap.read_closure(closure_a).function;
    let func_b = heap.read_closure(closure_b).function;
    assert_eq!(func_a, func_b);
}

#[test]
fn try_eval_returns_the_value_of_a_program() {
    let mut iso = Isolate::new();
    let r = iso.try_eval("1 + 2;", 1000);
    assert!(r.is_some());
    assert_eq!(iso.format_value(r.unwrap()), "3");
}

#[test]
fn try_eval_refuses_text_that_does_not_parse() {
    let mut iso = Isolate::new();
    assert!(iso.try_eval("let x = 1 +;", 1000).is_none());
}

#[test]
fn try_eval_gives_up_on_a_loop_that_never_ends() {
    let mut iso = Isolate::new();
    assert!(iso.try_eval("while (1) { }", 1000).is_none());
}

#[test]
fn try_eval_gives_up_when_fuel_runs_out() {
    let mut iso = Isolate::new();
    assert!(iso.try_eval("let x = 1; x = x + 1; x = x + 1; x;", 2).is_none());
}

#[test]
fn straight_line_program_value() {
    let mut iso = Isolate::new();
    let r = iso.eval("let x = 2; x = x * 3 + 1; x - 10;");
    assert_eq!(iso.format_value(r), "-3");
}

#[test]
fn collection_threshold_does_not_change_the_result() {
    let src = "function add(a, b) { return a + b; } \
               let x = add(1, 2); let y = add(3, 4); let z = add(5, 6); x + y + z;";
    let mut small = Isolate::new();
    small.gc_threshold = 1;
    let a = small.eval(src);
    let mut big = Isolate::new();
    let b = big.eval(src);
    assert_eq!(small.format_value(a), big.format_value(b));
}

#[test]
fn a_call_leaves_the_caller_registers_alone() {
    let mut iso = Isolate::new();
    let r = iso.eval("let a = 5; function f(x) { let y = x * 2; return y; } let b = f(3); a + b;");
    assert_eq!(iso.format_value(r), "11");
}
