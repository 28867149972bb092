use std::collections::HashMap;
use v2::bytecode::{ByteCode, Program};
use v2::heap::Heap;
use v2::value::Value;
use v2::vm::VM;

#[test]
fn vm_first_example() {
    let program = Program {
        code: vec![
            ByteCode::LdaSmi as u8,
            0,
            ByteCode::Star as u8,
            0,
            ByteCode::LdaSmi as u8,
            1,
            ByteCode::Star as u8,
            1,
            ByteCode::LdaSmi as u8,
            2,
            ByteCode::Mul as u8,
            1,
            ByteCode::Add as u8,
            0,
        ],
        cons: vec![Value::from_smi(30), Value::from_smi(20), Value::from_smi(40)],
        funcs: vec![],
        func_map: HashMap::new(),
        param_count: 0,
        next_reg: 0,
        symbols: HashMap::new(),
    };

    let mut vm = VM::new(Heap::new());
    assert_eq!(vm.fde(&program).as_smi(),830);
}

#[test]
fn vm_with_function_call() {
    let program = Program {
        code: vec![
            ByteCode::LdaSmi as u8,
            0,
            ByteCode::Star as u8,
            0,
            ByteCode::LdaSmi as u8,
            1,
            ByteCode::Star as u8,
            1,
            ByteCode::Call as u8,
            0,
            2,
        ],
        cons: vec![Value::from_smi(10), Value::from_smi(20)],
        funcs: vec![Program {
            code: vec![
                ByteCode::Ldar as u8,
                0,
                ByteCode::Star as u8,
                2,
                ByteCode::Ldar as u8,
                1,
                ByteCode::Add as u8,
                2,
                ByteCode::Return as u8,
            ],
            cons: vec![],
            param_count: 2,
            next_reg: 3,
            symbols: HashMap::from([("a".to_string(), 0), ("b".to_string(), 1)]),
            funcs: vec![],
            func_map: HashMap::new(),
        }],
        func_map: HashMap::from([("add".to_string(), 0)]),
        param_count: 0,
        next_reg: 2,
        symbols: HashMap::new(),
    };

    let mut vm = VM::new(Heap::new());
    assert_eq!(vm.fde(&program).as_smi(),30);
}

#[test]
fn vm_test_equal_true() {
    let program = Program {
        code: vec![
            ByteCode::LdaSmi as u8, 0,
            ByteCode::Star as u8, 0,
            ByteCode::LdaSmi as u8, 0,
            ByteCode::TestEqual as u8, 0,
        ],
        cons: vec![Value::from_smi(42)],
        funcs: vec![],
        func_map: HashMap::new(),
        param_count: 0,
        next_reg: 0,
        symbols: HashMap::new(),
    };
    let mut vm = VM::new(Heap::new());
    assert_eq!(vm.fde(&program).as_smi(),1);
}

#[test]
fn vm_test_equal_false() {
    let program = Program {
        code: vec![
            ByteCode::LdaSmi as u8, 0,
            ByteCode::Star as u8, 0,
            ByteCode::LdaSmi as u8, 1,
            ByteCode::TestEqual as u8, 0,
        ],
        cons: vec![Value::from_smi(1), Value::from_smi(2)],
        funcs: vec![],
        func_map: HashMap::new(),
        param_count: 0,
        next_reg: 0,
        symbols: HashMap::new(),
    };
    let mut vm = VM::new(Heap::new());
    assert_eq!(vm.fde(&program).as_smi(),0);
}

#[test]
fn vm_test_less_than() {
    // reg[0] = 5, acc = 10 → acc > reg[0] → TestLess yields 1
    let program = Program {
        code: vec![
            ByteCode::LdaSmi as u8, 0,
            ByteCode::Star as u8, 0,
            ByteCode::LdaSmi as u8, 1,
            ByteCode::TestLess as u8, 0,
        ],
        cons: vec![Value::from_smi(5), Value::from_smi(10)],
        funcs: vec![],
        func_map: HashMap::new(),
        param_count: 0,
        next_reg: 0,
        symbols: HashMap::new(),
    };
    let mut vm = VM::new(Heap::new());
    assert_eq!(vm.fde(&program).as_smi(),1);
}

#[test]
fn vm_test_greater_than() {
    // reg[0] = 10, acc = 5 → acc < reg[0] → TestGreater yields 1
    let program = Program {
        code: vec![
            ByteCode::LdaSmi as u8, 0,
            ByteCode::Star as u8, 0,
            ByteCode::LdaSmi as u8, 1,
            ByteCode::TestGreater as u8, 0,
        ],
        cons: vec![Value::from_smi(10), Value::from_smi(5)],
        funcs: vec![],
        func_map: HashMap::new(),
        param_count: 0,
        next_reg: 0,
        symbols: HashMap::new(),
    };
    let mut vm = VM::new(Heap::new());
    assert_eq!(vm.fde(&program).as_smi(),1);
}

#[test]
fn vm_test_logical_not() {
    let program = Program {
        code: vec![
            ByteCode::LdaSmi as u8, 0,
            ByteCode::LogicalNot as u8,
        ],
        cons: vec![Value::from_smi(0)],
        funcs: vec![],
        func_map: HashMap::new(),
        param_count: 0,
        next_reg: 0,
        symbols: HashMap::new(),
    };
    let mut vm = VM::new(Heap::new());
    assert_eq!(vm.fde(&program).as_smi(),1);
}

#[test]
fn vm_test_logical_and() {
    let program = Program {
        code: vec![
            ByteCode::LdaSmi as u8, 0,
            ByteCode::Star as u8, 0,
            ByteCode::LdaSmi as u8, 0,
            ByteCode::LogicalAnd as u8, 0,
        ],
        cons: vec![Value::from_smi(1)],
        funcs: vec![],
        func_map: HashMap::new(),
        param_count: 0,
        next_reg: 0,
        symbols: HashMap::new(),
    };
    let mut vm = VM::new(Heap::new());
    assert_eq!(vm.fde(&program).as_smi(),1);
}

#[test]
fn vm_test_logical_or() {
    let program = Program {
        code: vec![
            ByteCode::LdaSmi as u8, 0,
            ByteCode::Star as u8, 0,
            ByteCode::LdaSmi as u8, 1,
            ByteCode::LogicalOr as u8, 0,
        ],
        cons: vec![Value::from_smi(1), Value::from_smi(0)],
        funcs: vec![],
        func_map: HashMap::new(),
        param_count: 0,
        next_reg: 0,
        symbols: HashMap::new(),
    };
    let mut vm = VM::new(Heap::new());
    assert_eq!(vm.fde(&program).as_smi(),1);
}

#[test]
fn vm_test_jump_if_false() {
    // acc = 0 → JumpIfFalse skips over LdaSmi(99) → acc stays 0
    let program = Program {
        code: vec![
            ByteCode::LdaSmi as u8, 0,
            ByteCode::JumpIfFalse as u8, 2,
            ByteCode::LdaSmi as u8, 1,
        ],
        cons: vec![Value::from_smi(0), Value::from_smi(99)],
        funcs: vec![],
        func_map: HashMap::new(),
        param_count: 0,
        next_reg: 0,
        symbols: HashMap::new(),
    };
    let mut vm = VM::new(Heap::new());
    assert_eq!(vm.fde(&program).as_smi(),0);
}

#[test]
fn vm_test_jump_if_false_not_taken() {
    // acc = 1 → JumpIfFalse not taken → LdaSmi loads 99
    let program = Program {
        code: vec![
            ByteCode::LdaSmi as u8, 0,
            ByteCode::JumpIfFalse as u8, 2,
            ByteCode::LdaSmi as u8, 1,
        ],
        cons: vec![Value::from_smi(1), Value::from_smi(99)],
        funcs: vec![],
        func_map: HashMap::new(),
        param_count: 0,
        next_reg: 0,
        symbols: HashMap::new(),
    };
    let mut vm = VM::new(Heap::new());
    assert_eq!(vm.fde(&program).as_smi(),99);
}

#[test]
fn vm_string_equality_same() {
    let mut heap = Heap::new();
    let a = heap.alloc_string("hello");
    let b = heap.alloc_string("hello");
    let program = Program {
        code: vec![
            ByteCode::LdaSmi as u8, 0,
            ByteCode::Star as u8, 0,
            ByteCode::LdaSmi as u8, 1,
            ByteCode::TestEqual as u8, 0,
        ],
        cons: vec![a, b],
        funcs: vec![],
        func_map: HashMap::new(),
        param_count: 0,
        next_reg: 0,
        symbols: HashMap::new(),
    };
    let mut vm = VM::new(heap);
    assert_eq!(vm.fde(&program).as_smi(),1);
}

#[test]
fn vm_string_equality_different() {
    let mut heap = Heap::new();
    let a = heap.alloc_string("hello");
    let b = heap.alloc_string("world");
    let program = Program {
        code: vec![
            ByteCode::LdaSmi as u8, 0,
            ByteCode::Star as u8, 0,
            ByteCode::LdaSmi as u8, 1,
            ByteCode::TestEqual as u8, 0,
        ],
        cons: vec![a, b],
        funcs: vec![],
        func_map: HashMap::new(),
        param_count: 0,
        next_reg: 0,
        symbols: HashMap::new(),
    };
    let mut vm = VM::new(heap);
    assert_eq!(vm.fde(&program).as_smi(),0);
}

#[test]
fn vm_subtraction() {
    let program = Program {
        code: vec![
            ByteCode::LdaSmi as u8, 0,
            ByteCode::Star as u8, 0,
            ByteCode::LdaSmi as u8, 1,
            ByteCode::Sub as u8, 0,
        ],
        cons: vec![Value::from_smi(10), Value::from_smi(3)],
        funcs: vec![],
        func_map: HashMap::new(),
        param_count: 0,
        next_reg: 0,
        symbols: HashMap::new(),
    };
    let mut vm = VM::new(Heap::new());
    assert_eq!(vm.fde(&program).as_smi(),7);
}

#[test]
fn vm_division() {
    let program = Program {
        code: vec![
            ByteCode::LdaSmi as u8, 0,
            ByteCode::Star as u8, 0,
            ByteCode::LdaSmi as u8, 1,
            ByteCode::Div as u8, 0,
        ],
        cons: vec![Value::from_smi(20), Value::from_smi(4)],
        funcs: vec![],
        func_map: HashMap::new(),
        param_count: 0,
        next_reg: 0,
        symbols: HashMap::new(),
    };
    let mut vm = VM::new(Heap::new());
    assert_eq!(vm.fde(&program).as_smi(),5);
}

#[test]
fn vm_string_concatenation() {
    let mut heap = Heap::new();
    let a = heap.alloc_string("hello");
    let b = heap.alloc_string(" world");
    let program = Program {
        code: vec![
            ByteCode::LdaSmi as u8, 0,
            ByteCode::Star as u8, 0,
            ByteCode::LdaSmi as u8, 1,
            ByteCode::Add as u8, 0,
        ],
        cons: vec![a, b],
        funcs: vec![],
        func_map: HashMap::new(),
        param_count: 0,
        next_reg: 0,
        symbols: HashMap::new(),
    };
    let mut vm = VM::new(heap);
    let result = vm.fde(&program);
    assert!(result.is_heap_object());
    assert_eq!(vm.format_value(result), "hello world");
}
