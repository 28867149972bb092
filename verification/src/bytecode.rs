use vstd::prelude::*;
use std::collections::HashMap;

use crate::ast::{Expr, Op, SpecExpr, SpecStmt, Stmt, expr_view, exprs_view, lemma_expr_view, lemma_stmt_view, names_view, stmt_view, stmts_view};
use crate::heap::{BytecodeFunction, Heap, HeapClosure, HeapObject, SpecObject, allocated, first_free, object_at};
use crate::symbols::{SymbolTable, table_get, table_insert};
use crate::value::Value;

verus! {

/// The instruction set. Each instruction is one opcode byte, followed by the
/// operand bytes its handler reads.
#[derive(Debug, Clone, Copy, PartialEq, Eq, Structural)]
pub enum ByteCode {
    Push,
    Add,
    Sub,
    Mul,
    Div,
    LdaSmi,
    Ldar,
    Star,
    Call,
    Return,
    TestEqual,
    TestLess,
    TestGreater,
    Jump,
    JumpIfFalse,
    TestLessEqual,
    TestGreaterEqual,
    TestNotEqual,
    LogicalAnd,
    LogicalOr,
    LogicalNot,
    JumpLoop,
}

/// The opcode byte of an instruction: its position in the instruction list.
pub open spec fn op_byte(b: ByteCode) -> u8 {
    match b {
        ByteCode::Push => 0,
        ByteCode::Add => 1,
        ByteCode::Sub => 2,
        ByteCode::Mul => 3,
        ByteCode::Div => 4,
        ByteCode::LdaSmi => 5,
        ByteCode::Ldar => 6,
        ByteCode::Star => 7,
        ByteCode::Call => 8,
        ByteCode::Return => 9,
        ByteCode::TestEqual => 10,
        ByteCode::TestLess => 11,
        ByteCode::TestGreater => 12,
        ByteCode::Jump => 13,
        ByteCode::JumpIfFalse => 14,
        ByteCode::TestLessEqual => 15,
        ByteCode::TestGreaterEqual => 16,
        ByteCode::TestNotEqual => 17,
        ByteCode::LogicalAnd => 18,
        ByteCode::LogicalOr => 19,
        ByteCode::LogicalNot => 20,
        ByteCode::JumpLoop => 21,
    }
}

/// The instruction an opcode byte denotes, if any.
pub open spec fn decode(b: u8) -> Option<ByteCode> {
    if b == 0 {
        Some(ByteCode::Push)
    } else if b == 1 {
        Some(ByteCode::Add)
    } else if b == 2 {
        Some(ByteCode::Sub)
    } else if b == 3 {
        Some(ByteCode::Mul)
    } else if b == 4 {
        Some(ByteCode::Div)
    } else if b == 5 {
        Some(ByteCode::LdaSmi)
    } else if b == 6 {
        Some(ByteCode::Ldar)
    } else if b == 7 {
        Some(ByteCode::Star)
    } else if b == 8 {
        Some(ByteCode::Call)
    } else if b == 9 {
        Some(ByteCode::Return)
    } else if b == 10 {
        Some(ByteCode::TestEqual)
    } else if b == 11 {
        Some(ByteCode::TestLess)
    } else if b == 12 {
        Some(ByteCode::TestGreater)
    } else if b == 13 {
        Some(ByteCode::Jump)
    } else if b == 14 {
        Some(ByteCode::JumpIfFalse)
    } else if b == 15 {
        Some(ByteCode::TestLessEqual)
    } else if b == 16 {
        Some(ByteCode::TestGreaterEqual)
    } else if b == 17 {
        Some(ByteCode::TestNotEqual)
    } else if b == 18 {
        Some(ByteCode::LogicalAnd)
    } else if b == 19 {
        Some(ByteCode::LogicalOr)
    } else if b == 20 {
        Some(ByteCode::LogicalNot)
    } else if b == 21 {
        Some(ByteCode::JumpLoop)
    } else {
        None
    }
}

/// Decoding an opcode byte gives back the instruction.
pub proof fn lemma_decode_op_byte(b: ByteCode)
    ensures
        decode(op_byte(b)) == Some(b),
{
}

impl ByteCode {
    /// The opcode byte of this instruction.
    pub fn to_byte(self) -> (r: u8)
        ensures
            r == op_byte(self),
    {
        match self {
            ByteCode::Push => 0,
            ByteCode::Add => 1,
            ByteCode::Sub => 2,
            ByteCode::Mul => 3,
            ByteCode::Div => 4,
            ByteCode::LdaSmi => 5,
            ByteCode::Ldar => 6,
            ByteCode::Star => 7,
            ByteCode::Call => 8,
            ByteCode::Return => 9,
            ByteCode::TestEqual => 10,
            ByteCode::TestLess => 11,
            ByteCode::TestGreater => 12,
            ByteCode::Jump => 13,
            ByteCode::JumpIfFalse => 14,
            ByteCode::TestLessEqual => 15,
            ByteCode::TestGreaterEqual => 16,
            ByteCode::TestNotEqual => 17,
            ByteCode::LogicalAnd => 18,
            ByteCode::LogicalOr => 19,
            ByteCode::LogicalNot => 20,
            ByteCode::JumpLoop => 21,
        }
    }

    /// The instruction an opcode byte denotes, if any.
    pub fn from_byte(b: u8) -> (r: Option<ByteCode>)
        ensures
            r == decode(b),
    {
        if b == 0 {
            Some(ByteCode::Push)
        } else if b == 1 {
            Some(ByteCode::Add)
        } else if b == 2 {
            Some(ByteCode::Sub)
        } else if b == 3 {
            Some(ByteCode::Mul)
        } else if b == 4 {
            Some(ByteCode::Div)
        } else if b == 5 {
            Some(ByteCode::LdaSmi)
        } else if b == 6 {
            Some(ByteCode::Ldar)
        } else if b == 7 {
            Some(ByteCode::Star)
        } else if b == 8 {
            Some(ByteCode::Call)
        } else if b == 9 {
            Some(ByteCode::Return)
        } else if b == 10 {
            Some(ByteCode::TestEqual)
        } else if b == 11 {
            Some(ByteCode::TestLess)
        } else if b == 12 {
            Some(ByteCode::TestGreater)
        } else if b == 13 {
            Some(ByteCode::Jump)
        } else if b == 14 {
            Some(ByteCode::JumpIfFalse)
        } else if b == 15 {
            Some(ByteCode::TestLessEqual)
        } else if b == 16 {
            Some(ByteCode::TestGreaterEqual)
        } else if b == 17 {
            Some(ByteCode::TestNotEqual)
        } else if b == 18 {
            Some(ByteCode::LogicalAnd)
        } else if b == 19 {
            Some(ByteCode::LogicalOr)
        } else if b == 20 {
            Some(ByteCode::LogicalNot)
        } else if b == 21 {
            Some(ByteCode::JumpLoop)
        } else {
            None
        }
    }

    /// The name this instruction prints as.
    pub fn display(self) -> (r: &'static str)
        ensures
            r@ == op_name(self),
    {
        match self {
            ByteCode::Push => "Push",
            ByteCode::Add => "Add",
            ByteCode::Sub => "Sub",
            ByteCode::Mul => "Mul",
            ByteCode::Div => "Div",
            ByteCode::LdaSmi => "LdaSmi",
            ByteCode::Ldar => "Ldar",
            ByteCode::Star => "Star",
            ByteCode::Call => "Call",
            ByteCode::Return => "Return",
            ByteCode::TestEqual => "TestEqual",
            ByteCode::TestLess => "TestLess",
            ByteCode::TestGreater => "TestGreater",
            ByteCode::Jump => "Jump",
            ByteCode::JumpIfFalse => "JumpIfFalse",
            ByteCode::TestLessEqual => "TestLessEqual",
            ByteCode::TestGreaterEqual => "TestGreaterEqual",
            ByteCode::TestNotEqual => "TestNotEqual",
            ByteCode::LogicalAnd => "LogicalAnd",
            ByteCode::LogicalOr => "LogicalOr",
            ByteCode::LogicalNot => "LogicalNot",
            ByteCode::JumpLoop => "JumpLoop",
        }
    }
}

/// The name an instruction prints as.
pub open spec fn op_name(b: ByteCode) -> Seq<char> {
    match b {
        ByteCode::Push => "Push"@,
        ByteCode::Add => "Add"@,
        ByteCode::Sub => "Sub"@,
        ByteCode::Mul => "Mul"@,
        ByteCode::Div => "Div"@,
        ByteCode::LdaSmi => "LdaSmi"@,
        ByteCode::Ldar => "Ldar"@,
        ByteCode::Star => "Star"@,
        ByteCode::Call => "Call"@,
        ByteCode::Return => "Return"@,
        ByteCode::TestEqual => "TestEqual"@,
        ByteCode::TestLess => "TestLess"@,
        ByteCode::TestGreater => "TestGreater"@,
        ByteCode::Jump => "Jump"@,
        ByteCode::JumpIfFalse => "JumpIfFalse"@,
        ByteCode::TestLessEqual => "TestLessEqual"@,
        ByteCode::TestGreaterEqual => "TestGreaterEqual"@,
        ByteCode::TestNotEqual => "TestNotEqual"@,
        ByteCode::LogicalAnd => "LogicalAnd"@,
        ByteCode::LogicalOr => "LogicalOr"@,
        ByteCode::LogicalNot => "LogicalNot"@,
        ByteCode::JumpLoop => "JumpLoop"@,
    }
}

/// A compiled program for the frame-per-call machine: its code and
/// constants, the functions it declares (a call names one by its index),
/// and the names it binds.
pub struct Program {
    pub code: Vec<u8>,
    pub cons: Vec<Value>,
    pub funcs: Vec<Program>,
    pub func_map: HashMap<String, usize>,
    pub param_count: usize,
    pub next_reg: usize,
    pub symbols: HashMap<String, usize>,
}

// ----------------------------------------------------------------------------
// The compiler, as a function on compiler states.
// ----------------------------------------------------------------------------

/// Everything compilation reads and writes: the code and constants emitted so
/// far, the register allocator, the scopes of names, and the heap.
#[verifier::ext_equal]
pub struct CState {
    pub code: Seq<u8>,
    pub cons: Seq<Value>,
    pub param_count: usize,
    pub next_reg: usize,
    pub symbols: Seq<(Seq<char>, usize)>,
    pub closures: Seq<(Seq<char>, Value)>,
    pub heap: Seq<Option<SpecObject>>,
}

/// The operand byte of a number: its low eight bits.
pub open spec fn byte_of(n: int) -> u8 {
    (n % 256) as u8
}

/// The register after `r` in the round-robin of 256 registers.
pub open spec fn next_register(r: usize) -> usize {
    ((r + 1) % 256) as usize
}

/// The value that refers to the slot the next allocation in `h` takes.
pub open spec fn next_ref(h: Seq<Option<SpecObject>>) -> Value {
    Value(Value::heap_bits(first_free(h) as u64))
}

/// Appends `bytes` to the code.
pub open spec fn emit(st: CState, bytes: Seq<u8>) -> CState {
    CState { code: st.code + bytes, ..st }
}

/// Loads constant `v`: it is appended to the pool and an `LdaSmi` of its index is emitted.
pub open spec fn load_const(st: CState, v: Value) -> CState {
    CState {
        cons: st.cons.push(v),
        code: st.code + seq![op_byte(ByteCode::LdaSmi), byte_of(st.cons.len() as int)],
        ..st
    }
}

/// Takes the next register and stores the accumulator in it.
pub open spec fn store_new_reg(st: CState) -> CState {
    CState {
        next_reg: next_register(st.next_reg),
        code: st.code + seq![op_byte(ByteCode::Star), byte_of(st.next_reg as int)],
        ..st
    }
}

/// Takes the next register and binds `name` to it.
pub open spec fn bind_new_reg(st: CState, name: Seq<char>) -> CState {
    CState {
        next_reg: next_register(st.next_reg),
        symbols: table_insert(st.symbols, name, st.next_reg),
        ..st
    }
}

/// The opcode of an arithmetic operator, if it is one.
pub open spec fn arith_op(op: Op) -> Option<ByteCode> {
    match op {
        Op::Add => Some(ByteCode::Add),
        Op::Sub => Some(ByteCode::Sub),
        Op::Mul => Some(ByteCode::Mul),
        Op::Div => Some(ByteCode::Div),
        _ => None,
    }
}

/// The opcode of a comparison or logical operator, if it is one.
pub open spec fn test_op(op: Op) -> Option<ByteCode> {
    match op {
        Op::Lt => Some(ByteCode::TestLess),
        Op::Gt => Some(ByteCode::TestGreater),
        Op::Lte => Some(ByteCode::TestLessEqual),
        Op::Gte => Some(ByteCode::TestGreaterEqual),
        Op::Equal => Some(ByteCode::TestEqual),
        Op::NotEqual => Some(ByteCode::TestNotEqual),
        Op::And => Some(ByteCode::LogicalAnd),
        Op::Or => Some(ByteCode::LogicalOr),
        _ => None,
    }
}

/// Fills the operand at `placeholder` with the distance from it to the end of the code.
pub open spec fn patch(st: CState, placeholder: int) -> CState {
    CState { code: st.code.update(placeholder, byte_of(st.code.len() - placeholder - 1)), ..st }
}

/// Compiles an expression: its value ends up in the accumulator. `None` where
/// a name is unbound or an operator is used in the wrong kind of expression.
pub open spec fn c_expr(st: CState, e: SpecExpr) -> Option<CState>
    decreases e,
{
    match e {
        SpecExpr::NumberLit(n) => Some(load_const(st, Value(Value::smi_bits(n)))),
        SpecExpr::StringLit(s) => {
            let v = next_ref(st.heap);
            Some(load_const(CState { heap: allocated(st.heap, SpecObject::String(s)), ..st }, v))
        },
        SpecExpr::Ident(name) => match table_get(st.symbols, name) {
            Some(r) => Some(emit(st, seq![op_byte(ByteCode::Ldar), byte_of(r as int)])),
            None => None,
        },
        SpecExpr::Binary { op, left, right } => match c_expr(st, *left) {
            Some(s1) => match c_expr(store_new_reg(s1), *right) {
                Some(s3) => match arith_op(op) {
                    Some(b) => Some(emit(s3, seq![op_byte(b), byte_of(s1.next_reg as int)])),
                    None => None,
                },
                None => None,
            },
            None => None,
        },
        SpecExpr::Bool { op, left, right } => match c_expr(st, *left) {
            Some(s1) => match c_expr(store_new_reg(s1), *right) {
                Some(s3) => match test_op(op) {
                    Some(b) => Some(emit(s3, seq![op_byte(b), byte_of(s1.next_reg as int)])),
                    None => None,
                },
                None => None,
            },
            None => None,
        },
        SpecExpr::Call { func, args } => match c_args(st, args) {
            Some((s1, regs)) => {
                let s2 = gathered(s1, regs);
                match table_get(s2.symbols, func) {
                    Some(fr) => Some(
                        emit(s2, seq![op_byte(ByteCode::Call), byte_of(fr as int), byte_of(s2.next_reg as int)]),
                    ),
                    None => None,
                }
            },
            None => None,
        },
        SpecExpr::Not(inner) => match c_expr(st, *inner) {
            Some(s1) => Some(emit(s1, seq![op_byte(ByteCode::LogicalNot)])),
            None => None,
        },
    }
}

/// Compiles the arguments of a call, each into a fresh register, left to
/// right; also gives the register each argument was stored in.
pub open spec fn c_args(st: CState, args: Seq<SpecExpr>) -> Option<(CState, Seq<usize>)>
    decreases args,
{
    if args.len() == 0 {
        Some((st, Seq::empty()))
    } else {
        match c_expr(st, args[0]) {
            Some(s1) => match c_args(store_new_reg(s1), args.drop_first()) {
                Some((s2, regs)) => Some((s2, seq![s1.next_reg] + regs)),
                None => None,
            },
            None => None,
        }
    }
}

/// Whether the registers `regs` are, in order, the `regs.len()` registers
/// just below register `n` (modulo the 256 registers).
pub open spec fn in_window(regs: Seq<usize>, n: usize) -> bool {
    forall|i: int|
        0 <= i < regs.len() ==> (regs[i] as int) % 256 == ((n as int) % 256 + 256 - (regs.len() - i) % 256)
            % 256
}

/// Copies each of the registers `regs`, in order, into a fresh register.
pub open spec fn copy_to_fresh(st: CState, regs: Seq<usize>) -> CState
    decreases regs.len(),
{
    if regs.len() == 0 {
        st
    } else {
        copy_to_fresh(
            store_new_reg(emit(st, seq![op_byte(ByteCode::Ldar), byte_of(regs[0] as int)])),
            regs.drop_first(),
        )
    }
}

/// Brings the argument registers `regs` together just below the next
/// register: they stay where they are when they already are there (no
/// argument needed a temporary), otherwise they are copied into fresh
/// registers in order.
#[verifier::opaque]
pub open spec fn gathered(st: CState, regs: Seq<usize>) -> CState {
    if in_window(regs, st.next_reg) {
        st
    } else {
        copy_to_fresh(st, regs)
    }
}

/// Binds each parameter to a fresh register, in order.
pub open spec fn bind_params(st: CState, params: Seq<Seq<char>>) -> CState
    decreases params.len(),
{
    if params.len() == 0 {
        st
    } else {
        bind_params(bind_new_reg(st, params[0]), params.drop_first())
    }
}

/// Loads each visible function into a register bound to its name, in name order.
pub open spec fn prelude(st: CState, fns: Seq<(Seq<char>, Value)>) -> CState
    decreases fns.len(),
{
    if fns.len() == 0 {
        st
    } else {
        let s1 = load_const(st, fns[0].1);
        let s2 = CState {
            next_reg: next_register(s1.next_reg),
            symbols: table_insert(s1.symbols, fns[0].0, s1.next_reg),
            code: s1.code + seq![op_byte(ByteCode::Star), byte_of(s1.next_reg as int)],
            ..s1
        };
        prelude(s2, fns.drop_first())
    }
}

/// The state of a fresh compiler over `heap`.
pub open spec fn empty_state(heap: Seq<Option<SpecObject>>) -> CState {
    CState {
        code: Seq::empty(),
        cons: Seq::empty(),
        param_count: 0,
        next_reg: 0,
        symbols: Seq::empty(),
        closures: Seq::empty(),
        heap,
    }
}

/// The view of a function built from a compiler state.
pub open spec fn function_of(st: CState) -> SpecObject {
    SpecObject::Function {
        code: st.code,
        constant_pool: st.cons,
        param_count: st.param_count,
        register_count: st.next_reg,
    }
}

/// The heap after the closure at `cv` is pointed at `f`; `None` if `cv` holds no closure.
#[verifier::opaque]
pub open spec fn patched(h: Seq<Option<SpecObject>>, cv: Value, f: Value) -> Option<Seq<Option<SpecObject>>> {
    match object_at(h, cv) {
        Some(SpecObject::Closure { upvalues, .. }) => Some(
            h.update(cv.spec_heap_offset() as int, Some(SpecObject::Closure { function: f, upvalues })),
        ),
        _ => None,
    }
}

/// Compiles a function declaration.
pub open spec fn c_func_decl(st: CState, name: Seq<char>, params: Seq<Seq<char>>, body: Seq<SpecStmt>) -> Option<CState>
    decreases body, 2int,
{
    let pf = next_ref(st.heap);
    let h1 = allocated(
        st.heap,
        SpecObject::Function {
            code: Seq::empty(),
            constant_pool: Seq::empty(),
            param_count: params.len() as usize,
            register_count: 0,
        },
    );
    let cv = next_ref(h1);
    let h2 = allocated(h1, SpecObject::Closure { function: pf, upvalues: Seq::empty() });
    let s1 = store_new_reg(load_const(CState { heap: h2, ..st }, cv));
    let sp = CState {
        symbols: table_insert(s1.symbols, name, st.next_reg),
        closures: table_insert(s1.closures, name, cv),
        ..s1
    };
    let child0 = CState { param_count: params.len() as usize, ..empty_state(h2) };
    let child1 = bind_params(child0, params);
    let child2 = prelude(CState { closures: sp.closures, ..child1 }, sp.closures);
    match c_stmts(child2, body) {
        Some(child3) => {
            let rf = next_ref(child3.heap);
            let h4 = allocated(child3.heap, function_of(child3));
            match patched(h4, cv, rf) {
                Some(h5) => Some(CState { heap: h5, ..sp }),
                None => None,
            }
        },
        None => None,
    }
}

/// Compiles a statement.
pub open spec fn c_stmt(st: CState, s: SpecStmt) -> Option<CState>
    decreases s, 0int,
{
    match s {
        SpecStmt::VarDecl { name, value, .. } => match c_expr(st, value) {
            Some(s1) => Some(
                CState {
                    next_reg: next_register(s1.next_reg),
                    symbols: table_insert(s1.symbols, name, s1.next_reg),
                    code: s1.code + seq![op_byte(ByteCode::Star), byte_of(s1.next_reg as int)],
                    ..s1
                },
            ),
            None => None,
        },
        SpecStmt::Assign { name, value } => match c_expr(st, value) {
            Some(s1) => match table_get(s1.symbols, name) {
                Some(r) => Some(emit(s1, seq![op_byte(ByteCode::Star), byte_of(r as int)])),
                None => None,
            },
            None => None,
        },
        SpecStmt::Return(e) => match c_expr(st, e) {
            Some(s1) => Some(emit(s1, seq![op_byte(ByteCode::Return)])),
            None => None,
        },
        SpecStmt::ExprStmt(e) => c_expr(st, e),
        SpecStmt::Cond { condition, body, alternate } => match c_expr(st, condition) {
            Some(s1) => {
                let jf = s1.code.len() + 1int;
                match c_stmts(emit(s1, seq![op_byte(ByteCode::JumpIfFalse), 0u8]), body) {
                    Some(s3) => match alternate {
                        Some(alt) => {
                            let j = s3.code.len() + 1int;
                            match c_stmts(patch(emit(s3, seq![op_byte(ByteCode::Jump), 0u8]), jf), alt) {
                                Some(s6) => Some(patch(s6, j)),
                                None => None,
                            }
                        },
                        None => Some(patch(s3, jf)),
                    },
                    None => None,
                }
            },
            None => None,
        },
        SpecStmt::WhileLoop { condition, body } => {
            let start = st.code.len();
            match c_expr(st, condition) {
                Some(s1) => {
                    let jf = s1.code.len() + 1int;
                    match c_stmts(emit(s1, seq![op_byte(ByteCode::JumpIfFalse), 0u8]), body) {
                        Some(s3) => Some(
                            patch(
                                emit(s3, seq![op_byte(ByteCode::JumpLoop), byte_of(s3.code.len() + 2 - start)]),
                                jf,
                            ),
                        ),
                        None => None,
                    }
                },
                None => None,
            }
        },
        SpecStmt::ForLoop { init, condition, body, update } => match c_stmt(st, *init) {
            Some(s0) => {
                let start = s0.code.len();
                match c_expr(s0, condition) {
                    Some(s1) => {
                        let jf = s1.code.len() + 1int;
                        match c_stmts(emit(s1, seq![op_byte(ByteCode::JumpIfFalse), 0u8]), body) {
                            Some(s3) => match c_stmt(s3, *update) {
                                Some(s4) => Some(
                                    patch(
                                        emit(
                                            s4,
                                            seq![op_byte(ByteCode::JumpLoop), byte_of(s4.code.len() + 2 - start)],
                                        ),
                                        jf,
                                    ),
                                ),
                                None => None,
                            },
                            None => None,
                        }
                    },
                    None => None,
                }
            },
            None => None,
        },
        SpecStmt::FuncDecl { name, params, body } => c_func_decl(st, name, params, body),
    }
}

/// The end of a `for` loop: its update statement, the jump back to `start`,
/// and the exit jump at `jf` pointed past it.
#[verifier::opaque]
pub open spec fn for_close(s3: CState, update: SpecStmt, start: int, jf: int) -> Option<CState> {
    match c_stmt(s3, update) {
        Some(s4) => Some(
            patch(emit(s4, seq![op_byte(ByteCode::JumpLoop), byte_of(s4.code.len() + 2 - start)]), jf),
        ),
        None => None,
    }
}

/// What a `for` loop compiles to once its initialiser has been compiled into `s0`.
pub open spec fn for_tail(s0: CState, s: SpecStmt) -> Option<CState> {
    match s {
        SpecStmt::ForLoop { condition, body, update, .. } => {
            let start = s0.code.len() as int;
            match c_expr(s0, condition) {
                Some(s1) => {
                    let jf = s1.code.len() + 1int;
                    match c_stmts(emit(s1, seq![op_byte(ByteCode::JumpIfFalse), 0u8]), body) {
                        Some(s3) => for_close(s3, *update, start, jf),
                        None => None,
                    }
                },
                None => None,
            }
        },
        _ => None,
    }
}

/// A `for` loop compiles as its initialiser followed by `for_tail`.
proof fn lemma_for_split(st: CState, s: SpecStmt)
    requires
        s is ForLoop,
    ensures
        c_stmt(st, s) == (match c_stmt(st, *s->ForLoop_init) {
            Some(s0) => for_tail(s0, s),
            None => None,
        }),
{
    reveal(for_close);
}

/// Compiles statements in order.
pub open spec fn c_stmts(st: CState, ss: Seq<SpecStmt>) -> Option<CState>
    decreases ss, 1int,
{
    if ss.len() == 0 {
        Some(st)
    } else {
        match c_stmt(st, ss[0]) {
            Some(s1) => c_stmts(s1, ss.drop_first()),
            None => None,
        }
    }
}

/// `b`'s code extends `a`'s: every byte `a` had stays where it was.
pub open spec fn keeps_code(a: CState, b: CState) -> bool {
    a.code.len() <= b.code.len() && forall|i: int| 0 <= i < a.code.len() ==> #[trigger] b.code[i] == a.code[i]
}

proof fn lemma_keeps_trans(a: CState, b: CState, c: CState)
    requires
        keeps_code(a, b),
        keeps_code(b, c),
    ensures
        keeps_code(a, c),
{
    assert forall|i: int| 0 <= i < a.code.len() implies #[trigger] c.code[i] == a.code[i] by {
        assert(c.code[i] == b.code[i]);
    }
}

proof fn lemma_emit_keeps(a: CState, bytes: Seq<u8>)
    ensures
        keeps_code(a, emit(a, bytes)),
{
    assert forall|i: int| 0 <= i < a.code.len() implies #[trigger] emit(a, bytes).code[i] == a.code[i] by {}
}

proof fn lemma_patch_keeps(a: CState, x: CState, p: int)
    requires
        keeps_code(a, x),
        a.code.len() <= p < x.code.len(),
    ensures
        keeps_code(a, patch(x, p)),
        patch(x, p).code.len() == x.code.len(),
{
}

proof fn lemma_copy_to_fresh_keeps(st: CState, regs: Seq<usize>)
    ensures
        keeps_code(st, copy_to_fresh(st, regs)),
    decreases regs.len(),
{
    if regs.len() > 0 {
        let s1 = store_new_reg(emit(st, seq![op_byte(ByteCode::Ldar), byte_of(regs[0] as int)]));
        lemma_copy_to_fresh_keeps(s1, regs.drop_first());
        lemma_keeps_trans(st, s1, copy_to_fresh(s1, regs.drop_first()));
    }
}

proof fn lemma_c_expr_keeps(st: CState, e: SpecExpr)
    requires
        c_expr(st, e) is Some,
    ensures
        keeps_code(st, c_expr(st, e)->0),
    decreases e,
{
    match e {
        SpecExpr::Binary { left, right, .. } | SpecExpr::Bool { left, right, .. } => {
            lemma_c_expr_keeps(st, *left);
            let s1 = c_expr(st, *left)->0;
            let s2 = store_new_reg(s1);
            lemma_c_expr_keeps(s2, *right);
            let s3 = c_expr(s2, *right)->0;
            lemma_keeps_trans(st, s1, s2);
            lemma_keeps_trans(st, s2, s3);
            lemma_keeps_trans(st, s3, c_expr(st, e)->0);
        },
        SpecExpr::Call { func, args } => {
            lemma_c_args_keeps(st, args);
            let (s1, regs) = c_args(st, args)->0;
            reveal(gathered);
            lemma_copy_to_fresh_keeps(s1, regs);
            let s2 = gathered(s1, regs);
            lemma_keeps_trans(st, s1, s2);
            lemma_keeps_trans(st, s2, c_expr(st, e)->0);
        },
        SpecExpr::Not(inner) => {
            lemma_c_expr_keeps(st, *inner);
            lemma_keeps_trans(st, c_expr(st, *inner)->0, c_expr(st, e)->0);
        },
        _ => {},
    }
}

proof fn lemma_c_args_keeps(st: CState, args: Seq<SpecExpr>)
    requires
        c_args(st, args) is Some,
    ensures
        keeps_code(st, (c_args(st, args)->0).0),
    decreases args,
{
    if args.len() > 0 {
        lemma_c_expr_keeps(st, args[0]);
        let s1 = c_expr(st, args[0])->0;
        let s2 = store_new_reg(s1);
        lemma_c_args_keeps(s2, args.drop_first());
        lemma_keeps_trans(st, s1, s2);
        lemma_keeps_trans(st, s2, (c_args(s2, args.drop_first())->0).0);
    }
}

proof fn lemma_c_stmts_keeps(st: CState, ss: Seq<SpecStmt>)
    requires
        c_stmts(st, ss) is Some,
    ensures
        keeps_code(st, c_stmts(st, ss)->0),
    decreases ss, 1int,
{
    if ss.len() > 0 {
        lemma_c_stmt_keeps(st, ss[0]);
        let s1 = c_stmt(st, ss[0])->0;
        lemma_c_stmts_keeps(s1, ss.drop_first());
        lemma_keeps_trans(st, s1, c_stmts(s1, ss.drop_first())->0);
    }
}

/// Compiling a statement only adds code after what was there; the jumps it
/// fills in lie in its own code.
#[verifier::rlimit(100)]
#[verifier::spinoff_prover]
proof fn lemma_c_stmt_keeps(st: CState, s: SpecStmt)
    requires
        c_stmt(st, s) is Some,
    ensures
        keeps_code(st, c_stmt(st, s)->0),
    decreases s, 0int,
{
    match s {
        SpecStmt::VarDecl { value, .. } => {
            lemma_c_expr_keeps(st, value);
            let s1 = c_expr(st, value)->0;
            let s2 = c_stmt(st, s)->0;
            assert(s2.code == s1.code + seq![op_byte(ByteCode::Star), byte_of(s1.next_reg as int)]);
            assert forall|i: int| 0 <= i < s1.code.len() implies #[trigger] s2.code[i] == s1.code[i] by {}
            lemma_keeps_trans(st, s1, s2);
        },
        SpecStmt::Assign { value, .. } => {
            lemma_c_expr_keeps(st, value);
            lemma_keeps_trans(st, c_expr(st, value)->0, c_stmt(st, s)->0);
        },
        SpecStmt::Return(e) => {
            lemma_c_expr_keeps(st, e);
            lemma_keeps_trans(st, c_expr(st, e)->0, c_stmt(st, s)->0);
        },
        SpecStmt::ExprStmt(e) => {
            lemma_c_expr_keeps(st, e);
        },
        SpecStmt::Cond { condition, body, alternate } => {
            lemma_c_expr_keeps(st, condition);
            let s1 = c_expr(st, condition)->0;
            let jf = s1.code.len() + 1int;
            let s2 = emit(s1, seq![op_byte(ByteCode::JumpIfFalse), 0u8]);
            lemma_keeps_trans(st, s1, s2);
            lemma_c_stmts_keeps(s2, body);
            let s3 = c_stmts(s2, body)->0;
            lemma_keeps_trans(st, s2, s3);
            match alternate {
                Some(alt) => {
                    let j = s3.code.len() + 1int;
                    let s4 = emit(s3, seq![op_byte(ByteCode::Jump), 0u8]);
                    lemma_keeps_trans(st, s3, s4);
                    lemma_patch_keeps(st, s4, jf);
                    let s5 = patch(s4, jf);
                    lemma_c_stmts_keeps(s5, alt);
                    let s6 = c_stmts(s5, alt)->0;
                    lemma_keeps_trans(st, s5, s6);
                    lemma_patch_keeps(st, s6, j);
                },
                None => {
                    lemma_patch_keeps(st, s3, jf);
                },
            }
        },
        SpecStmt::WhileLoop { condition, body } => {
            lemma_c_expr_keeps(st, condition);
            let s1 = c_expr(st, condition)->0;
            let jf = s1.code.len() + 1int;
            let s2 = emit(s1, seq![op_byte(ByteCode::JumpIfFalse), 0u8]);
            lemma_keeps_trans(st, s1, s2);
            lemma_c_stmts_keeps(s2, body);
            let s3 = c_stmts(s2, body)->0;
            lemma_keeps_trans(st, s2, s3);
            let s4 = emit(s3, seq![op_byte(ByteCode::JumpLoop), byte_of(s3.code.len() + 2 - st.code.len())]);
            lemma_keeps_trans(st, s3, s4);
            lemma_patch_keeps(st, s4, jf);
        },
        SpecStmt::ForLoop { init, condition, body, update } => {
            lemma_c_stmt_keeps(st, *init);
            let s0 = c_stmt(st, *init)->0;
            lemma_c_expr_keeps(s0, condition);
            let s1 = c_expr(s0, condition)->0;
            let jf = s1.code.len() + 1int;
            let s2 = emit(s1, seq![op_byte(ByteCode::JumpIfFalse), 0u8]);
            lemma_keeps_trans(st, s0, s1);
            lemma_keeps_trans(st, s1, s2);
            lemma_c_stmts_keeps(s2, body);
            let s3 = c_stmts(s2, body)->0;
            lemma_keeps_trans(st, s2, s3);
            lemma_c_stmt_keeps(s3, *update);
            let s4 = c_stmt(s3, *update)->0;
            lemma_keeps_trans(st, s3, s4);
            let s5 = emit(s4, seq![op_byte(ByteCode::JumpLoop), byte_of(s4.code.len() + 2 - s0.code.len())]);
            lemma_keeps_trans(st, s4, s5);
            lemma_patch_keeps(st, s5, jf);
        },
        SpecStmt::FuncDecl { name, params, body } => {
            let r = c_func_decl(st, name, params, body)->0;
            assert(r.code == st.code + seq![op_byte(ByteCode::LdaSmi), byte_of(st.cons.len() as int)] + seq![
                op_byte(ByteCode::Star),
                byte_of(st.next_reg as int),
            ]);
            assert forall|i: int| 0 <= i < st.code.len() implies #[trigger] r.code[i] == st.code[i] by {}
        },
    }
}

/// A `for` loop runs its initialiser once, then tests its condition before
/// anything else: its code is the initialiser's code followed by the
/// condition's, then a `JumpIfFalse` that leaves the loop, and it ends with
/// a `JumpLoop` back to the condition (not to the initialiser).
pub proof fn lemma_for_tests_condition_first(
    st: CState,
    init: SpecStmt,
    condition: SpecExpr,
    body: Seq<SpecStmt>,
    update: SpecStmt,
)
    requires
        c_stmt(st, SpecStmt::ForLoop { init: Box::new(init), condition, body, update: Box::new(update) }) is Some,
    ensures
        c_stmt(st, init) is Some,
        c_expr(c_stmt(st, init)->0, condition) is Some,
        ({
            let start = c_stmt(st, init)->0.code.len() as int;
            let cond = c_expr(c_stmt(st, init)->0, condition)->0.code;
            let code = c_stmt(
                st,
                SpecStmt::ForLoop { init: Box::new(init), condition, body, update: Box::new(update) },
            )->0.code;
            let n = code.len() as int;
            let c = cond.len() as int;
            &&& st.code.len() <= start <= c
            &&& c + 4 <= n
            &&& code.take(c) == cond
            &&& code[c] == op_byte(ByteCode::JumpIfFalse)
            &&& code[c + 1] == byte_of(n - c - 2)
            &&& code[n - 2] == op_byte(ByteCode::JumpLoop)
            &&& code[n - 1] == byte_of(n - start)
        }),
{
    let s = SpecStmt::ForLoop { init: Box::new(init), condition, body, update: Box::new(update) };
    lemma_c_stmt_keeps(st, init);
    let s0 = c_stmt(st, init)->0;
    lemma_c_expr_keeps(s0, condition);
    let s1 = c_expr(s0, condition)->0;
    let c = s1.code.len() as int;
    let jf = c + 1;
    let s2 = emit(s1, seq![op_byte(ByteCode::JumpIfFalse), 0u8]);
    lemma_emit_keeps(s1, seq![op_byte(ByteCode::JumpIfFalse), 0u8]);
    lemma_c_stmts_keeps(s2, body);
    let s3 = c_stmts(s2, body)->0;
    lemma_c_stmt_keeps(s3, update);
    let s4 = c_stmt(s3, update)->0;
    let s5 = emit(s4, seq![op_byte(ByteCode::JumpLoop), byte_of(s4.code.len() + 2 - s0.code.len())]);
    let fin = c_stmt(st, s)->0;
    assert(fin == patch(s5, jf));
    let n = fin.code.len() as int;
    assert(s4.code[c] == s3.code[c]);
    assert(s3.code[c] == s2.code[c]);
    assert(s4.code[c + 1] == s3.code[c + 1]);
    assert(s3.code[c + 1] == s2.code[c + 1]);
    assert(fin.code.take(c) =~= s1.code) by {
        assert forall|i: int| 0 <= i < c implies fin.code.take(c)[i] == s1.code[i] by {
            assert(s4.code[i] == s3.code[i]);
            assert(s3.code[i] == s2.code[i]);
            assert(s2.code[i] == s1.code[i]);
        }
    }
}

/// In `code`, where the condition's code ends at `c`, the else branch
/// starts at `t`: the exit jump after the condition lands there, and just
/// before it stands a `Jump` to the end `n` that skips the else branch.
pub open spec fn else_branch_at(code: Seq<u8>, c: int, t: int, n: int) -> bool {
    &&& c + 4 <= t <= n
    &&& code[c + 1] == byte_of(t - c - 2)
    &&& code[t - 2] == op_byte(ByteCode::Jump)
    &&& code[t - 1] == byte_of(n - t)
}

/// An `if` statement tests its condition before anything else: its code is
/// the condition's code, then a `JumpIfFalse`. Without an else branch that
/// jump's operand is the distance to the end of the statement; with one, it
/// is the distance to the else branch, just before which a `Jump` skips to
/// the end.
pub proof fn lemma_if_tests_condition_first(
    st: CState,
    condition: SpecExpr,
    body: Seq<SpecStmt>,
    alternate: Option<Seq<SpecStmt>>,
)
    requires
        c_stmt(st, SpecStmt::Cond { condition, body, alternate }) is Some,
    ensures
        c_expr(st, condition) is Some,
        ({
            let cond = c_expr(st, condition)->0.code;
            let code = c_stmt(st, SpecStmt::Cond { condition, body, alternate })->0.code;
            let n = code.len() as int;
            let c = cond.len() as int;
            &&& st.code.len() <= c
            &&& c + 2 <= n
            &&& code.take(c) == cond
            &&& code[c] == op_byte(ByteCode::JumpIfFalse)
            &&& alternate is None ==> code[c + 1] == byte_of(n - c - 2)
            &&& alternate is Some ==> exists|t: int| #[trigger] else_branch_at(code, c, t, n)
        }),
{
    let s = SpecStmt::Cond { condition, body, alternate };
    lemma_c_expr_keeps(st, condition);
    let s1 = c_expr(st, condition)->0;
    let c = s1.code.len() as int;
    let jf = c + 1;
    let s2 = emit(s1, seq![op_byte(ByteCode::JumpIfFalse), 0u8]);
    lemma_emit_keeps(s1, seq![op_byte(ByteCode::JumpIfFalse), 0u8]);
    lemma_c_stmts_keeps(s2, body);
    let s3 = c_stmts(s2, body)->0;
    let fin = c_stmt(st, s)->0;
    let n = fin.code.len() as int;
    match alternate {
        None => {
            assert(fin == patch(s3, jf));
            assert(s3.code[c] == s2.code[c]);
            assert(fin.code.take(c) =~= s1.code) by {
                assert forall|i: int| 0 <= i < c implies fin.code.take(c)[i] == s1.code[i] by {
                    assert(s3.code[i] == s2.code[i]);
                    assert(s2.code[i] == s1.code[i]);
                }
            }
        },
        Some(alt) => {
            let t = s3.code.len() + 2int;
            let s4 = emit(s3, seq![op_byte(ByteCode::Jump), 0u8]);
            let s5 = patch(s4, jf);
            lemma_c_stmts_keeps(s5, alt);
            let s6 = c_stmts(s5, alt)->0;
            assert(fin == patch(s6, t - 1));
            assert(s3.code[c] == s2.code[c]);
            assert(s6.code[c] == s5.code[c]);
            assert(s6.code[c + 1] == s5.code[c + 1]);
            assert(s6.code[t - 2] == s5.code[t - 2]);
            assert(fin.code.take(c) =~= s1.code) by {
                assert forall|i: int| 0 <= i < c implies fin.code.take(c)[i] == s1.code[i] by {
                    assert(s6.code[i] == s5.code[i]);
                    assert(s3.code[i] == s2.code[i]);
                    assert(s2.code[i] == s1.code[i]);
                }
            }
            assert(else_branch_at(fin.code, c, t, n));
        },
    }
}

/// A `while` loop tests its condition before anything else: its code is
/// the condition's code, then a `JumpIfFalse` that leaves the loop, then
/// the body, and it ends with a `JumpLoop` back to the condition. The exit
/// jump's operand is the distance to the end of the loop in one byte, so on
/// a loop shorter than 256 bytes past the jump a false condition runs none
/// of the body.
pub proof fn lemma_while_tests_condition_first(st: CState, condition: SpecExpr, body: Seq<SpecStmt>)
    requires
        c_stmt(st, SpecStmt::WhileLoop { condition, body }) is Some,
    ensures
        c_expr(st, condition) is Some,
        ({
            let cond = c_expr(st, condition)->0.code;
            let code = c_stmt(st, SpecStmt::WhileLoop { condition, body })->0.code;
            let n = code.len() as int;
            let c = cond.len() as int;
            &&& st.code.len() <= c
            &&& c + 4 <= n
            &&& code.take(c) == cond
            &&& code[c] == op_byte(ByteCode::JumpIfFalse)
            &&& code[c + 1] == byte_of(n - c - 2)
            &&& (n - c - 2 < 256 ==> c + 2 + code[c + 1] == n)
            &&& code[n - 2] == op_byte(ByteCode::JumpLoop)
            &&& code[n - 1] == byte_of(n - st.code.len())
        }),
{
    let s = SpecStmt::WhileLoop { condition, body };
    lemma_c_expr_keeps(st, condition);
    let s1 = c_expr(st, condition)->0;
    let c = s1.code.len() as int;
    let jf = c + 1;
    let s2 = emit(s1, seq![op_byte(ByteCode::JumpIfFalse), 0u8]);
    lemma_emit_keeps(s1, seq![op_byte(ByteCode::JumpIfFalse), 0u8]);
    lemma_c_stmts_keeps(s2, body);
    let s3 = c_stmts(s2, body)->0;
    let s4 = emit(s3, seq![op_byte(ByteCode::JumpLoop), byte_of(s3.code.len() + 2 - st.code.len())]);
    let fin = c_stmt(st, s)->0;
    assert(fin == patch(s4, jf));
    let n = fin.code.len() as int;
    assert(n == s3.code.len() + 2);
    assert(s3.code[c] == s2.code[c]);
    assert(s3.code[c + 1] == s2.code[c + 1]);
    assert(fin.code.take(c) =~= s1.code) by {
        assert forall|i: int| 0 <= i < c implies fin.code.take(c)[i] == s1.code[i] by {
            assert(s3.code[i] == s2.code[i]);
            assert(s2.code[i] == s1.code[i]);
        }
    }
    assert(byte_of(n - c - 2) == (n - c - 2) % 256);
}

/// What `finalize` leaves: the heap with the compiled function and a closure
/// over it, and the reference to that closure.
pub open spec fn finalized(st: CState) -> (Seq<Option<SpecObject>>, Value) {
    let fv = next_ref(st.heap);
    let h1 = allocated(st.heap, function_of(st));
    let cv = next_ref(h1);
    (allocated(h1, SpecObject::Closure { function: fv, upvalues: Seq::empty() }), cv)
}

// ----------------------------------------------------------------------------
// The compiler.
// ----------------------------------------------------------------------------

/// Compiles statements into bytecode for one function scope. A function
/// declaration compiles its body with a child compiler; `finalize` puts the
/// result on the heap as a function and a closure over it.
///
/// `closures` holds the functions declared so far in this scope, so that a
/// child can see them (recursive and sibling calls).
pub struct Compiler {
    pub code: Vec<u8>,
    pub constant_pool: Vec<Value>,
    pub param_count: usize,
    pub next_reg: usize,
    pub symbols: SymbolTable<usize>,
    pub closures: SymbolTable<Value>,
}

impl Compiler {
    /// The compiler state over the heap `heap`.
    pub open spec fn state(&self, heap: Seq<Option<SpecObject>>) -> CState {
        CState {
            code: self.code@,
            cons: self.constant_pool@,
            param_count: self.param_count,
            next_reg: self.next_reg,
            symbols: self.symbols@,
            closures: self.closures@,
            heap,
        }
    }

    pub fn init() -> (c: Self)
        ensures
            forall|h: Seq<Option<SpecObject>>| #[trigger] c.state(h) == empty_state(h),
    {
        let c = Compiler {
            code: Vec::new(),
            constant_pool: Vec::new(),
            param_count: 0,
            next_reg: 0,
            symbols: SymbolTable::new(),
            closures: SymbolTable::new(),
        };
        assert forall|h: Seq<Option<SpecObject>>| #[trigger] c.state(h) == empty_state(h) by {
            assert(c.state(h) =~= empty_state(h));
        }
        c
    }

    /// Takes the next register of the round-robin.
    fn alloc_reg(&mut self) -> (r: usize)
        ensures
            r == old(self).next_reg,
            final(self).next_reg == next_register(old(self).next_reg),
            final(self).code == old(self).code,
            final(self).constant_pool == old(self).constant_pool,
            final(self).param_count == old(self).param_count,
            final(self).symbols == old(self).symbols,
            final(self).closures == old(self).closures,
    {
        let val = self.next_reg;
        self.next_reg = (self.next_reg % 256 + 1) % 256;
        val
    }

    /// Appends an instruction with a placeholder operand; returns the operand's position.
    fn emit_jump(&mut self, op: ByteCode) -> (p: usize)
        ensures
            final(self).code@ == old(self).code@ + seq![op_byte(op), 0u8],
            p == old(self).code@.len() + 1,
            final(self).constant_pool == old(self).constant_pool,
            final(self).param_count == old(self).param_count,
            final(self).next_reg == old(self).next_reg,
            final(self).symbols == old(self).symbols,
            final(self).closures == old(self).closures,
    {
        self.code.push(op.to_byte());
        self.code.push(0);
        self.code.len() - 1
    }

    /// Fills the placeholder operand at `placeholder` with the distance to the end of the code.
    fn patch_jump(&mut self, placeholder: usize)
        requires
            placeholder < old(self).code@.len(),
        ensures
            final(self).code@ == old(self).code@.update(
                placeholder as int,
                byte_of(old(self).code@.len() - placeholder - 1),
            ),
            final(self).constant_pool == old(self).constant_pool,
            final(self).param_count == old(self).param_count,
            final(self).next_reg == old(self).next_reg,
            final(self).symbols == old(self).symbols,
            final(self).closures == old(self).closures,
    {
        let offset = self.code.len() - placeholder - 1;
        self.code.set(placeholder, (offset % 256) as u8);
    }

    /// Appends `v` to the pool and emits an `LdaSmi` of its index.
    fn load_constant(&mut self, v: Value)
        ensures
            forall|h: Seq<Option<SpecObject>>| #[trigger] final(self).state(h) == load_const(old(self).state(h), v),
            final(self).code@.len() == old(self).code@.len() + 2,
    {
        let idx = self.constant_pool.len();
        self.constant_pool.push(v);
        self.code.push(ByteCode::LdaSmi.to_byte());
        self.code.push((idx % 256) as u8);
        assert forall|h: Seq<Option<SpecObject>>| #[trigger] self.state(h) == load_const(old(self).state(h), v) by {
            assert(self.state(h) =~= load_const(old(self).state(h), v));
        }
    }

    /// Takes the next register and emits a store of the accumulator into it; returns the register.
    fn store_to_new_reg(&mut self) -> (r: usize)
        ensures
            r == old(self).next_reg,
            forall|h: Seq<Option<SpecObject>>| #[trigger] final(self).state(h) == store_new_reg(old(self).state(h)),
            final(self).code@.len() == old(self).code@.len() + 2,
    {
        let reg = self.alloc_reg();
        self.code.push(ByteCode::Star.to_byte());
        self.code.push((reg % 256) as u8);
        assert forall|h: Seq<Option<SpecObject>>| #[trigger] self.state(h) == store_new_reg(old(self).state(h)) by {
            assert(self.state(h) =~= store_new_reg(old(self).state(h)));
        }
        reg
    }

    /// Compiles statements in order; the statements must compile.
    pub fn compile_stmts(&mut self, stmts: &[Stmt], heap: &mut Heap)
        requires
            c_stmts(old(self).state(old(heap)@), stmts_view(stmts@)) is Some,
        ensures
            c_stmts(old(self).state(old(heap)@), stmts_view(stmts@)) == Some(final(self).state(final(heap)@)),
    {
        if !self.compile_stmts_checked(stmts, heap) {
            vstd::pervasive::unreached::<()>();
        }
    }

    /// Puts the compiled function on the heap with a closure over it; returns the closure.
    pub fn finalize(self, heap: &mut Heap) -> (v: Value)
        ensures
            (final(heap)@, v) == finalized(self.state(old(heap)@)),
    {
        let ghost st = self.state(heap@);
        let func = heap.allocate(
            HeapObject::Function(
                BytecodeFunction {
                    code: self.code,
                    constant_pool: self.constant_pool,
                    param_count: self.param_count,
                    register_count: self.next_reg,
                },
            ),
        );
        heap.allocate(HeapObject::Closure(HeapClosure { function: func, upvalues: Vec::new() }))
    }

    /// Compiles statements in order; `false` as soon as one does not compile
    /// (a name is unbound, or an operator is used in the wrong kind of
    /// expression), with the code compiled up to there left in place.
    pub fn compile_stmts_checked(&mut self, stmts: &[Stmt], heap: &mut Heap) -> (ok: bool)
        ensures
            ok == c_stmts(old(self).state(old(heap)@), stmts_view(stmts@)) is Some,
            ok ==> c_stmts(old(self).state(old(heap)@), stmts_view(stmts@)) == Some(
                final(self).state(final(heap)@),
            ),
            ok ==> final(self).code@.len() >= old(self).code@.len(),
        decreases stmts@, 2int,
    {
        let ghost st0 = self.state(heap@);
        let ghost full = stmts_view(stmts@);
        let mut i: usize = 0;
        assert(full.skip(0) =~= full);
        while i < stmts.len()
            invariant
                0 <= i <= stmts.len(),
                full == stmts_view(stmts@),
                st0 == old(self).state(old(heap)@),
                c_stmts(self.state(heap@), full.skip(i as int)) == c_stmts(st0, full),
                self.code@.len() >= old(self).code@.len(),
            decreases stmts.len() - i,
        {
            assert(full.skip(i as int)[0] == stmt_view(&stmts@[i as int]));
            assert(full.skip(i as int).drop_first() =~= full.skip(i + 1));
            if !self.compile_stmt(&stmts[i], heap) {
                return false;
            }
            i += 1;
        }
        true
    }

    fn compile_expr(&mut self, expr: &Expr, heap: &mut Heap) -> (ok: bool)
        ensures
            ok == c_expr(old(self).state(old(heap)@), expr_view(expr)) is Some,
            ok ==> c_expr(old(self).state(old(heap)@), expr_view(expr)) == Some(final(self).state(final(heap)@)),
            ok ==> final(self).code@.len() >= old(self).code@.len(),
        decreases expr, 1int,
    {
        proof {
            lemma_expr_view(expr);
        }
        match expr {
            Expr::StringLit(val) => {
                let v = heap.alloc_string(val.as_str());
                self.load_constant(v);
                true
            },
            Expr::NumberLit(value) => {
                self.load_constant(Value::from_smi(*value));
                true
            },
            Expr::Ident(name) => {
                match self.symbols.get(name) {
                    Some(reg) => {
                        self.code.push(ByteCode::Ldar.to_byte());
                        self.code.push((reg % 256) as u8);
                        true
                    },
                    None => false,
                }
            },
            Expr::Binary { op, left, right } => {
                if !self.compile_expr(left, heap) {
                    return false;
                }
                let reg = self.store_to_new_reg();
                if !self.compile_expr(right, heap) {
                    return false;
                }
                let b = match op {
                    Op::Add => ByteCode::Add,
                    Op::Sub => ByteCode::Sub,
                    Op::Mul => ByteCode::Mul,
                    Op::Div => ByteCode::Div,
                    _ => {
                        return false;
                    },
                };
                self.code.push(b.to_byte());
                self.code.push((reg % 256) as u8);
                true
            },
            Expr::Bool { op, left, right } => {
                if !self.compile_expr(left, heap) {
                    return false;
                }
                let reg = self.store_to_new_reg();
                if !self.compile_expr(right, heap) {
                    return false;
                }
                let b = match op {
                    Op::Lt => ByteCode::TestLess,
                    Op::Gt => ByteCode::TestGreater,
                    Op::Lte => ByteCode::TestLessEqual,
                    Op::Gte => ByteCode::TestGreaterEqual,
                    Op::Equal => ByteCode::TestEqual,
                    Op::NotEqual => ByteCode::TestNotEqual,
                    Op::And => ByteCode::LogicalAnd,
                    Op::Or => ByteCode::LogicalOr,
                    _ => {
                        return false;
                    },
                };
                self.code.push(b.to_byte());
                self.code.push((reg % 256) as u8);
                true
            },
            Expr::Call { .. } => self.compile_call(expr, heap),
            Expr::Not(operand) => {
                if !self.compile_expr(operand, heap) {
                    return false;
                }
                self.code.push(ByteCode::LogicalNot.to_byte());
                true
            },
        }
    }

    /// Compiles a call: the arguments into fresh registers, gathered just
    /// below the next register, then the `Call` of the named function.
    fn compile_call(&mut self, expr: &Expr, heap: &mut Heap) -> (ok: bool)
        requires
            expr is Call,
        ensures
            ok == c_expr(old(self).state(old(heap)@), expr_view(expr)) is Some,
            ok ==> c_expr(old(self).state(old(heap)@), expr_view(expr)) == Some(final(self).state(final(heap)@)),
            ok ==> final(self).code@.len() >= old(self).code@.len(),
        decreases expr, 0int,
    {
        proof {
            lemma_expr_view(expr);
        }
        match expr {
            Expr::Call { func, args } => {
                let ghost st0 = self.state(heap@);
                let ghost full = exprs_view(args@);
                let ghost all = c_args(st0, full);
                let mut regs: Vec<usize> = Vec::new();
                let mut i: usize = 0;
                assert(full.skip(0) =~= full);
                #[verifier::loop_isolation(false)]
                while i < args.len()
                    invariant
                        0 <= i <= args.len(),
                        full == exprs_view(args@),
                        st0 == old(self).state(old(heap)@),
                        expr_view(expr) == (SpecExpr::Call { func: func@, args: full }),
                        all == c_args(st0, full),
                        regs@.len() == i,
                        match c_args(self.state(heap@), full.skip(i as int)) {
                            Some((s, rs)) => all == Some((s, regs@ + rs)),
                            None => all is None,
                        },
                        self.code@.len() >= old(self).code@.len(),
                    decreases args.len() - i,
                {
                    proof {
                        assert(decreases_to!(*expr => *args));
                        assert(decreases_to!(args => args[i as int]));
                    }
                    assert(full.skip(i as int)[0] == expr_view(&args@[i as int]));
                    assert(full.skip(i as int).drop_first() =~= full.skip(i + 1));
                    if !self.compile_expr(&args[i], heap) {
                        return false;
                    }
                    let ghost s1 = self.state(heap@);
                    let r = self.store_to_new_reg();
                    proof {
                        match c_args(self.state(heap@), full.skip(i + 1)) {
                            Some((s, rs)) => {
                                assert(regs@.push(r) + rs =~= regs@ + (seq![s1.next_reg] + rs));
                            },
                            None => {},
                        }
                    }
                    regs.push(r);
                    i += 1;
                }
                let ghost s1 = self.state(heap@);
                assert(full.skip(i as int) =~= Seq::<SpecExpr>::empty());
                assert(regs@ + Seq::<usize>::empty() =~= regs@);
                assert(all == Some((s1, regs@)));
                self.gather(&regs, heap);
                match self.symbols.get(func) {
                    Some(func_reg) => {
                        self.code.push(ByteCode::Call.to_byte());
                        self.code.push((func_reg % 256) as u8);
                        self.code.push((self.next_reg % 256) as u8);
                        true
                    },
                    None => false,
                }
            },
            _ => false,
        }
    }

    /// Whether the registers `regs` sit, in order, just below the next register.
    fn regs_in_window(&self, regs: &Vec<usize>) -> (b: bool)
        ensures
            b == in_window(regs@, self.next_reg),
    {
        let k = regs.len();
        let n = self.next_reg % 256;
        let mut i: usize = 0;
        while i < k
            invariant
                0 <= i <= k,
                k == regs@.len(),
                n == self.next_reg % 256,
                forall|j: int|
                    0 <= j < i ==> (regs@[j] as int) % 256 == ((self.next_reg as int) % 256 + 256 - (k - j) % 256)
                        % 256,
            decreases k - i,
        {
            if regs[i] % 256 != (n + 256 - (k - i) % 256) % 256 {
                return false;
            }
            i += 1;
        }
        true
    }

    /// Brings the argument registers together just below the next register.
    fn gather(&mut self, regs: &Vec<usize>, heap: &Heap)
        ensures
            final(self).state(heap@) == gathered(old(self).state(heap@), regs@),
            final(self).code@.len() >= old(self).code@.len(),
    {
        proof {
            reveal(gathered);
        }
        if self.regs_in_window(regs) {
            return;
        }
        let ghost st0 = self.state(heap@);
        let mut i: usize = 0;
        assert(regs@.skip(0) =~= regs@);
        while i < regs.len()
            invariant
                0 <= i <= regs.len(),
                !in_window(regs@, st0.next_reg),
                copy_to_fresh(self.state(heap@), regs@.skip(i as int)) == copy_to_fresh(st0, regs@),
                self.code@.len() >= old(self).code@.len(),
            decreases regs.len() - i,
        {
            let ghost s = self.state(heap@);
            assert(regs@.skip(i as int).drop_first() =~= regs@.skip(i + 1));
            self.code.push(ByteCode::Ldar.to_byte());
            self.code.push((regs[i] % 256) as u8);
            assert(self.state(heap@) =~= emit(s, seq![op_byte(ByteCode::Ldar), byte_of(regs@[i as int] as int)]));
            self.store_to_new_reg();
            i += 1;
        }
        assert(regs@.skip(i as int) =~= Seq::<usize>::empty());
    }

    fn compile_stmt(&mut self, stmt: &Stmt, heap: &mut Heap) -> (ok: bool)
        ensures
            ok == c_stmt(old(self).state(old(heap)@), stmt_view(stmt)) is Some,
            ok ==> c_stmt(old(self).state(old(heap)@), stmt_view(stmt)) == Some(final(self).state(final(heap)@)),
            ok ==> final(self).code@.len() >= old(self).code@.len(),
        decreases stmt, 2int,
    {
        proof {
            lemma_stmt_view(stmt);
        }
        match stmt {
            Stmt::VarDecl { name, value, .. } => {
                let ghost st0 = self.state(heap@);
                if !self.compile_expr(value, heap) {
                    assert(c_expr(st0, expr_view(value)) is None);
                    return false;
                }
                let ghost s1 = self.state(heap@);
                assert(c_expr(st0, expr_view(value)) == Some(s1));
                let reg = self.alloc_reg();
                self.symbols.insert(name.clone(), reg);
                self.code.push(ByteCode::Star.to_byte());
                self.code.push((reg % 256) as u8);
                assert(self.state(heap@) =~= CState {
                    next_reg: next_register(s1.next_reg),
                    symbols: table_insert(s1.symbols, name@, s1.next_reg),
                    code: s1.code + seq![op_byte(ByteCode::Star), byte_of(s1.next_reg as int)],
                    ..s1
                });
                assert(c_stmt(st0, stmt_view(stmt)) == Some(self.state(heap@)));
                assert(st0 == old(self).state(old(heap)@));
                true
            },
            Stmt::Assign { name, value } => {
                if !self.compile_expr(value, heap) {
                    return false;
                }
                match self.symbols.get(name) {
                    Some(reg) => {
                        self.code.push(ByteCode::Star.to_byte());
                        self.code.push((reg % 256) as u8);
                        true
                    },
                    None => false,
                }
            },
            Stmt::Return(value) => {
                if !self.compile_expr(value, heap) {
                    return false;
                }
                self.code.push(ByteCode::Return.to_byte());
                true
            },
            Stmt::ExprStmt(expr) => {
                let ghost st0 = self.state(heap@);
                let ok = self.compile_expr(expr, heap);
                assert(c_stmt(st0, stmt_view(stmt)) == c_expr(st0, expr_view(expr)));
                ok
            },
            Stmt::Cond { .. } => self.compile_cond(stmt, heap),
            Stmt::WhileLoop { .. } => self.compile_while(stmt, heap),
            Stmt::ForLoop { .. } => self.compile_for(stmt, heap),
            Stmt::FuncDecl { name, params, body } => {
                let ghost st0 = self.state(heap@);
                let ok = self.compile_func_decl(name, params, body, heap);
                assert(c_stmt(st0, stmt_view(stmt)) == c_func_decl(
                    st0,
                    name@,
                    names_view(params@),
                    stmts_view(body@),
                ));
                ok
            },
        }
    }

    #[verifier::rlimit(100)]
    #[verifier::spinoff_prover]
    fn compile_cond(&mut self, stmt: &Stmt, heap: &mut Heap) -> (ok: bool)
        requires
            stmt is Cond,
        ensures
            ok == c_stmt(old(self).state(old(heap)@), stmt_view(stmt)) is Some,
            ok ==> c_stmt(old(self).state(old(heap)@), stmt_view(stmt)) == Some(final(self).state(final(heap)@)),
            ok ==> final(self).code@.len() >= old(self).code@.len(),
        decreases stmt, 0int,
    {
        proof {
            lemma_stmt_view(stmt);
        }
        match stmt {
            Stmt::Cond { condition, body, alternate } => {
                if !self.compile_expr(condition, heap) {
                    return false;
                }
                let jump_false = self.emit_jump(ByteCode::JumpIfFalse);
                if !self.compile_stmts_checked(body.as_slice(), heap) {
                    return false;
                }
                match alternate {
                    Some(alt) => {
                        let jump = self.emit_jump(ByteCode::Jump);
                        self.patch_jump(jump_false);
                        if !self.compile_stmts_checked(alt.as_slice(), heap) {
                            return false;
                        }
                        self.patch_jump(jump);
                    },
                    None => {
                        self.patch_jump(jump_false);
                    },
                }
                true
            },
            _ => false,
        }
    }

    #[verifier::rlimit(100)]
    #[verifier::spinoff_prover]
    fn compile_while(&mut self, stmt: &Stmt, heap: &mut Heap) -> (ok: bool)
        requires
            stmt is WhileLoop,
        ensures
            ok == c_stmt(old(self).state(old(heap)@), stmt_view(stmt)) is Some,
            ok ==> c_stmt(old(self).state(old(heap)@), stmt_view(stmt)) == Some(final(self).state(final(heap)@)),
            ok ==> final(self).code@.len() >= old(self).code@.len(),
        decreases stmt, 0int,
    {
        proof {
            lemma_stmt_view(stmt);
        }
        match stmt {
            Stmt::WhileLoop { condition, body } => {
                let loop_start = self.code.len();
                if !self.compile_expr(condition, heap) {
                    return false;
                }
                let exit_jump = self.emit_jump(ByteCode::JumpIfFalse);
                if !self.compile_stmts_checked(body.as_slice(), heap) {
                    return false;
                }
                let loop_offset = (self.code.len() - loop_start) % 256 + 2;
                self.code.push(ByteCode::JumpLoop.to_byte());
                self.code.push((loop_offset % 256) as u8);
                self.patch_jump(exit_jump);
                true
            },
            _ => false,
        }
    }

    fn compile_for(&mut self, stmt: &Stmt, heap: &mut Heap) -> (ok: bool)
        requires
            stmt is ForLoop,
        ensures
            ok == c_stmt(old(self).state(old(heap)@), stmt_view(stmt)) is Some,
            ok ==> c_stmt(old(self).state(old(heap)@), stmt_view(stmt)) == Some(final(self).state(final(heap)@)),
            ok ==> final(self).code@.len() >= old(self).code@.len(),
        decreases stmt, 1int,
    {
        proof {
            lemma_stmt_view(stmt);
        }
        let ghost st0 = self.state(heap@);
        proof {
            lemma_for_split(st0, stmt_view(stmt));
        }
        match stmt {
            Stmt::ForLoop { init, .. } => {
                if !self.compile_stmt(init, heap) {
                    return false;
                }
                let ghost s0 = self.state(heap@);
                assert(c_stmt(st0, stmt_view(init)) == Some(s0));
                let ok = self.compile_for_tail(stmt, heap);
                assert(c_stmt(st0, stmt_view(stmt)) == for_tail(s0, stmt_view(stmt)));
                ok
            },
            _ => false,
        }
    }

    /// Compiles what follows the initialiser of a `for` loop.
    #[verifier::rlimit(100)]
    #[verifier::spinoff_prover]
    fn compile_for_tail(&mut self, stmt: &Stmt, heap: &mut Heap) -> (ok: bool)
        requires
            stmt is ForLoop,
        ensures
            ok == for_tail(old(self).state(old(heap)@), stmt_view(stmt)) is Some,
            ok ==> for_tail(old(self).state(old(heap)@), stmt_view(stmt)) == Some(final(self).state(final(heap)@)),
            ok ==> final(self).code@.len() >= old(self).code@.len(),
        decreases stmt, 0int,
    {
        proof {
            lemma_stmt_view(stmt);
        }
        match stmt {
            Stmt::ForLoop { condition, body, update, .. } => {
                let loop_start = self.code.len();
                if !self.compile_expr(condition, heap) {
                    return false;
                }
                let exit_jump = self.emit_jump(ByteCode::JumpIfFalse);
                if !self.compile_stmts_checked(body.as_slice(), heap) {
                    return false;
                }
                self.compile_for_close(update, loop_start, exit_jump, heap)
            },
            _ => false,
        }
    }

    /// Compiles the update of a `for` loop and closes the loop.
    #[verifier::rlimit(100)]
    #[verifier::spinoff_prover]
    fn compile_for_close(&mut self, update: &Stmt, loop_start: usize, exit_jump: usize, heap: &mut Heap) -> (ok: bool)
        requires
            loop_start <= old(self).code@.len(),
            exit_jump < old(self).code@.len(),
        ensures
            ok == for_close(old(self).state(old(heap)@), stmt_view(update), loop_start as int, exit_jump as int) is Some,
            ok ==> for_close(old(self).state(old(heap)@), stmt_view(update), loop_start as int, exit_jump as int)
                == Some(final(self).state(final(heap)@)),
            ok ==> final(self).code@.len() >= old(self).code@.len(),
        decreases update, 3int,
    {
        proof {
            reveal(for_close);
        }
        let ghost s3 = self.state(heap@);
        if !self.compile_stmt(update, heap) {
            return false;
        }
        let ghost s4 = self.state(heap@);
        let loop_offset = (self.code.len() - loop_start) % 256 + 2;
        assert((loop_offset % 256) as u8 == byte_of(s4.code.len() + 2 - loop_start));
        self.code.push(ByteCode::JumpLoop.to_byte());
        self.code.push((loop_offset % 256) as u8);
        let ghost s5 = self.state(heap@);
        assert(s5 =~= emit(s4, seq![op_byte(ByteCode::JumpLoop), byte_of(s4.code.len() + 2 - loop_start)]));
        self.patch_jump(exit_jump);
        assert(self.state(heap@) =~= patch(s5, exit_jump as int));
        true
    }
}

impl Compiler {
    /// A fresh compiler for the body of a function with parameters `params`
    /// that sees the functions `closures`.
    fn new_child(params: &Vec<String>, closures: &SymbolTable<Value>, Ghost(h): Ghost<Seq<Option<SpecObject>>>) -> (c: Compiler)
        ensures
            c.state(h) == prelude(
                CState {
                    closures: closures@,
                    ..bind_params(CState { param_count: params.len() as usize, ..empty_state(h) }, names_view(params@))
                },
                closures@,
            ),
    {
        let ghost pv = names_view(params@);
        let mut child = Compiler::init();
        proof {
            assert(child.state(h) == empty_state(h));
        }
        child.param_count = params.len();
        let ghost child0 = child.state(h);
        assert(child0 =~= CState { param_count: params.len() as usize, ..empty_state(h) });
        let mut i: usize = 0;
        assert(pv.skip(0) =~= pv);
        while i < params.len()
            invariant
                0 <= i <= params.len(),
                pv == names_view(params@),
                bind_params(child.state(h), pv.skip(i as int)) == bind_params(child0, pv),
            decreases params.len() - i,
        {
            assert(pv.skip(i as int)[0] == params@[i as int]@);
            assert(pv.skip(i as int).drop_first() =~= pv.skip(i + 1));
            let ghost before = child.state(h);
            let r = child.alloc_reg();
            child.symbols.insert(params[i].clone(), r);
            assert(child.state(h) =~= bind_new_reg(before, pv.skip(i as int)[0]));
            i += 1;
        }
        assert(pv.skip(i as int) =~= Seq::<Seq<char>>::empty());
        let ghost child1 = child.state(h);
        child.closures = closures.duplicate();
        let ghost cl = closures@;
        let ghost child2s = child.state(h);
        assert(child2s =~= CState { closures: cl, ..child1 });
        let mut k: usize = 0;
        assert(cl.skip(0) =~= cl);
        while k < closures.len()
            invariant
                0 <= k <= cl.len(),
                cl == closures@,
                prelude(child.state(h), cl.skip(k as int)) == prelude(child2s, cl),
            decreases cl.len() - k,
        {
            let (fn_name, fn_val) = closures.entry(k);
            let ghost before = child.state(h);
            let ghost s1 = load_const(before, fn_val);
            child.load_constant(fn_val);
            assert(child.state(h) == s1);
            let creg = child.alloc_reg();
            child.symbols.insert(fn_name, creg);
            child.code.push(ByteCode::Star.to_byte());
            child.code.push((creg % 256) as u8);
            assert(cl.skip(k as int)[0] == cl[k as int]);
            assert(cl.skip(k as int).drop_first() =~= cl.skip(k + 1));
            assert(child.state(h) =~= CState {
                next_reg: next_register(s1.next_reg),
                symbols: table_insert(s1.symbols, cl[k as int].0, s1.next_reg),
                code: s1.code + seq![op_byte(ByteCode::Star), byte_of(s1.next_reg as int)],
                ..s1
            });
            k += 1;
        }
        assert(cl.skip(k as int) =~= Seq::<(Seq<char>, Value)>::empty());
        child
    }

    fn compile_func_decl(&mut self, name: &String, params: &Vec<String>, body: &Vec<Stmt>, heap: &mut Heap) -> (ok: bool)
        ensures
            ok == c_func_decl(old(self).state(old(heap)@), name@, names_view(params@), stmts_view(body@)) is Some,
            ok ==> c_func_decl(old(self).state(old(heap)@), name@, names_view(params@), stmts_view(body@))
                == Some(final(self).state(final(heap)@)),
            ok ==> final(self).code@.len() >= old(self).code@.len(),
        decreases body@, 3int,
    {
        let ghost st = self.state(heap@);
        let pf = heap.allocate(
            HeapObject::Function(
                BytecodeFunction {
                    code: Vec::new(),
                    constant_pool: Vec::new(),
                    param_count: params.len(),
                    register_count: 0,
                },
            ),
        );
        let cv = heap.allocate(HeapObject::Closure(HeapClosure { function: pf, upvalues: Vec::new() }));
        let ghost h2 = heap@;
        let ghost s0 = CState { heap: h2, ..st };
        assert(self.state(heap@) == s0);
        self.load_constant(cv);
        assert(self.state(heap@) == load_const(s0, cv));
        let reg = self.store_to_new_reg();
        assert(self.state(heap@) == store_new_reg(load_const(s0, cv)));
        self.symbols.insert(name.clone(), reg);
        self.closures.insert(name.clone(), cv);
        let ghost sp = self.state(heap@);
        let mut child = Compiler::new_child(params, &self.closures, Ghost(h2));
        if !child.compile_stmts_checked(body.as_slice(), heap) {
            return false;
        }
        let rf = heap.allocate(
            HeapObject::Function(
                BytecodeFunction {
                    code: child.code,
                    constant_pool: child.constant_pool,
                    param_count: child.param_count,
                    register_count: child.next_reg,
                },
            ),
        );
        proof {
            reveal(patched);
        }
        match heap.get(cv) {
            Some(HeapObject::Closure(_)) => {},
            _ => {
                return false;
            },
        }
        heap.patch_closure(cv, rf);
        assert(self.state(heap@) =~= CState { heap: heap@, ..sp });
        true
    }
}

} // verus!
