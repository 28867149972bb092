use vstd::prelude::*;

use crate::ast::{Op, SpecExpr, SpecStmt};
use crate::bytecode::{ByteCode, CState, arith_op, c_expr, c_stmt, c_stmts, emit, load_const, op_byte, store_new_reg, test_op};
use crate::heap::{SpecObject, allocated, first_free, lemma_allocate_keeps_objects, lemma_allocate_reads_back, lemma_first_free, object_at};
use crate::machine::{
    VmState, closure_function, combine, final_state, flag, halts, halts_within, lemma_final_unique, popped, run_steps, smi,
    start, step, with_acc, with_pc,
};
use crate::bytecode::{empty_state, finalized, function_of, next_ref};
use crate::isolate::{eval_start, value_text};
use crate::lex::lex_spec;
use crate::parser::p_program;
use crate::text::decimal;
use crate::symbols::{lemma_get_after_insert, table_get, table_insert};
use crate::value::{Value, lemma_smi_roundtrip, smi_max, smi_min};

verus! {

/// An integer a Smi can hold.
pub open spec fn in_smi(n: int) -> bool {
    smi_min() <= n <= smi_max()
}

/// Keeps an integer result that a Smi can hold.
pub open spec fn checked(n: int) -> Option<int> {
    if in_smi(n) {
        Some(n)
    } else {
        None
    }
}

/// The value of an integer expression in the environment `env`, computed
/// directly on the syntax tree: arithmetic on integers (division rounding
/// toward zero), comparisons and logic giving 1 or 0. `None` for names not in `env`, strings, calls, a
/// division by zero, and any result a Smi cannot hold.
pub open spec fn eval_expr(env: Map<Seq<char>, int>, e: SpecExpr) -> Option<int>
    decreases e,
{
    match e {
        SpecExpr::NumberLit(n) => checked(n as int),
        SpecExpr::Ident(x) => if env.contains_key(x) {
            Some(env[x])
        } else {
            None
        },
        SpecExpr::Binary { op, left, right } => match (eval_expr(env, *left), eval_expr(env, *right)) {
            (Some(a), Some(b)) => match op {
                Op::Add => checked(a + b),
                Op::Sub => checked(a - b),
                Op::Mul => checked(a * b),
                Op::Div => match (a as i64).checked_div(b as i64) {
                    Some(q) => checked(q as int),
                    None => None,
                },
                _ => None,
            },
            _ => None,
        },
        SpecExpr::Bool { op, left, right } => match (eval_expr(env, *left), eval_expr(env, *right)) {
            (Some(a), Some(b)) => match op {
                Op::Lt => Some(if a < b { 1int } else { 0 }),
                Op::Gt => Some(if a > b { 1int } else { 0 }),
                Op::Lte => Some(if a <= b { 1int } else { 0 }),
                Op::Gte => Some(if a >= b { 1int } else { 0 }),
                Op::Equal => Some(if a == b { 1int } else { 0 }),
                Op::NotEqual => Some(if a != b { 1int } else { 0 }),
                Op::And => Some(if a != 0 && b != 0 { 1int } else { 0 }),
                Op::Or => Some(if a != 0 || b != 0 { 1int } else { 0 }),
                _ => None,
            },
            _ => None,
        },
        SpecExpr::Not(inner) => match eval_expr(env, *inner) {
            Some(a) => Some(if a == 0 { 1int } else { 0 }),
            None => None,
        },
        _ => None,
    }
}

/// The number of instructions an expression compiles to.
pub open spec fn instr_count(e: SpecExpr) -> nat
    decreases e,
{
    match e {
        SpecExpr::Binary { left, right, .. } => instr_count(*left) + instr_count(*right) + 2,
        SpecExpr::Bool { left, right, .. } => instr_count(*left) + instr_count(*right) + 2,
        SpecExpr::Not(inner) => instr_count(*inner) + 1,
        _ => 1,
    }
}

/// The number of registers an expression's temporaries take.
pub open spec fn temps(e: SpecExpr) -> nat
    decreases e,
{
    match e {
        SpecExpr::Binary { left, right, .. } => temps(*left) + temps(*right) + 1,
        SpecExpr::Bool { left, right, .. } => temps(*left) + temps(*right) + 1,
        SpecExpr::Not(inner) => temps(*inner),
        _ => 0,
    }
}

/// `code` is the start of `full`.
pub open spec fn starts(full: Seq<u8>, code: Seq<u8>) -> bool {
    code.len() <= full.len() && forall|i: int| 0 <= i < code.len() ==> #[trigger] full[i] == code[i]
}

/// `cons` is the start of `full`.
pub open spec fn cons_start(full: Seq<Value>, cons: Seq<Value>) -> bool {
    cons.len() <= full.len() && forall|i: int| 0 <= i < cons.len() ==> #[trigger] full[i] == cons[i]
}

/// The code the top frame runs.
pub open spec fn top_code(m: VmState) -> Seq<u8> {
    closure_function(m.heap, m.frames.last().closure)->0->code
}

/// The constants of the code the top frame runs.
pub open spec fn top_consts(m: VmState) -> Seq<Value> {
    closure_function(m.heap, m.frames.last().closure)->0->constant_pool
}

/// The top frame is moved to `pc`, with nothing else changed.
pub open spec fn moved(m: VmState, pc: int) -> VmState {
    with_pc(m, pc)->0
}

/// The state after the top frame's instruction at its `pc`, whose opcode is
/// `op` and operand `x`, when that instruction only reads the accumulator
/// and a register.
proof fn lemma_step_operand(m: VmState, op: ByteCode, x: u8)
    requires
        m.frames.len() > 0,
        closure_function(m.heap, m.frames.last().closure) is Some,
        m.frames.last().pc + 2 <= top_code(m).len(),
        top_code(m).len() <= usize::MAX,
        top_code(m)[m.frames.last().pc as int] == op_byte(op),
        top_code(m)[m.frames.last().pc + 1] == x,
        op != ByteCode::Push && op != ByteCode::Return && op != ByteCode::LogicalNot && op != ByteCode::Call,
    ensures
        step(m) == crate::machine::with_operand(
            m,
            op,
            top_code(m),
            top_consts(m),
            m.frames.last().pc + 1,
            x,
        ),
{
    crate::bytecode::lemma_decode_op_byte(op);
}

/// The registers of the names in `env` hold their values: each name is
/// bound to a register below `next_reg`, and that register of the top frame
/// holds the name's value as a Smi.
pub open spec fn agrees(env: Map<Seq<char>, int>, symbols: Seq<(Seq<char>, usize)>, next_reg: usize, m: VmState) -> bool {
    forall|x: Seq<char>|
        #[trigger] env.contains_key(x) ==> {
            &&& in_smi(env[x])
            &&& table_get(symbols, x) is Some
            &&& table_get(symbols, x)->0 < next_reg
            &&& m.frames.last().base_offset + table_get(symbols, x)->0 < m.slots.len()
            &&& m.slots[m.frames.last().base_offset + table_get(symbols, x)->0] == smi(env[x])
        }
}

/// What compiling an integer expression does to the compiler state: it
/// appends code and constants, takes `temps(e)` registers, and changes
/// nothing else.
#[verifier::rlimit(100)]
#[verifier::spinoff_prover]
proof fn lemma_c_expr_shape(st: CState, e: SpecExpr, env: Map<Seq<char>, int>)
    requires
        eval_expr(env, e) is Some,
        c_expr(st, e) is Some,
        st.next_reg + temps(e) < 256,
    ensures
        c_expr(st, e)->0.symbols == st.symbols,
        c_expr(st, e)->0.heap == st.heap,
        c_expr(st, e)->0.next_reg == st.next_reg + temps(e),
        starts(c_expr(st, e)->0.code, st.code),
        cons_start(c_expr(st, e)->0.cons, st.cons),
    decreases e,
{
    match e {
        SpecExpr::Binary { left, right, .. } | SpecExpr::Bool { left, right, .. } => {
            lemma_c_expr_shape(st, *left, env);
            let s1 = c_expr(st, *left)->0;
            let s1p = store_new_reg(s1);
            lemma_c_expr_shape(s1p, *right, env);
            let s3 = c_expr(s1p, *right)->0;
            let s4 = c_expr(st, e)->0;
            assert(s4.code.len() == s3.code.len() + 2);
            assert forall|i: int| 0 <= i < st.code.len() implies #[trigger] s4.code[i] == st.code[i] by {
                assert(s4.code[i] == s3.code[i]);
                assert(s3.code[i] == s1p.code[i]);
                assert(s1p.code[i] == s1.code[i]);
            }
            assert forall|i: int| 0 <= i < st.cons.len() implies #[trigger] s4.cons[i] == st.cons[i] by {
                assert(s3.cons[i] == s1p.cons[i]);
            }
        },
        SpecExpr::Not(inner) => {
            lemma_c_expr_shape(st, *inner, env);
            let s1 = c_expr(st, *inner)->0;
            assert forall|i: int| 0 <= i < st.code.len() implies #[trigger] c_expr(st, e)->0.code[i]
                == st.code[i] by {
                assert(c_expr(st, e)->0.code[i] == s1.code[i]);
            }
        },
        _ => {},
    }
}

/// The state a top frame reaches when it has moved to `pc`, with the
/// accumulator `acc` and the slots `slots`.
pub open spec fn reached(m: VmState, pc: int, acc: Value, slots: Seq<Value>) -> VmState {
    VmState {
        acc,
        slots,
        frames: m.frames.update(m.frames.len() - 1, crate::machine::Frame { pc: pc as usize, ..m.frames.last() }),
        ..m
    }
}

/// What the instruction combining the accumulator with a register computes,
/// for Smi operands: `left` is the register, `right` the accumulator.
pub open spec fn op_result(op: Op, left: int, right: int) -> Option<int> {
    match op {
        Op::Add => checked(left + right),
        Op::Sub => checked(left - right),
        Op::Mul => checked(left * right),
        Op::Div => match (left as i64).checked_div(right as i64) {
            Some(q) => checked(q as int),
            None => None,
        },
        Op::Lt => Some(if left < right { 1int } else { 0 }),
        Op::Gt => Some(if left > right { 1int } else { 0 }),
        Op::Lte => Some(if left <= right { 1int } else { 0 }),
        Op::Gte => Some(if left >= right { 1int } else { 0 }),
        Op::Equal => Some(if left == right { 1int } else { 0 }),
        Op::NotEqual => Some(if left != right { 1int } else { 0 }),
        Op::And => Some(if left != 0 && right != 0 { 1int } else { 0 }),
        Op::Or => Some(if left != 0 || right != 0 { 1int } else { 0 }),
    }
}

/// One step of fuel runs one step.
proof fn lemma_one_step(m: VmState)
    requires
        m.frames.len() > 0,
    ensures
        run_steps(m, 1) == step(m),
{
    reveal_with_fuel(run_steps, 2);
}

/// Moving the top frame twice is moving it once, to the second place.
proof fn lemma_reached_twice(m: VmState, p1: int, a1: Value, s1: Seq<Value>, p2: int, a2: Value, s2: Seq<Value>)
    requires
        m.frames.len() > 0,
    ensures
        reached(reached(m, p1, a1, s1), p2, a2, s2) == reached(m, p2, a2, s2),
{
    assert(reached(reached(m, p1, a1, s1), p2, a2, s2).frames =~= reached(m, p2, a2, s2).frames);
}

/// The facts a single-instruction lemma needs about the top frame.
pub open spec fn at_instruction(m: VmState, width: int) -> bool {
    &&& m.frames.len() > 0
    &&& closure_function(m.heap, m.frames.last().closure) is Some
    &&& m.frames.last().pc + width <= top_code(m).len()
    &&& top_code(m).len() <= usize::MAX
}

proof fn lemma_load_step(m: VmState, x: u8)
    requires
        at_instruction(m, 2),
        top_code(m)[m.frames.last().pc as int] == op_byte(ByteCode::LdaSmi),
        top_code(m)[m.frames.last().pc + 1] == x,
        (x as int) < top_consts(m).len(),
    ensures
        run_steps(m, 1) == Some(reached(m, m.frames.last().pc + 2, top_consts(m)[x as int], m.slots)),
{
    lemma_step_operand(m, ByteCode::LdaSmi, x);
    lemma_one_step(m);
    assert(step(m)->0.frames =~= reached(m, m.frames.last().pc + 2, top_consts(m)[x as int], m.slots).frames);
}

proof fn lemma_ldar_step(m: VmState, x: u8)
    requires
        at_instruction(m, 2),
        top_code(m)[m.frames.last().pc as int] == op_byte(ByteCode::Ldar),
        top_code(m)[m.frames.last().pc + 1] == x,
        m.frames.last().base_offset + x < m.slots.len(),
    ensures
        run_steps(m, 1) == Some(
            reached(m, m.frames.last().pc + 2, m.slots[m.frames.last().base_offset + x], m.slots),
        ),
{
    lemma_step_operand(m, ByteCode::Ldar, x);
    lemma_one_step(m);
    assert(step(m)->0.frames =~= reached(
        m,
        m.frames.last().pc + 2,
        m.slots[m.frames.last().base_offset + x],
        m.slots,
    ).frames);
}

proof fn lemma_star_step(m: VmState, x: u8)
    requires
        at_instruction(m, 2),
        top_code(m)[m.frames.last().pc as int] == op_byte(ByteCode::Star),
        top_code(m)[m.frames.last().pc + 1] == x,
        m.frames.last().base_offset + x < m.slots.len(),
    ensures
        run_steps(m, 1) == Some(
            reached(m, m.frames.last().pc + 2, m.acc, m.slots.update(m.frames.last().base_offset + x, m.acc)),
        ),
{
    lemma_step_operand(m, ByteCode::Star, x);
    lemma_one_step(m);
    assert(step(m)->0.frames =~= reached(
        m,
        m.frames.last().pc + 2,
        m.acc,
        m.slots.update(m.frames.last().base_offset + x, m.acc),
    ).frames);
}

proof fn lemma_op_step(m: VmState, b: ByteCode, x: u8, v: Value)
    requires
        at_instruction(m, 2),
        top_code(m)[m.frames.last().pc as int] == op_byte(b),
        top_code(m)[m.frames.last().pc + 1] == x,
        m.frames.last().base_offset + x < m.slots.len(),
        b != ByteCode::Push && b != ByteCode::Return && b != ByteCode::LogicalNot && b != ByteCode::Call,
        b != ByteCode::LdaSmi && b != ByteCode::Star && b != ByteCode::Ldar && b != ByteCode::Jump,
        b != ByteCode::JumpIfFalse && b != ByteCode::JumpLoop,
        combine(m.acc, m.heap, b, m.slots[m.frames.last().base_offset + x]) == Some((v, m.heap, false)),
    ensures
        run_steps(m, 1) == Some(reached(m, m.frames.last().pc + 2, v, m.slots)),
{
    lemma_step_operand(m, b, x);
    lemma_one_step(m);
    assert(step(m)->0.frames =~= reached(m, m.frames.last().pc + 2, v, m.slots).frames);
}

proof fn lemma_not_step(m: VmState)
    requires
        at_instruction(m, 1),
        top_code(m)[m.frames.last().pc as int] == op_byte(ByteCode::LogicalNot),
    ensures
        run_steps(m, 1) == Some(reached(m, m.frames.last().pc + 1, flag(m.acc == smi(0)), m.slots)),
{
    crate::bytecode::lemma_decode_op_byte(ByteCode::LogicalNot);
    lemma_one_step(m);
    assert(step(m)->0.frames =~= reached(m, m.frames.last().pc + 1, flag(m.acc == smi(0)), m.slots).frames);
}

/// Distinct integers of the Smi range are distinct Smis.
proof fn lemma_smi_injective(a: int, b: int)
    requires
        in_smi(a),
        in_smi(b),
    ensures
        (smi(a) == smi(b)) <==> (a == b),
{
    lemma_smi_roundtrip(a as i64);
    lemma_smi_roundtrip(b as i64);
}

/// The instruction for `op` on a Smi register value and a Smi accumulator
/// gives the Smi of `op_result`.
proof fn lemma_combine_smis(op: Op, b: ByteCode, heap: Seq<Option<SpecObject>>, left: int, right: int)
    requires
        in_smi(left),
        in_smi(right),
        arith_op(op) == Some(b) || test_op(op) == Some(b),
        op_result(op, left, right) is Some,
    ensures
        combine(smi(right), heap, b, smi(left)) == Some((smi(op_result(op, left, right)->0), heap, false)),
{
    lemma_smi_roundtrip(left as i64);
    lemma_smi_roundtrip(right as i64);
    lemma_smi_roundtrip(0);
    lemma_smi_roundtrip(1);
    lemma_smi_injective(left, 0);
    lemma_smi_injective(right, 0);
    lemma_smi_injective(left, right);
    let l = left as i64;
    let rr = right as i64;
    assert(((l as u64) << 1u64) & 1 == 0) by (bit_vector);
    assert(((rr as u64) << 1u64) & 1 == 0) by (bit_vector);
    assert(smi(1) == flag(true));
    assert(smi(0) == flag(false));
}

/// Running the code compiled from an integer expression, from its first
/// instruction, leaves the expression's value in the accumulator and the
/// frame at the end of that code, and changes no register below those the
/// expression's temporaries take.
#[verifier::rlimit(100)]
pub proof fn lemma_expr_runs(st: CState, e: SpecExpr, env: Map<Seq<char>, int>, m: VmState)
    requires
        c_expr(st, e) is Some,
        eval_expr(env, e) is Some,
        m.frames.len() > 0,
        closure_function(m.heap, m.frames.last().closure) is Some,
        starts(top_code(m), c_expr(st, e)->0.code),
        cons_start(top_consts(m), c_expr(st, e)->0.cons),
        c_expr(st, e)->0.cons.len() <= 256,
        top_code(m).len() <= usize::MAX,
        m.frames.last().pc == st.code.len(),
        st.next_reg + temps(e) < 256,
        m.frames.last().base_offset + st.next_reg + temps(e) <= m.slots.len(),
        agrees(env, st.symbols, st.next_reg, m),
    ensures
        run_steps(m, instr_count(e)) is Some,
        run_steps(m, instr_count(e))->0 == reached(
            m,
            c_expr(st, e)->0.code.len() as int,
            smi(eval_expr(env, e)->0),
            run_steps(m, instr_count(e))->0.slots,
        ),
        run_steps(m, instr_count(e))->0.slots.len() == m.slots.len(),
        forall|j: int|
            0 <= j < m.frames.last().base_offset + st.next_reg ==> #[trigger] run_steps(m, instr_count(e))->0.slots[j]
                == m.slots[j],
    decreases e, 2int,
{
    lemma_c_expr_shape(st, e, env);
    let st2 = c_expr(st, e)->0;
    let fr = m.frames.last();
    let pc = fr.pc as int;
    assert(st2.code.len() <= usize::MAX);
    match e {
        SpecExpr::NumberLit(n) => {
            let x = st.cons.len();
            assert(st2.code == st.code + seq![op_byte(ByteCode::LdaSmi), crate::bytecode::byte_of(x as int)]);
            assert(top_code(m)[pc] == st2.code[pc]);
            assert(top_code(m)[pc + 1] == st2.code[pc + 1]);
            assert(top_consts(m)[x as int] == st2.cons[x as int]);
            lemma_load_step(m, crate::bytecode::byte_of(x as int));
        },
        SpecExpr::Ident(name) => {
            let r = table_get(st.symbols, name)->0;
            assert(env.contains_key(name));
            assert(st2.code == st.code + seq![op_byte(ByteCode::Ldar), crate::bytecode::byte_of(r as int)]);
            assert(top_code(m)[pc] == st2.code[pc]);
            assert(top_code(m)[pc + 1] == st2.code[pc + 1]);
            lemma_ldar_step(m, crate::bytecode::byte_of(r as int));
        },
        SpecExpr::Binary { .. } => {
            lemma_binary_runs(st, e, env, m);
        },
        SpecExpr::Bool { .. } => {
            lemma_binary_runs(st, e, env, m);
        },
        SpecExpr::Not(inner) => {
            lemma_expr_runs(st, *inner, env, m);
            let s1 = c_expr(st, *inner)->0;
            assert(st2.code == s1.code + seq![op_byte(ByteCode::LogicalNot)]);
            let m1 = run_steps(m, instr_count(*inner))->0;
            let pc1 = s1.code.len() as int;
            assert(top_code(m1) == top_code(m));
            assert(top_code(m)[pc1] == st2.code[pc1]);
            let v = eval_expr(env, *inner)->0;
            lemma_smi_injective(v, 0);
            lemma_smi_roundtrip(0);
            lemma_smi_roundtrip(1);
            lemma_not_step(m1);
            lemma_reached_twice(m, pc1, smi(v), m1.slots, pc1 + 1, flag(smi(v) == smi(0)), m1.slots);
            lemma_run_steps_add(m, instr_count(*inner), 1);
        },
        _ => {},
    }
}

/// The left operand of an operator expression.
pub open spec fn left_of(e: SpecExpr) -> SpecExpr {
    match e {
        SpecExpr::Binary { left, .. } => *left,
        SpecExpr::Bool { left, .. } => *left,
        _ => e,
    }
}

/// The right operand of an operator expression.
pub open spec fn right_of(e: SpecExpr) -> SpecExpr {
    match e {
        SpecExpr::Binary { right, .. } => *right,
        SpecExpr::Bool { right, .. } => *right,
        _ => e,
    }
}

/// The compiler state after the left operand and the store of its value.
pub open spec fn mid_state(st: CState, e: SpecExpr) -> CState {
    store_new_reg(c_expr(st, left_of(e))->0)
}

/// Where compiling an operator expression puts its pieces.
proof fn lemma_operator_shape(st: CState, e: SpecExpr, env: Map<Seq<char>, int>)
    requires
        e is Binary || e is Bool,
        c_expr(st, e) is Some,
        eval_expr(env, e) is Some,
        st.next_reg + temps(e) < 256,
    ensures
        c_expr(st, left_of(e)) is Some,
        c_expr(mid_state(st, e), right_of(e)) is Some,
        eval_expr(env, left_of(e)) is Some,
        eval_expr(env, right_of(e)) is Some,
        temps(e) == temps(left_of(e)) + temps(right_of(e)) + 1,
        instr_count(e) == instr_count(left_of(e)) + (instr_count(right_of(e)) + 2),
        c_expr(st, left_of(e))->0.next_reg == st.next_reg + temps(left_of(e)),
        mid_state(st, e).next_reg == st.next_reg + temps(left_of(e)) + 1,
        mid_state(st, e).symbols == st.symbols,
        mid_state(st, e).code == c_expr(st, left_of(e))->0.code + seq![
            op_byte(ByteCode::Star),
            crate::bytecode::byte_of(c_expr(st, left_of(e))->0.next_reg as int),
        ],
        starts(c_expr(st, e)->0.code, mid_state(st, e).code),
        starts(c_expr(st, e)->0.code, c_expr(mid_state(st, e), right_of(e))->0.code),
        cons_start(c_expr(st, e)->0.cons, c_expr(st, left_of(e))->0.cons),
        cons_start(c_expr(st, e)->0.cons, c_expr(mid_state(st, e), right_of(e))->0.cons),
        c_expr(st, e)->0.code == c_expr(mid_state(st, e), right_of(e))->0.code + seq![
            op_byte(
                if e is Binary {
                    arith_op(e->Binary_op)->0
                } else {
                    test_op(e->Bool_op)->0
                },
            ),
            crate::bytecode::byte_of(c_expr(st, left_of(e))->0.next_reg as int),
        ],
{
    lemma_c_expr_shape(st, left_of(e), env);
    let s1 = c_expr(st, left_of(e))->0;
    lemma_c_expr_shape(store_new_reg(s1), right_of(e), env);
    let s3 = c_expr(store_new_reg(s1), right_of(e))->0;
    let st2 = c_expr(st, e)->0;
    assert forall|i: int| 0 <= i < mid_state(st, e).code.len() implies #[trigger] st2.code[i] == mid_state(
        st,
        e,
    ).code[i] by {
        assert(st2.code[i] == s3.code[i]);
    }
    assert forall|i: int| 0 <= i < s3.code.len() implies #[trigger] st2.code[i] == s3.code[i] by {}
}

/// The left operand of an operator expression runs and its value is stored
/// in the first free register.
#[verifier::rlimit(100)]
#[verifier::spinoff_prover]
proof fn lemma_left_operand_runs(st: CState, e: SpecExpr, env: Map<Seq<char>, int>, m: VmState)
    requires
        e is Binary || e is Bool,
        c_expr(st, e) is Some,
        eval_expr(env, e) is Some,
        m.frames.len() > 0,
        closure_function(m.heap, m.frames.last().closure) is Some,
        starts(top_code(m), c_expr(st, e)->0.code),
        cons_start(top_consts(m), c_expr(st, e)->0.cons),
        c_expr(st, e)->0.cons.len() <= 256,
        top_code(m).len() <= usize::MAX,
        m.frames.last().pc == st.code.len(),
        st.next_reg + temps(e) < 256,
        m.frames.last().base_offset + st.next_reg + temps(e) <= m.slots.len(),
        agrees(env, st.symbols, st.next_reg, m),
    ensures
        run_steps(m, instr_count(left_of(e)) + 1) == Some(
            reached(
                m,
                mid_state(st, e).code.len() as int,
                smi(eval_expr(env, left_of(e))->0),
                run_steps(m, instr_count(left_of(e)) + 1)->0.slots,
            ),
        ),
        run_steps(m, instr_count(left_of(e)) + 1)->0.slots.len() == m.slots.len(),
        run_steps(m, instr_count(left_of(e)) + 1)->0.slots[m.frames.last().base_offset + c_expr(
            st,
            left_of(e),
        )->0.next_reg] == smi(eval_expr(env, left_of(e))->0),
        forall|j: int|
            0 <= j < m.frames.last().base_offset + st.next_reg ==> #[trigger] run_steps(
                m,
                instr_count(left_of(e)) + 1,
            )->0.slots[j] == m.slots[j],
    decreases e, 0int,
{
    lemma_operator_shape(st, e, env);
    let left = left_of(e);
    let s1 = c_expr(st, left)->0;
    let t = s1.next_reg;
    let base = m.frames.last().base_offset as int;
    let code = top_code(m);
    let st2 = c_expr(st, e)->0;
    let a = eval_expr(env, left)->0;
    assert forall|i: int| 0 <= i < s1.code.len() implies #[trigger] code[i] == s1.code[i] by {
        assert(code[i] == st2.code[i]);
        assert(st2.code[i] == mid_state(st, e).code[i]);
    }
    assert forall|i: int| 0 <= i < s1.cons.len() implies #[trigger] top_consts(m)[i] == s1.cons[i] by {
        assert(top_consts(m)[i] == st2.cons[i]);
    }
    lemma_expr_runs(st, left, env, m);
    let n_l = instr_count(left);
    let m1 = run_steps(m, n_l)->0;
    let pc1 = s1.code.len() as int;
    assert(top_code(m1) == code);
    assert(code[pc1] == st2.code[pc1]);
    assert(code[pc1 + 1] == st2.code[pc1 + 1]);
    assert(st2.code[pc1] == mid_state(st, e).code[pc1]);
    assert(st2.code[pc1 + 1] == mid_state(st, e).code[pc1 + 1]);
    lemma_star_step(m1, crate::bytecode::byte_of(t as int));
    lemma_reached_twice(m, pc1, smi(a), m1.slots, pc1 + 2, smi(a), m1.slots.update(base + t, smi(a)));
    lemma_run_steps_add(m, n_l, 1);
}

/// The case of `lemma_expr_runs` for an operator applied to two operands.
#[verifier::rlimit(100)]
#[verifier::spinoff_prover]
proof fn lemma_binary_runs(st: CState, e: SpecExpr, env: Map<Seq<char>, int>, m: VmState)
    requires
        e is Binary || e is Bool,
        c_expr(st, e) is Some,
        eval_expr(env, e) is Some,
        m.frames.len() > 0,
        closure_function(m.heap, m.frames.last().closure) is Some,
        starts(top_code(m), c_expr(st, e)->0.code),
        cons_start(top_consts(m), c_expr(st, e)->0.cons),
        c_expr(st, e)->0.cons.len() <= 256,
        top_code(m).len() <= usize::MAX,
        m.frames.last().pc == st.code.len(),
        st.next_reg + temps(e) < 256,
        m.frames.last().base_offset + st.next_reg + temps(e) <= m.slots.len(),
        agrees(env, st.symbols, st.next_reg, m),
    ensures
        run_steps(m, instr_count(e)) is Some,
        run_steps(m, instr_count(e))->0 == reached(
            m,
            c_expr(st, e)->0.code.len() as int,
            smi(eval_expr(env, e)->0),
            run_steps(m, instr_count(e))->0.slots,
        ),
        run_steps(m, instr_count(e))->0.slots.len() == m.slots.len(),
        forall|j: int|
            0 <= j < m.frames.last().base_offset + st.next_reg ==> #[trigger] run_steps(m, instr_count(e))->0.slots[j]
                == m.slots[j],
    decreases e, 1int,
{
    lemma_operator_shape(st, e, env);
    let left = left_of(e);
    let right = right_of(e);
    let op = if e is Binary {
        e->Binary_op
    } else {
        e->Bool_op
    };
    let b = if e is Binary {
        arith_op(op)->0
    } else {
        test_op(op)->0
    };
    let base = m.frames.last().base_offset as int;
    let code = top_code(m);
    let s1 = c_expr(st, left)->0;
    let t = s1.next_reg;
    let s1p = mid_state(st, e);
    let s3 = c_expr(s1p, right)->0;
    let st2 = c_expr(st, e)->0;
    let a = eval_expr(env, left)->0;
    let bv = eval_expr(env, right)->0;
    lemma_left_operand_runs(st, e, env, m);
    let n_l = instr_count(left);
    let m1s = run_steps(m, n_l + 1)->0;
    assert forall|i: int| 0 <= i < s3.code.len() implies #[trigger] top_code(m1s)[i] == s3.code[i] by {
        assert(code[i] == st2.code[i]);
    }
    assert forall|i: int| 0 <= i < s3.cons.len() implies #[trigger] top_consts(m1s)[i] == s3.cons[i] by {
        assert(top_consts(m)[i] == st2.cons[i]);
    }
    assert forall|x: Seq<char>| #[trigger] env.contains_key(x) implies {
        &&& in_smi(env[x])
        &&& table_get(s1p.symbols, x) is Some
        &&& table_get(s1p.symbols, x)->0 < s1p.next_reg
        &&& m1s.frames.last().base_offset + table_get(s1p.symbols, x)->0 < m1s.slots.len()
        &&& m1s.slots[m1s.frames.last().base_offset + table_get(s1p.symbols, x)->0] == smi(env[x])
    } by {
        let rx = table_get(st.symbols, x)->0;
        assert(m1s.slots[base + rx] == m.slots[base + rx]);
    }
    lemma_expr_runs(s1p, right, env, m1s);
    let n_r = instr_count(right);
    let m3 = run_steps(m1s, n_r)->0;
    let pc3 = s3.code.len() as int;
    assert(top_code(m3) == code);
    assert(code[pc3] == st2.code[pc3]);
    assert(code[pc3 + 1] == st2.code[pc3 + 1]);
    assert(m3.slots[base + t] == m1s.slots[base + t]);
    lemma_combine_smis(op, b, m.heap, a, bv);
    lemma_op_step(m3, b, crate::bytecode::byte_of(t as int), smi(eval_expr(env, e)->0));
    let m4 = run_steps(m3, 1)->0;
    lemma_reached_twice(m1s, pc3, smi(bv), m3.slots, pc3 + 2, smi(eval_expr(env, e)->0), m3.slots);
    lemma_reached_twice(m, s1p.code.len() as int, smi(a), m1s.slots, pc3 + 2, smi(eval_expr(env, e)->0), m3.slots);
    lemma_run_steps_add(m, n_l + 1, n_r + 1);
    lemma_run_steps_add(m1s, n_r, 1);
    assert(n_l + 1 + (n_r + 1) == instr_count(e));
    assert forall|j: int| 0 <= j < base + st.next_reg implies #[trigger] m4.slots[j] == m.slots[j] by {
        assert(m3.slots[j] == m1s.slots[j]);
    }
}

/// What a statement of a straight-line program does to the environment, and
/// the value it leaves: a declaration or an assignment binds the name to the
/// value of its expression; an expression statement only computes a value.
/// `None` for other statements, for an assignment to an unknown name, and
/// where the expression has no value.
pub open spec fn stmt_effect(env: Map<Seq<char>, int>, s: SpecStmt) -> Option<(Map<Seq<char>, int>, int)> {
    match s {
        SpecStmt::VarDecl { name, value, .. } => match eval_expr(env, value) {
            Some(v) => Some((env.insert(name, v), v)),
            None => None,
        },
        SpecStmt::Assign { name, value } => if env.contains_key(name) {
            match eval_expr(env, value) {
                Some(v) => Some((env.insert(name, v), v)),
                None => None,
            }
        } else {
            None
        },
        SpecStmt::ExprStmt(e) => match eval_expr(env, e) {
            Some(v) => Some((env, v)),
            None => None,
        },
        _ => None,
    }
}

/// The environment after a non-empty straight-line program, and the value
/// of its last statement.
pub open spec fn run_program(env: Map<Seq<char>, int>, ss: Seq<SpecStmt>) -> Option<(Map<Seq<char>, int>, int)>
    decreases ss.len(),
{
    if ss.len() == 0 {
        None
    } else {
        match stmt_effect(env, ss[0]) {
            Some((env1, v)) => if ss.len() == 1 {
                Some((env1, v))
            } else {
                run_program(env1, ss.drop_first())
            },
            None => None,
        }
    }
}

/// The expression of a straight-line statement.
pub open spec fn stmt_expr(s: SpecStmt) -> SpecExpr {
    match s {
        SpecStmt::VarDecl { value, .. } => value,
        SpecStmt::Assign { value, .. } => value,
        SpecStmt::ExprStmt(e) => e,
        _ => SpecExpr::NumberLit(0),
    }
}

/// The instructions a straight-line statement compiles to.
pub open spec fn stmt_instrs(s: SpecStmt) -> nat {
    match s {
        SpecStmt::ExprStmt(e) => instr_count(e),
        _ => instr_count(stmt_expr(s)) + 1,
    }
}

/// The registers a straight-line statement takes.
pub open spec fn stmt_regs(s: SpecStmt) -> nat {
    match s {
        SpecStmt::VarDecl { value, .. } => temps(value) + 1,
        _ => temps(stmt_expr(s)),
    }
}

/// The instructions a straight-line program compiles to.
pub open spec fn program_instrs(ss: Seq<SpecStmt>) -> nat
    decreases ss.len(),
{
    if ss.len() == 0 {
        0
    } else {
        stmt_instrs(ss[0]) + program_instrs(ss.drop_first())
    }
}

/// The registers a straight-line program takes.
pub open spec fn program_regs(ss: Seq<SpecStmt>) -> nat
    decreases ss.len(),
{
    if ss.len() == 0 {
        0
    } else {
        stmt_regs(ss[0]) + program_regs(ss.drop_first())
    }
}

/// Distinct names of `env` are bound to distinct registers.
pub open spec fn distinct_regs(env: Map<Seq<char>, int>, symbols: Seq<(Seq<char>, usize)>) -> bool {
    forall|x: Seq<char>, y: Seq<char>|
        #[trigger] env.contains_key(x) && #[trigger] env.contains_key(y) && x != y ==> table_get(symbols, x)
            != table_get(symbols, y)
}

/// Running the code of a straight-line statement leaves its value in the
/// accumulator, the frame at the end of its code, and the registers of the
/// names holding their new values.
#[verifier::rlimit(100)]
#[verifier::spinoff_prover]
proof fn lemma_stmt_runs(st: CState, s: SpecStmt, env: Map<Seq<char>, int>, m: VmState)
    requires
        c_stmt(st, s) is Some,
        stmt_effect(env, s) is Some,
        m.frames.len() > 0,
        closure_function(m.heap, m.frames.last().closure) is Some,
        starts(top_code(m), c_stmt(st, s)->0.code),
        cons_start(top_consts(m), c_stmt(st, s)->0.cons),
        c_stmt(st, s)->0.cons.len() <= 256,
        top_code(m).len() <= usize::MAX,
        m.frames.last().pc == st.code.len(),
        st.next_reg + stmt_regs(s) < 256,
        m.frames.last().base_offset + st.next_reg + stmt_regs(s) <= m.slots.len(),
        agrees(env, st.symbols, st.next_reg, m),
        distinct_regs(env, st.symbols),
    ensures
        run_steps(m, stmt_instrs(s)) is Some,
        run_steps(m, stmt_instrs(s))->0 == reached(
            m,
            c_stmt(st, s)->0.code.len() as int,
            smi((stmt_effect(env, s)->0).1),
            run_steps(m, stmt_instrs(s))->0.slots,
        ),
        run_steps(m, stmt_instrs(s))->0.slots.len() == m.slots.len(),
        c_stmt(st, s)->0.next_reg == st.next_reg + stmt_regs(s),
        starts(c_stmt(st, s)->0.code, st.code),
        cons_start(c_stmt(st, s)->0.cons, st.cons),
        agrees((stmt_effect(env, s)->0).0, c_stmt(st, s)->0.symbols, c_stmt(st, s)->0.next_reg, run_steps(m, stmt_instrs(s))->0),
        distinct_regs((stmt_effect(env, s)->0).0, c_stmt(st, s)->0.symbols),
{
    let e = stmt_expr(s);
    let s1 = c_expr(st, e)->0;
    let st1 = c_stmt(st, s)->0;
    let base = m.frames.last().base_offset as int;
    let code = top_code(m);
    lemma_c_expr_shape(st, e, env);
    assert forall|i: int| 0 <= i < s1.code.len() implies #[trigger] code[i] == s1.code[i] by {
        assert(code[i] == st1.code[i]);
        assert(st1.code[i] == s1.code[i]);
    }
    assert forall|i: int| 0 <= i < s1.cons.len() implies #[trigger] top_consts(m)[i] == s1.cons[i] by {
        assert(top_consts(m)[i] == st1.cons[i]);
    }
    lemma_expr_runs(st, e, env, m);
    let n = instr_count(e);
    let m1 = run_steps(m, n)->0;
    let v = eval_expr(env, e)->0;
    let pc1 = s1.code.len() as int;
    match s {
        SpecStmt::ExprStmt(_) => {
        },
        SpecStmt::VarDecl { name, .. } => {
            let t = s1.next_reg;
            assert(st1.code == s1.code + seq![op_byte(ByteCode::Star), crate::bytecode::byte_of(t as int)]);
            assert(code[pc1] == st1.code[pc1]);
            assert(code[pc1 + 1] == st1.code[pc1 + 1]);
            assert(top_code(m1) == code);
            lemma_star_step(m1, crate::bytecode::byte_of(t as int));
            lemma_reached_twice(m, pc1, smi(v), m1.slots, pc1 + 2, smi(v), m1.slots.update(base + t, smi(v)));
            lemma_run_steps_add(m, n, 1);
            let m2 = run_steps(m, n + 1)->0;
            let env1 = env.insert(name, v);
            assert forall|x: Seq<char>| #[trigger] env1.contains_key(x) implies {
                &&& in_smi(env1[x])
                &&& table_get(st1.symbols, x) is Some
                &&& table_get(st1.symbols, x)->0 < st1.next_reg
                &&& m2.frames.last().base_offset + table_get(st1.symbols, x)->0 < m2.slots.len()
                &&& m2.slots[m2.frames.last().base_offset + table_get(st1.symbols, x)->0] == smi(env1[x])
            } by {
                lemma_get_after_insert(s1.symbols, name, t, x);
                if x != name {
                    let rx = table_get(st.symbols, x)->0;
                    assert(m1.slots[base + rx] == m.slots[base + rx]);
                }
            }
            assert forall|x: Seq<char>, y: Seq<char>|
                #[trigger] env1.contains_key(x) && #[trigger] env1.contains_key(y) && x != y implies table_get(
                st1.symbols,
                x,
            ) != table_get(st1.symbols, y) by {
                lemma_get_after_insert(s1.symbols, name, t, x);
                lemma_get_after_insert(s1.symbols, name, t, y);
            }
            assert forall|i: int| 0 <= i < st.code.len() implies #[trigger] st1.code[i] == st.code[i] by {
                assert(st1.code[i] == s1.code[i]);
            }
        },
        SpecStmt::Assign { name, .. } => {
            let r = table_get(s1.symbols, name)->0;
            assert(st1.code == s1.code + seq![op_byte(ByteCode::Star), crate::bytecode::byte_of(r as int)]);
            assert(code[pc1] == st1.code[pc1]);
            assert(code[pc1 + 1] == st1.code[pc1 + 1]);
            assert(top_code(m1) == code);
            assert(env.contains_key(name));
            lemma_star_step(m1, crate::bytecode::byte_of(r as int));
            lemma_reached_twice(m, pc1, smi(v), m1.slots, pc1 + 2, smi(v), m1.slots.update(base + r, smi(v)));
            lemma_run_steps_add(m, n, 1);
            let m2 = run_steps(m, n + 1)->0;
            let env1 = env.insert(name, v);
            assert forall|x: Seq<char>| #[trigger] env1.contains_key(x) implies {
                &&& in_smi(env1[x])
                &&& table_get(st1.symbols, x) is Some
                &&& table_get(st1.symbols, x)->0 < st1.next_reg
                &&& m2.frames.last().base_offset + table_get(st1.symbols, x)->0 < m2.slots.len()
                &&& m2.slots[m2.frames.last().base_offset + table_get(st1.symbols, x)->0] == smi(env1[x])
            } by {
                if x != name {
                    let rx = table_get(st.symbols, x)->0;
                    assert(env.contains_key(x));
                    assert(m1.slots[base + rx] == m.slots[base + rx]);
                }
            }
            assert forall|i: int| 0 <= i < st.code.len() implies #[trigger] st1.code[i] == st.code[i] by {
                assert(st1.code[i] == s1.code[i]);
            }
        },
        _ => {},
    }
}

/// Every value an integer expression has is one a Smi can hold.
proof fn lemma_eval_in_smi(env: Map<Seq<char>, int>, e: SpecExpr)
    requires
        eval_expr(env, e) is Some,
        forall|x: Seq<char>| #[trigger] env.contains_key(x) ==> in_smi(env[x]),
    ensures
        in_smi(eval_expr(env, e)->0),
    decreases e,
{
    match e {
        SpecExpr::Binary { left, right, .. } | SpecExpr::Bool { left, right, .. } => {
            lemma_eval_in_smi(env, *left);
            lemma_eval_in_smi(env, *right);
        },
        SpecExpr::Not(inner) => {
            lemma_eval_in_smi(env, *inner);
        },
        _ => {},
    }
}

/// An integer expression whose names are all bound compiles.
proof fn lemma_c_expr_some(st: CState, e: SpecExpr, env: Map<Seq<char>, int>)
    requires
        eval_expr(env, e) is Some,
        forall|x: Seq<char>| #[trigger] env.contains_key(x) ==> table_get(st.symbols, x) is Some,
        st.next_reg + temps(e) < 256,
    ensures
        c_expr(st, e) is Some,
    decreases e,
{
    match e {
        SpecExpr::Binary { left, right, .. } | SpecExpr::Bool { left, right, .. } => {
            lemma_c_expr_some(st, *left, env);
            lemma_c_expr_shape(st, *left, env);
            lemma_c_expr_some(store_new_reg(c_expr(st, *left)->0), *right, env);
        },
        SpecExpr::Not(inner) => {
            lemma_c_expr_some(st, *inner, env);
        },
        _ => {},
    }
}

/// What compiling a straight-line program does to the compiler state: it
/// compiles, appends code and constants, takes `program_regs` registers,
/// binds every name the program binds, and leaves the heap alone.
#[verifier::rlimit(100)]
#[verifier::spinoff_prover]
proof fn lemma_program_shape(st: CState, ss: Seq<SpecStmt>, env: Map<Seq<char>, int>)
    requires
        run_program(env, ss) is Some,
        forall|x: Seq<char>| #[trigger] env.contains_key(x) ==> table_get(st.symbols, x) is Some,
        st.next_reg + program_regs(ss) < 256,
    ensures
        c_stmts(st, ss) is Some,
        c_stmts(st, ss)->0.next_reg == st.next_reg + program_regs(ss),
        c_stmts(st, ss)->0.heap == st.heap,
        starts(c_stmts(st, ss)->0.code, st.code),
        cons_start(c_stmts(st, ss)->0.cons, st.cons),
    decreases ss.len(),
{
    let s = ss[0];
    let e = stmt_expr(s);
    lemma_c_expr_some(st, e, env);
    lemma_c_expr_shape(st, e, env);
    let s1 = c_expr(st, e)->0;
    let st1 = c_stmt(st, s)->0;
    let env1 = (stmt_effect(env, s)->0).0;
    assert(c_stmt(st, s) is Some);
    assert(st1.next_reg == st.next_reg + stmt_regs(s));
    assert(st1.heap == st.heap);
    assert forall|i: int| 0 <= i < st.code.len() implies #[trigger] st1.code[i] == st.code[i] by {
        assert(st1.code[i] == s1.code[i]);
    }
    assert forall|x: Seq<char>| #[trigger] env1.contains_key(x) implies table_get(st1.symbols, x) is Some by {
        match s {
            SpecStmt::VarDecl { name, .. } => {
                lemma_get_after_insert(s1.symbols, name, s1.next_reg, x);
            },
            _ => {},
        }
    }
    if ss.len() > 1 {
        lemma_program_shape(st1, ss.drop_first(), env1);
        let fin = c_stmts(st1, ss.drop_first())->0;
        assert forall|i: int| 0 <= i < st.code.len() implies #[trigger] fin.code[i] == st.code[i] by {
            assert(fin.code[i] == st1.code[i]);
        }
        assert forall|i: int| 0 <= i < st.cons.len() implies #[trigger] fin.cons[i] == st.cons[i] by {
            assert(fin.cons[i] == st1.cons[i]);
        }
    } else {
        assert(ss.drop_first().len() == 0);
        assert(program_regs(ss.drop_first()) == 0);
    }
}

/// Running the code of a straight-line program leaves the value of its last
/// statement in the accumulator and the frame at the end of its code.
#[verifier::rlimit(100)]
#[verifier::spinoff_prover]
proof fn lemma_program_runs(st: CState, ss: Seq<SpecStmt>, env: Map<Seq<char>, int>, m: VmState)
    requires
        run_program(env, ss) is Some,
        c_stmts(st, ss) is Some,
        m.frames.len() > 0,
        closure_function(m.heap, m.frames.last().closure) is Some,
        starts(top_code(m), c_stmts(st, ss)->0.code),
        cons_start(top_consts(m), c_stmts(st, ss)->0.cons),
        c_stmts(st, ss)->0.cons.len() <= 256,
        top_code(m).len() <= usize::MAX,
        m.frames.last().pc == st.code.len(),
        st.next_reg + program_regs(ss) < 256,
        m.frames.last().base_offset + st.next_reg + program_regs(ss) <= m.slots.len(),
        agrees(env, st.symbols, st.next_reg, m),
        distinct_regs(env, st.symbols),
    ensures
        run_steps(m, program_instrs(ss)) is Some,
        run_steps(m, program_instrs(ss))->0 == reached(
            m,
            c_stmts(st, ss)->0.code.len() as int,
            smi((run_program(env, ss)->0).1),
            run_steps(m, program_instrs(ss))->0.slots,
        ),
    decreases ss.len(),
{
    let s = ss[0];
    let e = stmt_expr(s);
    assert forall|x: Seq<char>| #[trigger] env.contains_key(x) implies table_get(st.symbols, x) is Some by {}
    lemma_program_shape(st, ss, env);
    lemma_c_expr_some(st, e, env);
    lemma_c_expr_shape(st, e, env);
    let st1 = c_stmt(st, s)->0;
    let fin = c_stmts(st, ss)->0;
    let env1 = (stmt_effect(env, s)->0).0;
    assert(c_stmt(st, s) is Some);
    if ss.len() > 1 {
        assert forall|x: Seq<char>| #[trigger] env1.contains_key(x) implies table_get(st1.symbols, x) is Some by {
            match s {
                SpecStmt::VarDecl { name, .. } => {
                    lemma_get_after_insert(c_expr(st, e)->0.symbols, name, c_expr(st, e)->0.next_reg, x);
                },
                _ => {},
            }
        }
        lemma_program_shape(st1, ss.drop_first(), env1);
    }
    assert(starts(fin.code, st1.code) && cons_start(fin.cons, st1.cons)) by {
        if ss.len() > 1 {
            lemma_program_shape(st1, ss.drop_first(), env1);
        } else {
            assert(ss.drop_first().len() == 0);
        }
    }
    assert forall|i: int| 0 <= i < st1.code.len() implies #[trigger] top_code(m)[i] == st1.code[i] by {
        assert(top_code(m)[i] == fin.code[i]);
    }
    assert forall|i: int| 0 <= i < st1.cons.len() implies #[trigger] top_consts(m)[i] == st1.cons[i] by {
        assert(top_consts(m)[i] == fin.cons[i]);
    }
    lemma_stmt_runs(st, s, env, m);
    let m1 = run_steps(m, stmt_instrs(s))->0;
    if ss.len() > 1 {
        let rest = ss.drop_first();
        assert(top_code(m1) == top_code(m));
        lemma_program_runs(st1, rest, env1, m1);
        lemma_run_steps_add(m, stmt_instrs(s), program_instrs(rest));
        let m2 = run_steps(m1, program_instrs(rest))->0;
        lemma_reached_twice(
            m,
            st1.code.len() as int,
            smi((stmt_effect(env, s)->0).1),
            m1.slots,
            fin.code.len() as int,
            smi((run_program(env, ss)->0).1),
            m2.slots,
        );
    } else {
        assert(program_instrs(ss) == stmt_instrs(s) + program_instrs(ss.drop_first()));
        assert(program_instrs(ss.drop_first()) == 0);
        assert(fin == st1);
    }
}

/// What the engine computes is what the program means: for a straight-line
/// program of declarations, assignments and expression statements over
/// integers, evaluating the source halts and prints the value of its last
/// statement. Left out are sources that take 256 or more registers or
/// constants (the operand byte addresses no more), code longer than a
/// machine word can count, and heaps whose next slots a word cannot name.
pub proof fn lemma_eval_computes_program_value(acc: Value, heap: Seq<Option<SpecObject>>, threshold: usize, src: Seq<char>)
    requires
        lex_spec(src) is Some,
        p_program(lex_spec(src)->0, 0, Seq::empty()) matches Some(ss) && run_program(Map::empty(), ss) is Some
            && program_regs(ss) < 256,
        c_stmts(empty_state(heap), p_program(lex_spec(src)->0, 0, Seq::empty())->0)->0.cons.len() <= 256,
        c_stmts(empty_state(heap), p_program(lex_spec(src)->0, 0, Seq::empty())->0)->0.code.len() < usize::MAX,
        heap.len() + 2 <= 0x7fff_ffff_ffff_ffff,
        heap.len() + 2 <= usize::MAX,
    ensures
        eval_start(acc, heap, threshold, src) is Some,
        halts(eval_start(acc, heap, threshold, src)->0),
        final_state(eval_start(acc, heap, threshold, src)->0).acc == smi(
            (run_program(Map::empty(), p_program(lex_spec(src)->0, 0, Seq::empty())->0)->0).1,
        ),
        value_text(
            final_state(eval_start(acc, heap, threshold, src)->0).heap,
            final_state(eval_start(acc, heap, threshold, src)->0).acc,
        ) == decimal((run_program(Map::empty(), p_program(lex_spec(src)->0, 0, Seq::empty())->0)->0).1),
{
    let ss = p_program(lex_spec(src)->0, 0, Seq::empty())->0;
    let env = Map::<Seq<char>, int>::empty();
    let st0 = empty_state(heap);
    lemma_program_shape(st0, ss, env);
    let fin = c_stmts(st0, ss)->0;
    let v = (run_program(env, ss)->0).1;
    // The heap after finalizing: the function, then the closure over it.
    let fobj = function_of(fin);
    let fv = next_ref(heap);
    lemma_first_free(heap);
    lemma_allocate_reads_back(heap, fobj);
    let h1 = allocated(heap, fobj);
    lemma_first_free(h1);
    let cobj = SpecObject::Closure { function: fv, upvalues: Seq::empty() };
    lemma_allocate_reads_back(h1, cobj);
    let h2 = allocated(h1, cobj);
    let cv = next_ref(h1);
    assert(finalized(fin) == (h2, cv));
    lemma_allocate_keeps_objects(h1, cobj, fv);
    assert(object_at(h2, cv) == Some(cobj));
    assert(object_at(h2, fv) == Some(fobj));
    assert(closure_function(h2, cv) == Some(fobj));
    let m0 = start(acc, h2, threshold, cv)->0;
    assert(eval_start(acc, heap, threshold, src) == Some(m0));
    assert(top_code(m0) == fin.code);
    assert(top_consts(m0) == fin.cons);
    assert(agrees(env, st0.symbols, st0.next_reg, m0));
    assert(distinct_regs(env, st0.symbols));
    lemma_program_runs(st0, ss, env, m0);
    let n = program_instrs(ss);
    let m1 = run_steps(m0, n)->0;
    assert(m1.frames.len() == 1);
    assert(top_code(m1) == fin.code);
    assert(step(m1) == Some(popped(m1)));
    lemma_one_step(m1);
    lemma_run_steps_add(m0, n, 1);
    let m2 = popped(m1);
    assert(run_steps(m2, 0) == Some(m2));
    assert(halts_within(m0, n + 1));
    let f0 = choose|fuel: nat| halts_within(m0, fuel);
    lemma_final_unique(m0, f0, n + 1);
    assert(forall|x: Seq<char>| #[trigger] env.contains_key(x) ==> in_smi(env[x]));
    lemma_program_value_in_smi(env, ss);
    lemma_smi_roundtrip(v as i64);
}

/// The value of a straight-line program is one a Smi can hold.
proof fn lemma_program_value_in_smi(env: Map<Seq<char>, int>, ss: Seq<SpecStmt>)
    requires
        run_program(env, ss) is Some,
        forall|x: Seq<char>| #[trigger] env.contains_key(x) ==> in_smi(env[x]),
    ensures
        in_smi((run_program(env, ss)->0).1),
    decreases ss.len(),
{
    let s = ss[0];
    lemma_eval_in_smi(env, stmt_expr(s));
    let env1 = (stmt_effect(env, s)->0).0;
    assert forall|x: Seq<char>| #[trigger] env1.contains_key(x) implies in_smi(env1[x]) by {}
    if ss.len() > 1 {
        lemma_program_value_in_smi(env1, ss.drop_first());
    }
}

/// Running `a` steps and then `b` more is running `a + b` steps.
pub proof fn lemma_run_steps_add(m: VmState, a: nat, b: nat)
    ensures
        run_steps(m, a + b) == match run_steps(m, a) {
            Some(m1) => run_steps(m1, b),
            None => None,
        },
    decreases a,
{
    if m.frames.len() == 0 {
    } else if a == 0 {
    } else {
        match step(m) {
            Some(m2) => {
                lemma_run_steps_add(m2, (a - 1) as nat, b);
                assert((a + b - 1) as nat == ((a - 1) as nat + b) as nat);
            },
            None => {},
        }
    }
}

/// The collection threshold does not change what a straight-line integer
/// program prints: two isolates that differ only in their thresholds end
/// with the same accumulator and print the same text.
pub proof fn lemma_threshold_keeps_program_value(
    acc: Value,
    heap: Seq<Option<SpecObject>>,
    t1: usize,
    t2: usize,
    src: Seq<char>,
)
    requires
        lex_spec(src) is Some,
        p_program(lex_spec(src)->0, 0, Seq::empty()) matches Some(ss) && run_program(Map::empty(), ss) is Some
            && program_regs(ss) < 256,
        c_stmts(empty_state(heap), p_program(lex_spec(src)->0, 0, Seq::empty())->0)->0.cons.len() <= 256,
        c_stmts(empty_state(heap), p_program(lex_spec(src)->0, 0, Seq::empty())->0)->0.code.len() < usize::MAX,
        heap.len() + 2 <= 0x7fff_ffff_ffff_ffff,
        heap.len() + 2 <= usize::MAX,
    ensures
        final_state(eval_start(acc, heap, t1, src)->0).acc == final_state(eval_start(acc, heap, t2, src)->0).acc,
        value_text(
            final_state(eval_start(acc, heap, t1, src)->0).heap,
            final_state(eval_start(acc, heap, t1, src)->0).acc,
        ) == value_text(
            final_state(eval_start(acc, heap, t2, src)->0).heap,
            final_state(eval_start(acc, heap, t2, src)->0).acc,
        ),
{
    lemma_eval_computes_program_value(acc, heap, t1, src);
    lemma_eval_computes_program_value(acc, heap, t2, src);
}

} // verus!
