use vstd::prelude::*;

use crate::bytecode::{ByteCode, decode};
use crate::heap::{
    Heap, HeapObject, SpecObject, allocated, children, first_free, lemma_allocate_keeps_objects, lemma_collect_keeps_rooted,
    lemma_child_reachable, lemma_root_reachable, live_count, object_at, swept,
};
use crate::text::{concat, str_equal};
use crate::value::Value;

verus! {

/// A call frame: where its registers start in the slot array, the next
/// instruction, and the closure whose function it runs.
#[derive(Clone, Copy)]
pub struct Frame {
    pub base_offset: usize,
    pub pc: usize,
    pub closure: Value,
}

/// The whole state of an execution: the accumulator, the heap, the register
/// slots of every frame, the frames, and the live-object count above which
/// a string allocation triggers a collection.
pub struct VmState {
    pub acc: Value,
    pub heap: Seq<Option<SpecObject>>,
    pub slots: Seq<Value>,
    pub frames: Seq<Frame>,
    pub threshold: usize,
}

/// The Smi that holds `n`.
pub open spec fn smi(n: int) -> Value {
    Value(Value::smi_bits(n as i64))
}

/// The Smi 1 for `true`, 0 for `false`.
pub open spec fn flag(b: bool) -> Value {
    if b {
        smi(1)
    } else {
        smi(0)
    }
}

/// The string at `v`'s offset, if that slot holds a string.
pub open spec fn string_at(h: Seq<Option<SpecObject>>, v: Value) -> Option<Seq<char>> {
    match object_at(h, v) {
        Some(SpecObject::String(s)) => Some(s),
        _ => None,
    }
}

/// The function of the closure at `c`: `c`'s offset must hold a closure and
/// the closure's function value must lead to a function.
pub open spec fn closure_function(h: Seq<Option<SpecObject>>, c: Value) -> Option<SpecObject> {
    match object_at(h, c) {
        Some(SpecObject::Closure { function, .. }) => match object_at(h, function) {
            Some(SpecObject::Function { code, constant_pool, param_count, register_count }) => Some(
                SpecObject::Function { code, constant_pool, param_count, register_count },
            ),
            _ => None,
        },
        _ => None,
    }
}

/// The state after the top frame's next instruction is set to `pc`; `None`
/// if `pc` does not fit in a machine word.
pub open spec fn with_pc(m: VmState, pc: int) -> Option<VmState> {
    if 0 <= pc <= usize::MAX {
        Some(
            VmState {
                frames: m.frames.update(m.frames.len() - 1, Frame { pc: pc as usize, ..m.frames.last() }),
                ..m
            },
        )
    } else {
        None
    }
}

/// The state after the top frame returns: it is removed and the slots are
/// cut back to where its registers began.
pub open spec fn popped(m: VmState) -> VmState {
    let base = m.frames.last().base_offset;
    VmState {
        frames: m.frames.drop_last(),
        slots: if (base as int) < m.slots.len() {
            m.slots.take(base as int)
        } else {
            m.slots
        },
        ..m
    }
}

/// The slot of register `r` of the top frame, if it exists.
pub open spec fn reg_slot(m: VmState, r: u8) -> Option<int> {
    let k = m.frames.last().base_offset + r;
    if k < m.slots.len() {
        Some(k)
    } else {
        None
    }
}

/// The values of `s` that are heap references, in order.
pub open spec fn heap_values(s: Seq<Value>) -> Seq<Value>
    decreases s.len(),
{
    if s.len() == 0 {
        Seq::empty()
    } else if !s.last().spec_is_smi() {
        heap_values(s.drop_last()).push(s.last())
    } else {
        heap_values(s.drop_last())
    }
}

/// The closures of the frames, bottom first.
pub open spec fn frame_closures(fs: Seq<Frame>) -> Seq<Value> {
    Seq::new(fs.len(), |i: int| fs[i].closure)
}

/// The roots of a collection: the accumulator, every frame's closure and
/// every slot that holds a heap reference.
pub open spec fn gc_roots(m: VmState) -> Seq<Value> {
    seq![m.acc] + frame_closures(m.frames) + heap_values(m.slots)
}

/// The state after a string allocation: when the live objects exceed the
/// threshold, a collection from `gc_roots` runs.
pub open spec fn after_alloc(m: VmState) -> VmState {
    if live_count(m.heap) > m.threshold {
        VmState { heap: swept(m.heap, gc_roots(m)), ..m }
    } else {
        m
    }
}

/// `s` after `s[dst + i] = s[src + i]` for `i` in `0..k`, one after another.
pub open spec fn copy_args(s: Seq<Value>, src: int, dst: int, k: nat) -> Seq<Value>
    decreases k,
{
    if k == 0 {
        s
    } else {
        let t = copy_args(s, src, dst, (k - 1) as nat);
        t.update(dst + k - 1, t[src + k - 1])
    }
}

/// A call of the closure `cv` whose arguments end before register `arg_end`
/// of the top frame: the callee's registers are appended, zeroed, the
/// arguments copied into its first registers, and its frame pushed.
pub open spec fn call(m: VmState, cv: Value, arg_end: int) -> Option<VmState> {
    match closure_function(m.heap, cv) {
        Some(f) => {
            let params = f->param_count as int;
            let regs = f->register_count as int;
            let base = m.slots.len() as int;
            let s1 = m.slots + Seq::new(regs as nat, |i: int| Value(0));
            let src = m.frames.last().base_offset + arg_end - params;
            if base + regs > usize::MAX {
                None
            } else if params > 0 && (params > arg_end || params > regs || src + params > s1.len()) {
                None
            } else {
                Some(
                    VmState {
                        slots: copy_args(s1, src, base, params as nat),
                        frames: m.frames.push(Frame { base_offset: base as usize, pc: 0, closure: cv }),
                        ..m
                    },
                )
            }
        },
        None => None,
    }
}

/// The state with the accumulator set to `v`.
pub open spec fn with_acc(m: VmState, v: Value) -> VmState {
    VmState { acc: v, ..m }
}

/// What an instruction that combines the accumulator `acc` with the
/// register value `r` computes: the new accumulator, the heap after it, and
/// whether a string was allocated. `None` where the instruction fails.
pub open spec fn combine(acc: Value, heap: Seq<Option<SpecObject>>, op: ByteCode, r: Value) -> Option<(Value, Seq<Option<SpecObject>>, bool)> {
    let a = acc.spec_as_smi();
    let b = r.spec_as_smi();
    match op {
        ByteCode::Add => if !acc.spec_is_smi() && !r.spec_is_smi() {
            match (string_at(heap, r), string_at(heap, acc)) {
                (Some(x), Some(y)) => Some(
                    (
                        Value(Value::heap_bits(first_free(heap) as u64)),
                        allocated(heap, SpecObject::String(x + y)),
                        true,
                    ),
                ),
                _ => None,
            }
        } else {
            Some((smi(a + b), heap, false))
        },
        ByteCode::Sub => Some((smi(b - a), heap, false)),
        ByteCode::Mul => match a.checked_mul(b) {
            Some(p) => Some((smi(p as int), heap, false)),
            None => None,
        },
        ByteCode::Div => match b.checked_div(a) {
            Some(q) => Some((smi(q as int), heap, false)),
            None => None,
        },
        ByteCode::TestEqual => if acc.spec_is_smi() {
            Some((flag(a == b), heap, false))
        } else {
            match (string_at(heap, acc), string_at(heap, r)) {
                (Some(x), Some(y)) => Some((flag(x == y), heap, false)),
                _ => None,
            }
        },
        ByteCode::TestLess => Some((flag(a > b), heap, false)),
        ByteCode::TestGreater => Some((flag(a < b), heap, false)),
        ByteCode::TestLessEqual => Some((flag(a >= b), heap, false)),
        ByteCode::TestGreaterEqual => Some((flag(a <= b), heap, false)),
        ByteCode::TestNotEqual => if !acc.spec_is_smi() && !r.spec_is_smi() {
            match (string_at(heap, acc), string_at(heap, r)) {
                (Some(x), Some(y)) => Some((flag(x != y), heap, false)),
                _ => Some((flag(acc != r), heap, false)),
            }
        } else {
            Some((flag(acc != r), heap, false))
        },
        ByteCode::LogicalAnd => Some((flag(acc != smi(0) && r != smi(0)), heap, false)),
        ByteCode::LogicalOr => Some((flag(acc != smi(0) || r != smi(0)), heap, false)),
        _ => None,
    }
}

/// An instruction that combines the accumulator with the register value
/// `r`; a string allocation may trigger a collection.
pub open spec fn binary(m: VmState, op: ByteCode, r: Value) -> Option<VmState> {
    match combine(m.acc, m.heap, op, r) {
        Some((v, h, allocated_string)) => {
            let m1 = VmState { acc: v, heap: h, ..m };
            if allocated_string {
                Some(after_alloc(m1))
            } else {
                Some(m1)
            }
        },
        None => None,
    }
}

/// An instruction whose first operand byte `x` sits at `pc`.
pub open spec fn with_operand(m: VmState, op: ByteCode, code: Seq<u8>, consts: Seq<Value>, pc: int, x: u8) -> Option<VmState> {
    let next = pc + 1;
    match op {
        ByteCode::LdaSmi => if (x as int) < consts.len() {
            with_pc(with_acc(m, consts[x as int]), next)
        } else {
            None
        },
        ByteCode::Star => match reg_slot(m, x) {
            Some(k) => with_pc(VmState { slots: m.slots.update(k, m.acc), ..m }, next),
            None => None,
        },
        ByteCode::Ldar => match reg_slot(m, x) {
            Some(k) => with_pc(with_acc(m, m.slots[k]), next),
            None => None,
        },
        ByteCode::Jump => with_pc(m, pc + x + 1),
        ByteCode::JumpIfFalse => with_pc(
            m,
            if m.acc == smi(0) {
                next + x
            } else {
                next
            },
        ),
        ByteCode::JumpLoop => with_pc(m, next - x),
        ByteCode::Call => if next < code.len() {
            match reg_slot(m, x) {
                Some(k) => match with_pc(m, next + 1) {
                    Some(m1) => call(m1, m.slots[k], code[next] as int),
                    None => None,
                },
                None => None,
            }
        } else {
            None
        },
        _ => match reg_slot(m, x) {
            Some(k) => match with_pc(m, next) {
                Some(m1) => binary(m1, op, m.slots[k]),
                None => None,
            },
            None => None,
        },
    }
}

/// One instruction of the top frame; `pc` is the position after its opcode.
pub open spec fn exec_op(m: VmState, op: ByteCode, code: Seq<u8>, consts: Seq<Value>, pc: int) -> Option<VmState> {
    match op {
        ByteCode::Push => with_pc(m, pc + 1),
        ByteCode::Return => Some(popped(m)),
        ByteCode::LogicalNot => with_pc(with_acc(m, flag(m.acc == smi(0))), pc),
        _ => if 0 <= pc < code.len() {
            with_operand(m, op, code, consts, pc, code[pc])
        } else {
            None
        },
    }
}

/// One step of execution. A frame that has run past its code returns; an
/// undecodable opcode, an operand past the code, a register, constant or
/// slot out of range, a value of the wrong kind, an arithmetic overflow or a
/// division by zero makes the step fail (`None`).
pub open spec fn step(m: VmState) -> Option<VmState> {
    let fr = m.frames.last();
    match closure_function(m.heap, fr.closure) {
        Some(f) => {
            let code = f->code;
            if fr.pc >= code.len() {
                Some(popped(m))
            } else {
                match decode(code[fr.pc as int]) {
                    Some(op) => exec_op(m, op, code, f->constant_pool, fr.pc + 1),
                    None => None,
                }
            }
        },
        None => None,
    }
}

/// The state after up to `fuel` steps; it stops early when no frame is left,
/// and is `None` if a step fails.
pub open spec fn run_steps(m: VmState, fuel: nat) -> Option<VmState>
    decreases fuel,
{
    if m.frames.len() == 0 || fuel == 0 {
        Some(m)
    } else {
        match step(m) {
            Some(m2) => run_steps(m2, (fuel - 1) as nat),
            None => None,
        }
    }
}

/// Within `fuel` steps every frame has returned, with no step failing.
pub open spec fn halts_within(m: VmState, fuel: nat) -> bool {
    run_steps(m, fuel) matches Some(f) && f.frames.len() == 0
}

/// The execution ends, with no step failing.
pub open spec fn halts(m: VmState) -> bool {
    exists|fuel: nat| halts_within(m, fuel)
}

/// The state in which an execution that halts ends.
pub open spec fn final_state(m: VmState) -> VmState {
    run_steps(m, choose|fuel: nat| halts_within(m, fuel))->0
}

/// The state in which running the closure `closure` starts: one frame, with
/// the closure function's registers zeroed. `None` if `closure` does not
/// lead to a closure of a function.
pub open spec fn start(acc: Value, heap: Seq<Option<SpecObject>>, threshold: usize, closure: Value) -> Option<VmState> {
    match closure_function(heap, closure) {
        Some(f) => Some(
            VmState {
                acc,
                heap,
                slots: Seq::new(f->register_count as nat, |i: int| Value(0)),
                frames: seq![Frame { base_offset: 0, pc: 0, closure }],
                threshold,
            },
        ),
        None => None,
    }
}

/// The Smi 1 for `true`, 0 for `false`.
pub fn flag_value(b: bool) -> (v: Value)
    ensures
        v == flag(b),
{
    if b {
        Value::from_smi(1)
    } else {
        Value::from_smi(0)
    }
}

/// Carries out an instruction that combines the accumulator `acc` with the
/// register value `r`: the new accumulator and whether a string was
/// allocated on `heap`. `None`, with the heap unchanged, where it fails.
pub fn combine_values(heap: &mut Heap, acc: Value, op: ByteCode, r: Value) -> (res: Option<(Value, bool)>)
    ensures
        match combine(acc, old(heap)@, op, r) {
            Some((v, h, allocated_string)) => res == Some((v, allocated_string)) && final(heap)@ == h,
            None => res is None && final(heap)@ == old(heap)@,
        },
{
    let a = acc.as_smi();
    let b = r.as_smi();
    match op {
        ByteCode::Add => {
            if acc.is_heap_object() && r.is_heap_object() {
                let joined = match (heap.get(r), heap.get(acc)) {
                    (Some(HeapObject::String(x)), Some(HeapObject::String(y))) => concat(
                        x.data.as_str(),
                        y.data.as_str(),
                    ),
                    _ => {
                        return None;
                    },
                };
                let v = heap.alloc_string(joined.as_str());
                Some((v, true))
            } else {
                Some((Value::from_smi(a + b), false))
            }
        },
        ByteCode::Sub => Some((Value::from_smi(b - a), false)),
        ByteCode::Mul => match a.checked_mul(b) {
            Some(p) => Some((Value::from_smi(p), false)),
            None => None,
        },
        ByteCode::Div => match b.checked_div(a) {
            Some(q) => Some((Value::from_smi(q), false)),
            None => None,
        },
        ByteCode::TestEqual => {
            if acc.is_smi() {
                Some((flag_value(a == b), false))
            } else {
                match (heap.get(acc), heap.get(r)) {
                    (Some(HeapObject::String(x)), Some(HeapObject::String(y))) => Some(
                        (flag_value(str_equal(x.data.as_str(), y.data.as_str())), false),
                    ),
                    _ => None,
                }
            }
        },
        ByteCode::TestLess => Some((flag_value(a > b), false)),
        ByteCode::TestGreater => Some((flag_value(a < b), false)),
        ByteCode::TestLessEqual => Some((flag_value(a >= b), false)),
        ByteCode::TestGreaterEqual => Some((flag_value(a <= b), false)),
        ByteCode::TestNotEqual => {
            if acc.is_heap_object() && r.is_heap_object() {
                match (heap.get(acc), heap.get(r)) {
                    (Some(HeapObject::String(x)), Some(HeapObject::String(y))) => Some(
                        (flag_value(!str_equal(x.data.as_str(), y.data.as_str())), false),
                    ),
                    _ => Some((flag_value(acc != r), false)),
                }
            } else {
                Some((flag_value(acc != r), false))
            }
        },
        ByteCode::LogicalAnd => {
            let zero = Value::from_smi(0);
            Some((flag_value(acc != zero && r != zero), false))
        },
        ByteCode::LogicalOr => {
            let zero = Value::from_smi(0);
            Some((flag_value(acc != zero || r != zero), false))
        },
        _ => None,
    }
}

/// A closure whose function can be reached from it by the collector: the
/// closure and its function value are heap references, to a closure and to
/// a function.
pub open spec fn traceable_closure(h: Seq<Option<SpecObject>>, c: Value) -> bool {
    &&& !c.spec_is_smi()
    &&& match object_at(h, c) {
        Some(SpecObject::Closure { function, .. }) => !function.spec_is_smi() && object_at(h, function) matches Some(
            SpecObject::Function { .. },
        ),
        _ => false,
    }
}

/// The code a frame runs survives the allocation and the collection that
/// follow a string concatenation: a frame's closure is a root, so neither the
/// closure nor its function is freed, and allocation only fills empty slots.
pub proof fn lemma_frame_code_survives(m: VmState, v: Value, s: Seq<char>, k: int)
    requires
        0 <= k < m.frames.len(),
        traceable_closure(m.heap, m.frames[k].closure),
    ensures
        closure_function(
            after_alloc(VmState { acc: v, heap: allocated(m.heap, SpecObject::String(s)), ..m }).heap,
            m.frames[k].closure,
        ) == closure_function(m.heap, m.frames[k].closure),
        traceable_closure(
            after_alloc(VmState { acc: v, heap: allocated(m.heap, SpecObject::String(s)), ..m }).heap,
            m.frames[k].closure,
        ),
{
    let c = m.frames[k].closure;
    let h = m.heap;
    let function = object_at(h, c)->0->function;
    let h1 = allocated(h, SpecObject::String(s));
    lemma_allocate_keeps_objects(h, SpecObject::String(s), c);
    lemma_allocate_keeps_objects(h, SpecObject::String(s), function);
    let m1 = VmState { acc: v, heap: h1, ..m };
    if live_count(h1) > m.threshold {
        let roots = gc_roots(m1);
        let i = c.spec_heap_offset() as int;
        assert(roots[1 + k] == c);
        lemma_root_reachable(h1, roots, 1 + k, i);
        let j = function.spec_heap_offset() as int;
        assert(children(h1[i]->0)[0] == function);
        lemma_child_reachable(h1, roots, i, 0, j);
    }
}

/// `!=` is the negation of `==` on two Smis and on two strings: both
/// succeed, give opposite flags, and leave the heap as it was. (On other
/// operands `!=` compares the tagged words, where `==` reads Smis or fails.)
pub proof fn lemma_not_equal_negates(acc: Value, heap: Seq<Option<SpecObject>>, r: Value, b: bool)
    requires
        (acc.spec_is_smi() && r.spec_is_smi()) || (!acc.spec_is_smi() && !r.spec_is_smi() && string_at(heap, acc)
            is Some && string_at(heap, r) is Some),
    ensures
        combine(acc, heap, ByteCode::TestNotEqual, r) is Some,
        combine(acc, heap, ByteCode::TestEqual, r) is Some,
        combine(acc, heap, ByteCode::TestEqual, r) == Some((flag(b), heap, false)) ==> combine(
            acc,
            heap,
            ByteCode::TestNotEqual,
            r,
        ) == Some((flag(!b), heap, false)),
{
    assert(((1i64 as u64) << 1u64) != ((0i64 as u64) << 1u64)) by (bit_vector);
    assert(flag(true) != flag(false));
    if acc.spec_is_smi() {
        let x = acc.0;
        let y = r.0;
        assert(x & 1 == 0 && y & 1 == 0 ==> (((x as i64) >> 1 == (y as i64) >> 1) <==> x == y)) by (bit_vector);
    }
}

/// The slots below the running frame's registers are the callers'
/// registers; a step leaves every one of them as it was.
pub proof fn lemma_step_keeps_caller_slots(m: VmState)
    requires
        m.frames.len() > 0,
        step(m) is Some,
    ensures
        forall|j: int|
            0 <= j < m.frames.last().base_offset && j < m.slots.len() ==> j < (#[trigger] step(m)->0.slots).len()
                && step(m)->0.slots[j] == m.slots[j],
{
    let m2 = step(m)->0;
    let fr = m.frames.last();
    let f = closure_function(m.heap, fr.closure)->0;
    let code = f->code;
    if fr.pc < code.len() {
        let op = decode(code[fr.pc as int])->0;
        let pc = fr.pc + 1;
        if op != ByteCode::Push && op != ByteCode::Return && op != ByteCode::LogicalNot {
            let x = code[pc];
            if op == ByteCode::Call {
                let m1 = with_pc(m, pc + 2)->0;
                let cv = m.slots[reg_slot(m, x)->0];
                let g = closure_function(m1.heap, cv)->0;
                let params = g->param_count as int;
                let s1 = m1.slots + Seq::new(g->register_count as nat, |i: int| Value(0));
                let src = m1.frames.last().base_offset + code[pc + 1] as int - params;
                lemma_copy_args_keeps_below(s1, src, m.slots.len() as int, params as nat);
                assert forall|j: int| 0 <= j < fr.base_offset && j < m.slots.len() implies j < m2.slots.len()
                    && m2.slots[j] == m.slots[j] by {
                    assert(s1[j] == m.slots[j]);
                }
            }
        }
    }
}

/// Copying arguments changes no slot below the destination, nor the length.
proof fn lemma_copy_args_keeps_below(s: Seq<Value>, src: int, dst: int, k: nat)
    requires
        0 <= dst,
        dst + k <= s.len(),
    ensures
        copy_args(s, src, dst, k).len() == s.len(),
        forall|j: int| 0 <= j < dst && j < s.len() ==> copy_args(s, src, dst, k)[j] == s[j],
    decreases k,
{
    if k > 0 {
        lemma_copy_args_keeps_below(s, src, dst, (k - 1) as nat);
    }
}

/// Copying arguments from below the destination puts, in order, the source
/// values into the destination slots and leaves every other slot alone.
proof fn lemma_copy_args_values(s: Seq<Value>, src: int, dst: int, k: nat)
    requires
        0 <= src,
        src + k <= dst,
        dst + k <= s.len(),
    ensures
        copy_args(s, src, dst, k).len() == s.len(),
        forall|j: int| dst <= j < dst + k ==> #[trigger] copy_args(s, src, dst, k)[j] == s[src + (j - dst)],
        forall|j: int| 0 <= j < s.len() && !(dst <= j < dst + k) ==> copy_args(s, src, dst, k)[j] == s[j],
    decreases k,
{
    if k > 0 {
        lemma_copy_args_values(s, src, dst, (k - 1) as nat);
    }
}

/// A call pushes a frame for the callee at the end of the slots, with the
/// callee's registers holding, in order, the caller's registers just below
/// `arg_end` as its parameters and zero after them; the caller's registers,
/// the accumulator and the heap are left as they were.
pub proof fn lemma_call_frame(m: VmState, cv: Value, arg_end: int)
    requires
        m.frames.len() > 0,
        call(m, cv, arg_end) is Some,
        m.frames.last().base_offset + arg_end <= m.slots.len(),
    ensures
        ({
            let m2 = call(m, cv, arg_end)->0;
            let f = closure_function(m.heap, cv)->0;
            let base = m.slots.len() as int;
            let params = f->param_count as int;
            let first = m.frames.last().base_offset + arg_end - params;
            &&& m2.frames == m.frames.push(Frame { base_offset: base as usize, pc: 0, closure: cv })
            &&& m2.slots.len() == base + f->register_count
            &&& forall|j: int| 0 <= j < base ==> m2.slots[j] == m.slots[j]
            &&& forall|j: int| base <= j < base + params ==> #[trigger] m2.slots[j] == m.slots[first + (j - base)]
            &&& forall|j: int| base + params <= j < base + f->register_count ==> #[trigger] m2.slots[j] == Value(0)
            &&& m2.acc == m.acc
            &&& m2.heap == m.heap
        }),
{
    let f = closure_function(m.heap, cv)->0;
    let params = f->param_count as int;
    let base = m.slots.len() as int;
    let s1 = m.slots + Seq::new(f->register_count as nat, |i: int| Value(0));
    let src = m.frames.last().base_offset + arg_end - params;
    let m2 = call(m, cv, arg_end)->0;
    assert(m2.slots == copy_args(s1, src, base, params as nat));
    if params > 0 {
        lemma_copy_args_values(s1, src, base, params as nat);
    }
    assert forall|j: int| 0 <= j < base implies m2.slots[j] == m.slots[j] by {
        assert(s1[j] == m.slots[j]);
    }
    assert forall|j: int| base + params <= j < base + f->register_count implies #[trigger] m2.slots[j] == Value(
        0,
    ) by {
        assert(s1[j] == Value(0));
    }
}

/// Once every frame has returned, more fuel changes nothing.
pub proof fn lemma_run_steps_stable(m: VmState, f1: nat, f2: nat)
    requires
        halts_within(m, f1),
        f1 <= f2,
    ensures
        run_steps(m, f2) == run_steps(m, f1),
    decreases f1,
{
    if m.frames.len() != 0 && f1 != 0 {
        lemma_run_steps_stable(step(m)->0, (f1 - 1) as nat, (f2 - 1) as nat);
    }
}

/// Execution is deterministic: two step budgets in which an execution halts
/// end in the same state.
pub proof fn lemma_final_unique(m: VmState, f1: nat, f2: nat)
    requires
        halts_within(m, f1),
        halts_within(m, f2),
    ensures
        run_steps(m, f1) == run_steps(m, f2),
{
    if f1 <= f2 {
        lemma_run_steps_stable(m, f1, f2);
    } else {
        lemma_run_steps_stable(m, f2, f1);
    }
}

/// A halting execution that still has a frame takes a step that does not
/// fail, and ends where the execution from the next state ends.
pub proof fn lemma_step_halts(m: VmState, fuel: nat)
    requires
        halts_within(m, fuel),
        m.frames.len() > 0,
    ensures
        fuel > 0,
        step(m) is Some,
        halts_within(step(m)->0, (fuel - 1) as nat),
        run_steps(step(m)->0, (fuel - 1) as nat) == run_steps(m, fuel),
{
}


/// A step either returns from the top frame, or keeps every frame but the
/// top one and the top frame's register base, possibly pushing a callee
/// frame whose registers start at the end of the slots.
proof fn lemma_step_frames(m: VmState)
    requires
        m.frames.len() > 0,
        step(m) is Some,
    ensures
        ({
            let n = m.frames.len() as int;
            let m2 = step(m)->0;
            ||| step(m) == Some(popped(m))
            ||| {
                &&& m2.frames.len() == n
                &&& m2.frames.take(n - 1) == m.frames.take(n - 1)
                &&& m2.frames[n - 1].base_offset == m.frames[n - 1].base_offset
            }
            ||| {
                &&& m2.frames.len() == n + 1
                &&& m2.frames.take(n - 1) == m.frames.take(n - 1)
                &&& m2.frames[n - 1].base_offset == m.frames[n - 1].base_offset
                &&& m2.frames[n].base_offset == m.slots.len()
            }
        }),
{
    let n = m.frames.len() as int;
    let fr = m.frames.last();
    let f = closure_function(m.heap, fr.closure)->0;
    let code = f->code;
    if fr.pc < code.len() {
        let op = decode(code[fr.pc as int])->0;
        let pc = fr.pc + 1;
        if op != ByteCode::Push && op != ByteCode::Return && op != ByteCode::LogicalNot {
            let x = code[pc];
            if op == ByteCode::Call {
                let m1 = with_pc(m, pc + 2)->0;
                assert(m1.frames.take(n - 1) =~= m.frames.take(n - 1));
                assert(step(m)->0.frames.take(n - 1) =~= m1.frames.take(n - 1));
            } else {
                let m2 = step(m)->0;
                assert(m2.frames.take(n - 1) =~= m.frames.take(n - 1));
            }
        } else if op != ByteCode::Return {
            let m2 = step(m)->0;
            assert(m2.frames.take(n - 1) =~= m.frames.take(n - 1));
        }
    }
}

/// The states of an execution from `m` up to the first one with at most `d`
/// frames, for at most `fuel` steps; `None` if a step fails on the way.
pub open spec fn run_above(m: VmState, d: int, fuel: nat) -> Option<VmState>
    decreases fuel,
{
    if m.frames.len() <= d || fuel == 0 {
        Some(m)
    } else {
        match step(m) {
            Some(m2) => run_above(m2, d, (fuel - 1) as nat),
            None => None,
        }
    }
}

/// What a call leaves for its caller while the callee runs: the frames below
/// depth `d` are `fs`, the frame at depth `d` has its registers at
/// `s.len()`, the frames above it lie no lower, and the first slots are `s`.
pub open spec fn caller_kept(m: VmState, d: int, fs: Seq<Frame>, s: Seq<Value>) -> bool {
    &&& 0 <= d < m.frames.len()
    &&& fs.len() == d
    &&& m.frames.take(d) == fs
    &&& m.frames[d].base_offset == s.len()
    &&& forall|k: int| d <= k < m.frames.len() ==> #[trigger] m.frames[k].base_offset >= s.len()
    &&& s.len() <= m.slots.len()
    &&& m.slots.take(s.len() as int) == s
}

proof fn lemma_caller_kept_step(m: VmState, d: int, fs: Seq<Frame>, s: Seq<Value>)
    requires
        caller_kept(m, d, fs, s),
        step(m) is Some,
    ensures
        step(m)->0.frames.len() > d ==> caller_kept(step(m)->0, d, fs, s),
        step(m)->0.frames.len() <= d ==> step(m)->0.frames == fs && step(m)->0.slots == s && step(m)->0.acc
            == m.acc,
{
    let n = m.frames.len() as int;
    let m2 = step(m)->0;
    let b = s.len() as int;
    lemma_step_frames(m);
    lemma_step_keeps_caller_slots(m);
    assert(m.frames[n - 1].base_offset >= b);
    assert forall|j: int| 0 <= j < b implies j < m2.slots.len() && m2.slots[j] == s[j] by {
        assert(m.slots[j] == m.slots.take(b)[j]);
    }
    if b > 0 {
        assert(m2.slots[b - 1] == s[b - 1]);
    }
    assert(m2.slots.len() >= b);
    if step(m) == Some(popped(m)) {
        if n - 1 == d {
            assert(m2.frames =~= fs);
            assert(m2.slots =~= s);
        } else {
            assert(m2.frames.take(d) =~= m.frames.take(d));
            assert(m2.slots.take(b) =~= s);
            assert forall|k: int| d <= k < m2.frames.len() implies #[trigger] m2.frames[k].base_offset >= b by {
                assert(m2.frames[k] == m.frames[k]);
            }
        }
    } else {
        assert(m2.slots.take(b) =~= s);
        assert forall|k: int| 0 <= k < n - 1 implies #[trigger] m2.frames[k] == m.frames[k] by {
            assert(m2.frames.take(n - 1)[k] == m.frames.take(n - 1)[k]);
        }
        assert(m2.frames.take(d) =~= m.frames.take(d));
        assert forall|k: int| d <= k < m2.frames.len() implies #[trigger] m2.frames[k].base_offset >= b by {
            if k < n - 1 {
                assert(m2.frames[k] == m.frames[k]);
            }
        }
    }
}

/// The step from `p`, whose top frame is the only one above depth `d`,
/// returns from that frame to `r` and hands it the accumulator unchanged.
pub open spec fn returning_step(p: VmState, r: VmState, d: int) -> bool {
    &&& p.frames.len() == d + 1
    &&& step(p) == Some(r)
    &&& r.acc == p.acc
}

/// While a callee runs, its caller's frames and registers stay as they were;
/// when the execution first comes back to the caller's depth, the frames
/// are the caller's, with its next instruction where the call left it, the
/// slots are exactly the caller's, and the state is one the execution reaches.
pub proof fn lemma_callee_returns_to_caller(m: VmState, d: int, fs: Seq<Frame>, s: Seq<Value>, fuel: nat)
    requires
        caller_kept(m, d, fs, s),
        run_above(m, d, fuel) is Some,
    ensures
        run_above(m, d, fuel)->0.frames.len() > d ==> caller_kept(run_above(m, d, fuel)->0, d, fs, s),
        run_above(m, d, fuel)->0.frames.len() <= d ==> run_above(m, d, fuel)->0.frames == fs && run_above(
            m,
            d,
            fuel,
        )->0.slots == s,
        exists|k: nat| k <= fuel && run_steps(m, k) == run_above(m, d, fuel),
        run_above(m, d, fuel)->0.frames.len() <= d ==> exists|k: nat|
            k < fuel && #[trigger] run_steps(m, k) is Some && returning_step(run_steps(m, k)->0, run_above(m, d, fuel)->0, d),
    decreases fuel,
{
    if fuel == 0 {
        assert(run_steps(m, 0) == run_above(m, d, fuel));
    } else {
        lemma_caller_kept_step(m, d, fs, s);
        let m2 = step(m)->0;
        if m2.frames.len() > d {
            lemma_callee_returns_to_caller(m2, d, fs, s, (fuel - 1) as nat);
            let k = choose|k: nat| k <= fuel - 1 && run_steps(m2, k) == run_above(m2, d, (fuel - 1) as nat);
            assert(run_steps(m, k + 1) == run_steps(m2, k));
            if run_above(m2, d, (fuel - 1) as nat)->0.frames.len() <= d {
                let k2 = choose|k2: nat|
                    k2 < fuel - 1 && #[trigger] run_steps(m2, k2) is Some && returning_step(
                        run_steps(m2, k2)->0,
                        run_above(m2, d, (fuel - 1) as nat)->0,
                        d,
                    );
                assert(run_steps(m, k2 + 1) == run_steps(m2, k2));
                assert(run_steps(m, (k2 + 1) as nat) is Some);
            }
        } else {
            lemma_step_frames(m);
            assert(run_above(m2, d, (fuel - 1) as nat) == Some(m2));
            assert(run_steps(m2, 0) == Some(m2));
            assert(run_steps(m, 1) == run_steps(m2, 0));
            assert(run_steps(m, 0) == Some(m));
            assert(returning_step(m, m2, d));
        }
    }
}

/// A call step keeps the caller's frames and registers below the callee,
/// with the caller's next instruction just past the call's three bytes.
pub proof fn lemma_call_step_keeps_caller(m: VmState)
    requires
        m.frames.len() > 0,
        step(m) is Some,
        step(m)->0.frames.len() == m.frames.len() + 1,
    ensures
        ({
            let n = m.frames.len() as int;
            let m2 = step(m)->0;
            &&& caller_kept(m2, n, m2.frames.take(n), m.slots)
            &&& forall|k: int| 0 <= k < n - 1 ==> #[trigger] m2.frames[k] == m.frames[k]
            &&& m2.frames[n - 1] == Frame { pc: (m.frames[n - 1].pc + 3) as usize, ..m.frames[n - 1] }
        }),
{
    let n = m.frames.len() as int;
    let m2 = step(m)->0;
    let fr = m.frames.last();
    let f = closure_function(m.heap, fr.closure)->0;
    let code = f->code;
    lemma_step_frames(m);
    assert(step(m) != Some(popped(m)));
    let op = decode(code[fr.pc as int])->0;
    let pc = fr.pc + 1;
    let x = code[pc];
    assert(op == ByteCode::Call);
    let m1 = with_pc(m, pc + 2)->0;
    let cv = m.slots[reg_slot(m, x)->0];
    let g = closure_function(m1.heap, cv)->0;
    let params = g->param_count as int;
    let s1 = m1.slots + Seq::new(g->register_count as nat, |i: int| Value(0));
    let src = m1.frames.last().base_offset + code[pc + 1] as int - params;
    lemma_copy_args_keeps_below(s1, src, m.slots.len() as int, params as nat);
    assert forall|j: int| 0 <= j < m.slots.len() implies m2.slots[j] == m.slots[j] by {
        assert(s1[j] == m.slots[j]);
    }
    assert(m2.slots.take(m.slots.len() as int) =~= m.slots);
    assert forall|k: int| 0 <= k < n - 1 implies #[trigger] m2.frames[k] == m.frames[k] by {
        assert(m2.frames.take(n - 1)[k] == m.frames.take(n - 1)[k]);
    }
    assert forall|k: int| n <= k < m2.frames.len() implies #[trigger] m2.frames[k].base_offset >= m.slots.len() by {}
}

/// A call returns to its caller: once the execution that follows a call
/// step first comes back to the caller's depth, the frames are the caller's
/// with its next instruction just past the call, the slots are exactly the
/// caller's registers as they were before the call, and the accumulator is
/// the one the callee's last frame held when it returned.
pub proof fn lemma_call_returns(m: VmState, fuel: nat)
    requires
        m.frames.len() > 0,
        step(m) is Some,
        step(m)->0.frames.len() == m.frames.len() + 1,
        run_above(step(m)->0, m.frames.len() as int, fuel) matches Some(r) && r.frames.len() <= m.frames.len(),
    ensures
        ({
            let n = m.frames.len() as int;
            let r = run_above(step(m)->0, n, fuel)->0;
            &&& r.frames == m.frames.update(n - 1, Frame { pc: (m.frames[n - 1].pc + 3) as usize, ..m.frames[n - 1] })
            &&& r.slots == m.slots
            &&& exists|k: nat| k >= 1 && #[trigger] run_steps(m, k) == Some(r)
            &&& exists|k: nat|
                k >= 1 && #[trigger] run_steps(m, k) is Some && returning_step(run_steps(m, k)->0, r, n)
        }),
{
    let n = m.frames.len() as int;
    let m1 = step(m)->0;
    lemma_call_step_keeps_caller(m);
    lemma_callee_returns_to_caller(m1, n, m1.frames.take(n), m.slots, fuel);
    let r = run_above(m1, n, fuel)->0;
    assert(r.frames =~= m.frames.update(n - 1, Frame { pc: (m.frames[n - 1].pc + 3) as usize, ..m.frames[n - 1] }))
        by {
        assert forall|k: int| 0 <= k < n implies r.frames[k] == m1.frames[k] by {
            assert(m1.frames.take(n)[k] == m1.frames[k]);
        }
    }
    let k = choose|k: nat| k <= fuel && run_steps(m1, k) == run_above(m1, n, fuel);
    assert(run_steps(m, k + 1) == run_steps(m1, k));
    assert(run_steps(m, (k + 1) as nat) == Some(r));
    let k2 = choose|k2: nat|
        k2 < fuel && #[trigger] run_steps(m1, k2) is Some && returning_step(run_steps(m1, k2)->0, r, n);
    assert(run_steps(m, k2 + 1) == run_steps(m1, k2));
    assert(run_steps(m, (k2 + 1) as nat) is Some);
}

/// `==` and `!=` on two strings compare their characters: `==` gives 1
/// exactly when the two have the same length and the same character at
/// every position, and `!=` gives the opposite; neither changes the heap.
pub proof fn lemma_string_comparison(acc: Value, heap: Seq<Option<SpecObject>>, r: Value)
    requires
        !acc.spec_is_smi(),
        !r.spec_is_smi(),
        string_at(heap, acc) is Some,
        string_at(heap, r) is Some,
    ensures
        ({
            let x = string_at(heap, acc)->0;
            let y = string_at(heap, r)->0;
            let same = x.len() == y.len() && forall|k: int| 0 <= k < x.len() ==> x[k] == y[k];
            &&& combine(acc, heap, ByteCode::TestEqual, r) == Some((flag(same), heap, false))
            &&& combine(acc, heap, ByteCode::TestNotEqual, r) == Some((flag(!same), heap, false))
        }),
{
    let x = string_at(heap, acc)->0;
    let y = string_at(heap, r)->0;
    if x.len() == y.len() && forall|k: int| 0 <= k < x.len() ==> x[k] == y[k] {
        assert(x =~= y);
    }
}

/// A collection keeps what the running state refers to: the object at the
/// accumulator, at every frame's closure and at every register of every
/// frame that holds a heap reference reads the same after the collection
/// as before, whether the collection is made directly from the state's
/// roots or by an allocation that crosses the threshold.
pub proof fn lemma_collection_keeps_live_values(m: VmState)
    ensures
        !m.acc.spec_is_smi() ==> object_at(swept(m.heap, gc_roots(m)), m.acc) == object_at(m.heap, m.acc),
        !m.acc.spec_is_smi() ==> object_at(after_alloc(m).heap, m.acc) == object_at(m.heap, m.acc),
        forall|k: int|
            0 <= k < m.frames.len() && !(#[trigger] m.frames[k]).closure.spec_is_smi() ==> object_at(
                swept(m.heap, gc_roots(m)),
                m.frames[k].closure,
            ) == object_at(m.heap, m.frames[k].closure) && object_at(after_alloc(m).heap, m.frames[k].closure)
                == object_at(m.heap, m.frames[k].closure),
        forall|j: int|
            0 <= j < m.slots.len() && !(#[trigger] m.slots[j]).spec_is_smi() ==> object_at(
                swept(m.heap, gc_roots(m)),
                m.slots[j],
            ) == object_at(m.heap, m.slots[j]) && object_at(after_alloc(m).heap, m.slots[j]) == object_at(
                m.heap,
                m.slots[j],
            ),
{
    let roots = gc_roots(m);
    let fc = frame_closures(m.frames);
    if !m.acc.spec_is_smi() {
        assert(roots[0] == m.acc);
        lemma_collect_keeps_rooted(m.heap, roots, 0);
    }
    assert forall|k: int|
        0 <= k < m.frames.len() && !(#[trigger] m.frames[k]).closure.spec_is_smi() implies object_at(
            swept(m.heap, roots),
            m.frames[k].closure,
        ) == object_at(m.heap, m.frames[k].closure) by {
        assert(roots[1 + k] == fc[k]);
        lemma_collect_keeps_rooted(m.heap, roots, 1 + k);
    }
    assert forall|j: int|
        0 <= j < m.slots.len() && !(#[trigger] m.slots[j]).spec_is_smi() implies object_at(
            swept(m.heap, roots),
            m.slots[j],
        ) == object_at(m.heap, m.slots[j]) by {
        lemma_heap_values_contains(m.slots, j);
        let t = choose|t: int| 0 <= t < heap_values(m.slots).len() && heap_values(m.slots)[t] == m.slots[j];
        assert(roots[1 + fc.len() + t] == heap_values(m.slots)[t]);
        lemma_collect_keeps_rooted(m.heap, roots, 1 + fc.len() + t);
    }
}

/// Every heap reference among `s` is among `heap_values(s)`.
proof fn lemma_heap_values_contains(s: Seq<Value>, j: int)
    requires
        0 <= j < s.len(),
        !s[j].spec_is_smi(),
    ensures
        exists|t: int| 0 <= t < heap_values(s).len() && heap_values(s)[t] == s[j],
    decreases s.len(),
{
    let s0 = s.drop_last();
    if j == s.len() - 1 {
        let t = heap_values(s0).len() as int;
        assert(heap_values(s) == heap_values(s0).push(s.last()));
        assert(heap_values(s)[t] == s[j]);
    } else {
        assert(s0[j] == s[j]);
        lemma_heap_values_contains(s0, j);
        let t = choose|t: int| 0 <= t < heap_values(s0).len() && heap_values(s0)[t] == s0[j];
        if !s.last().spec_is_smi() {
            assert(heap_values(s) == heap_values(s0).push(s.last()));
            assert(heap_values(s)[t] == heap_values(s0)[t]);
        } else {
            assert(heap_values(s) == heap_values(s0));
        }
        assert(heap_values(s)[t] == s[j]);
    }
}

/// `+` on two strings makes a new string: the left operand's characters
/// (held in the register) followed by the right operand's (held in the
/// accumulator), in a slot that was free, with every other object left as
/// it was.
pub proof fn lemma_string_concatenation(acc: Value, heap: Seq<Option<SpecObject>>, r: Value)
    requires
        !acc.spec_is_smi(),
        !r.spec_is_smi(),
        string_at(heap, acc) is Some,
        string_at(heap, r) is Some,
        first_free(heap) <= 0x7fff_ffff_ffff_ffff,
        first_free(heap) <= usize::MAX,
    ensures
        combine(acc, heap, ByteCode::Add, r) matches Some((v, h, allocated_string)) && {
            let x = string_at(heap, r)->0;
            let y = string_at(heap, acc)->0;
            &&& allocated_string
            &&& !v.spec_is_smi()
            &&& string_at(h, v) matches Some(z) && z.len() == x.len() + y.len() && (forall|k: int|
                0 <= k < x.len() ==> z[k] == x[k]) && (forall|k: int| 0 <= k < y.len() ==> z[x.len() + k] == y[k])
            &&& (v.spec_heap_offset() as int) < heap.len() ==> heap[v.spec_heap_offset() as int] is None
            &&& forall|w: Value| #[trigger] object_at(heap, w) is Some ==> object_at(h, w) == object_at(heap, w)
        },
{
    let x = string_at(heap, r)->0;
    let y = string_at(heap, acc)->0;
    let f = first_free(heap);
    crate::heap::lemma_allocate_reads_back(heap, SpecObject::String(x + y));
    crate::heap::lemma_first_free(heap);
    let v = Value(Value::heap_bits(f as u64));
    let fu = f as u64;
    assert(((fu << 1u64) | 1u64) & 1u64 == 1u64) by (bit_vector);
    assert(fu <= 0x7fff_ffff_ffff_ffff ==> (((fu << 1u64) | 1u64) >> 1u64) == fu) by (bit_vector);
    assert forall|w: Value| #[trigger] object_at(heap, w) is Some implies object_at(
        allocated(heap, SpecObject::String(x + y)),
        w,
    ) == object_at(heap, w) by {
        lemma_allocate_keeps_objects(heap, SpecObject::String(x + y), w);
    }
}

} // verus!
