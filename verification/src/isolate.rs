use vstd::prelude::*;

use crate::bytecode::{ByteCode, Compiler, c_stmts, empty_state, finalized};
use crate::heap::{BytecodeFunction, Heap, HeapObject, SpecObject, live_count, object_at, swept};
use crate::lex::{Lexer, lex_spec};
use crate::machine::{
    Frame, VmState, binary, call, closure_function, combine_values, copy_args, final_state, flag_value,
    frame_closures, gc_roots, halts, halts_within, heap_values, lemma_step_halts, run_steps, start, step,
};
use crate::parser::{Parser, p_program};
use crate::text::{decimal, decimal_string, push_decimal_digits, push_str};
use crate::value::Value;

verus! {

/// The register slots of every active frame, in one flat array, and the
/// frames that are windows into it. A call appends the callee's registers;
/// a return cuts them off again.
struct CallStack {
    slots: Vec<Value>,
    frames: Vec<Frame>,
}

impl CallStack {
    /// A call stack with one frame running `closure`, with `register_count`
    /// zeroed registers.
    fn new(register_count: usize, closure: Value) -> (cs: CallStack)
        ensures
            cs.slots@ == Seq::new(register_count as nat, |i: int| Value(0)),
            cs.frames@ == seq![Frame { base_offset: 0, pc: 0, closure }],
    {
        let mut slots: Vec<Value> = Vec::new();
        while slots.len() < register_count
            invariant
                slots.len() <= register_count,
                forall|i: int| 0 <= i < slots.len() ==> slots@[i] == Value(0),
            decreases register_count - slots.len(),
        {
            slots.push(Value::default());
        }
        assert(slots@ =~= Seq::new(register_count as nat, |i: int| Value(0)));
        let mut frames: Vec<Frame> = Vec::new();
        frames.push(Frame { base_offset: 0, pc: 0, closure });
        CallStack { slots, frames }
    }

    /// The slot of register `idx` of the top frame, if it exists.
    fn reg_index(&self, idx: u8) -> (k: Option<usize>)
        requires
            self.frames.len() > 0,
        ensures
            match k {
                Some(k) => self.frames@.last().base_offset + idx == k && k < self.slots.len(),
                None => self.frames@.last().base_offset + idx >= self.slots.len(),
            },
    {
        let base = self.frames[self.frames.len() - 1].base_offset;
        match base.checked_add(idx as usize) {
            Some(k) => if k < self.slots.len() {
                Some(k)
            } else {
                None
            },
            None => None,
        }
    }

    /// Sets the next instruction of the top frame.
    fn set_pc(&mut self, pc: usize)
        requires
            old(self).frames.len() > 0,
        ensures
            final(self).slots == old(self).slots,
            final(self).frames@ == old(self).frames@.update(
                old(self).frames@.len() - 1,
                Frame { pc, ..old(self).frames@.last() },
            ),
    {
        let fi = self.frames.len() - 1;
        let fr = self.frames[fi];
        self.frames.set(fi, Frame { pc, ..fr });
    }

    /// Removes the top frame and cuts the slots back to where its registers began.
    fn pop_frame(&mut self)
        requires
            old(self).frames.len() > 0,
        ensures
            final(self).frames@ == old(self).frames@.drop_last(),
            final(self).slots@ == if (old(self).frames@.last().base_offset as int) < old(self).slots@.len() {
                old(self).slots@.take(old(self).frames@.last().base_offset as int)
            } else {
                old(self).slots@
            },
    {
        let fr = self.frames.pop().unwrap();
        self.slots.truncate(fr.base_offset);
    }
}

/// The function of the closure at `closure`, if `closure` leads to one.
fn function_of(heap: &Heap, closure: Value) -> (r: Option<&BytecodeFunction>)
    ensures
        match r {
            Some(f) => closure_function(heap@, closure) == Some(HeapObject::Function(*f)@),
            None => closure_function(heap@, closure) is None,
        },
{
    match heap.get(closure) {
        Some(HeapObject::Closure(c)) => match heap.get(c.function) {
            Some(HeapObject::Function(f)) => Some(f),
            _ => None,
        },
        _ => None,
    }
}

/// How a value prints: a Smi as its decimal integer, a string as its
/// characters, a closure or function by its kind, and a reference to an
/// empty slot as freed.
pub open spec fn value_text(h: Seq<Option<SpecObject>>, v: Value) -> Seq<char> {
    if v.spec_is_smi() {
        decimal(v.spec_as_smi() as int)
    } else {
        match object_at(h, v) {
            Some(SpecObject::String(s)) => s,
            Some(SpecObject::Closure { .. }) => "<closure>"@,
            Some(SpecObject::Function { .. }) => "<function>"@,
            None => "<freed>"@,
        }
    }
}

/// The heap and the top-level closure that compiling `src` onto `heap`
/// produces, if `src` lexes, parses and compiles.
pub open spec fn compiled(heap: Seq<Option<SpecObject>>, src: Seq<char>) -> Option<(Seq<Option<SpecObject>>, Value)> {
    match lex_spec(src) {
        Some(tokens) => match p_program(tokens, 0, Seq::empty()) {
            Some(stmts) => match c_stmts(empty_state(heap), stmts) {
                Some(st) => Some(finalized(st)),
                None => None,
            },
            None => None,
        },
        None => None,
    }
}

/// The state in which evaluating `src` starts running, if `src` compiles
/// and its closure leads to a function.
pub open spec fn eval_start(acc: Value, heap: Seq<Option<SpecObject>>, threshold: usize, src: Seq<char>) -> Option<VmState> {
    match compiled(heap, src) {
        Some((h, c)) => start(acc, h, threshold, c),
        None => None,
    }
}

/// A self-contained execution context: an accumulator, a heap of its own
/// and the live-object count above which a collection runs. Two isolates
/// share nothing.
pub struct Isolate {
    pub acc: Value,
    pub heap: Heap,
    pub gc_threshold: usize,
}

impl Isolate {
    /// The machine state of this isolate running on `cs`.
    spec fn machine(&self, cs: &CallStack) -> VmState {
        VmState {
            acc: self.acc,
            heap: self.heap@,
            slots: cs.slots@,
            frames: cs.frames@,
            threshold: self.gc_threshold,
        }
    }

    /// An isolate with an empty heap and a collection threshold of 1024.
    pub fn new() -> (iso: Isolate)
        ensures
            iso.acc == Value(0),
            iso.heap@ == Seq::<Option<SpecObject>>::empty(),
            iso.gc_threshold == 1024,
    {
        Isolate { acc: Value::default(), heap: Heap::new(), gc_threshold: 1024 }
    }

    /// An isolate over `heap` with the collection threshold `gc_threshold`.
    pub fn with_heap(heap: Heap, gc_threshold: usize) -> (iso: Isolate)
        ensures
            iso.acc == Value(0),
            iso.heap@ == heap@,
            iso.gc_threshold == gc_threshold,
    {
        Isolate { acc: Value::default(), heap, gc_threshold }
    }

    /// How `val` prints.
    pub fn format_value(&self, val: Value) -> (s: String)
        ensures
            s@ == value_text(self.heap@, val),
    {
        if val.is_smi() {
            decimal_string(val.as_smi())
        } else {
            match self.heap.get(val) {
                Some(HeapObject::String(s)) => s.data.clone(),
                Some(HeapObject::Closure(_)) => "<closure>".to_owned(),
                Some(HeapObject::Function(_)) => "<function>".to_owned(),
                None => "<freed>".to_owned(),
            }
        }
    }

    /// The accumulator as it prints, and the number of live heap objects.
    pub fn display(&self) -> (s: String)
        ensures
            s@ == "Isolate{ acc: "@ + value_text(self.heap@, self.acc) + ", heap_size: "@ + decimal(
                live_count(self.heap@) as int,
            ) + " }"@,
    {
        let mut s = "Isolate{ acc: ".to_owned();
        let acc_text = self.format_value(self.acc);
        push_str(&mut s, acc_text.as_str());
        push_str(&mut s, ", heap_size: ");
        let n = self.heap.len();
        push_decimal_digits(&mut s, n as u64);
        push_str(&mut s, " }");
        s
    }

    /// Collects garbage from the roots of the running state: the
    /// accumulator, every frame's closure and every slot holding a heap
    /// reference.
    fn collect_garbage(&mut self, cs: &CallStack)
        ensures
            final(self).heap@ == swept(old(self).heap@, gc_roots(old(self).machine(cs))),
            final(self).acc == old(self).acc,
            final(self).gc_threshold == old(self).gc_threshold,
    {
        let mut roots: Vec<Value> = Vec::new();
        roots.push(self.acc);
        let mut i: usize = 0;
        while i < cs.frames.len()
            invariant
                0 <= i <= cs.frames.len(),
                roots@ == seq![self.acc] + frame_closures(cs.frames@.take(i as int)),
            decreases cs.frames.len() - i,
        {
            roots.push(cs.frames[i].closure);
            i += 1;
            assert(roots@ =~= seq![self.acc] + frame_closures(cs.frames@.take(i as int)));
        }
        assert(cs.frames@.take(i as int) =~= cs.frames@);
        let mut k: usize = 0;
        while k < cs.slots.len()
            invariant
                0 <= k <= cs.slots.len(),
                roots@ == seq![self.acc] + frame_closures(cs.frames@) + heap_values(cs.slots@.take(k as int)),
            decreases cs.slots.len() - k,
        {
            let v = cs.slots[k];
            assert(cs.slots@.take(k + 1).drop_last() =~= cs.slots@.take(k as int));
            if v.is_heap_object() {
                roots.push(v);
            }
            k += 1;
            assert(roots@ =~= seq![self.acc] + frame_closures(cs.frames@) + heap_values(cs.slots@.take(k as int)));
        }
        assert(cs.slots@.take(k as int) =~= cs.slots@);
        self.heap.collect(roots.as_slice());
    }

    /// An instruction that combines the accumulator with the register value
    /// `r`; after a string allocation that leaves more live objects than the
    /// threshold, garbage is collected.
    fn run_binary(&mut self, cs: &mut CallStack, op: ByteCode, r: Value) -> (ok: bool)
        requires
            old(cs).frames.len() > 0,
        ensures
            ok == binary(old(self).machine(old(cs)), op, r) is Some,
            ok ==> final(self).machine(final(cs)) == binary(old(self).machine(old(cs)), op, r)->0,
            final(self).gc_threshold == old(self).gc_threshold,
    {
        match combine_values(&mut self.heap, self.acc, op, r) {
            Some((v, allocated_string)) => {
                self.acc = v;
                if allocated_string && self.heap.is_over_threshold(self.gc_threshold) {
                    self.collect_garbage(cs);
                }
                true
            },
            None => false,
        }
    }

    /// Calls the closure `cv` with the arguments that end before register
    /// `arg_end` of the top frame.
    fn run_call(&mut self, cs: &mut CallStack, cv: Value, arg_end: u8) -> (ok: bool)
        requires
            old(cs).frames.len() > 0,
        ensures
            ok == call(old(self).machine(old(cs)), cv, arg_end as int) is Some,
            ok ==> final(self).machine(final(cs)) == call(old(self).machine(old(cs)), cv, arg_end as int)->0,
            final(self).acc == old(self).acc,
            final(self).heap == old(self).heap,
            final(self).gc_threshold == old(self).gc_threshold,
    {
        let ghost m = self.machine(cs);
        let (params, regs) = match function_of(&self.heap, cv) {
            Some(f) => (f.param_count, f.register_count),
            None => {
                return false;
            },
        };
        let base = cs.slots.len();
        let total = match base.checked_add(regs) {
            Some(t) => t,
            None => {
                return false;
            },
        };
        let caller_base = cs.frames[cs.frames.len() - 1].base_offset;
        if params > 0 {
            if params > arg_end as usize || params > regs {
                return false;
            }
            match caller_base.checked_add(arg_end as usize) {
                Some(e) => if e > total {
                    return false;
                },
                None => {
                    return false;
                },
            }
        }
        let ghost s1 = m.slots + Seq::new(regs as nat, |i: int| Value(0));
        while cs.slots.len() < total
            invariant
                base <= cs.slots.len() <= total,
                total == base + regs,
                cs.slots@ == s1.take(cs.slots.len() as int),
                s1 == m.slots + Seq::new(regs as nat, |i: int| Value(0)),
                m.slots.len() == base,
                s1.len() == total,
                cs.frames == old(cs).frames,
            decreases total - cs.slots.len(),
        {
            cs.slots.push(Value::default());
            assert(cs.slots@ =~= s1.take(cs.slots.len() as int));
        }
        assert(cs.slots@ =~= s1);
        let ghost src = caller_base + arg_end - params;
        let mut i: usize = 0;
        while i < params
            invariant
                0 <= i <= params,
                params > 0 ==> params <= arg_end && params <= regs && caller_base + arg_end <= total,
                total == base + regs,
                cs.slots@.len() == total,
                src == caller_base + arg_end - params,
                cs.slots@ == copy_args(s1, src, base as int, i as nat),
                cs.frames == old(cs).frames,
            decreases params - i,
        {
            let from = caller_base + (arg_end as usize - params) + i;
            let v = cs.slots[from];
            cs.slots.set(base + i, v);
            i += 1;
        }
        cs.frames.push(Frame { base_offset: base, pc: 0, closure: cv });
        true
    }

    /// Runs one instruction of the top frame, or returns from it when its
    /// code is exhausted. `false` where the step fails.
    fn step(&mut self, cs: &mut CallStack) -> (ok: bool)
        requires
            old(cs).frames.len() > 0,
        ensures
            ok == step(old(self).machine(old(cs))) is Some,
            ok ==> final(self).machine(final(cs)) == step(old(self).machine(old(cs)))->0,
            final(self).gc_threshold == old(self).gc_threshold,
    {
        let fi = cs.frames.len() - 1;
        let fr = cs.frames[fi];
        let f = match function_of(&self.heap, fr.closure) {
            Some(f) => f,
            None => {
                return false;
            },
        };
        if fr.pc >= f.code.len() {
            cs.pop_frame();
            return true;
        }
        let op = match ByteCode::from_byte(f.code[fr.pc]) {
            Some(op) => op,
            None => {
                return false;
            },
        };
        let pc = fr.pc + 1;
        match op {
            ByteCode::Push => {
                return match pc.checked_add(1) {
                    Some(n) => {
                        cs.set_pc(n);
                        true
                    },
                    None => false,
                };
            },
            ByteCode::Return => {
                cs.pop_frame();
                return true;
            },
            ByteCode::LogicalNot => {
                self.acc = flag_value(self.acc == Value::from_smi(0));
                cs.set_pc(pc);
                return true;
            },
            _ => {},
        }
        if pc >= f.code.len() {
            return false;
        }
        let x = f.code[pc];
        let next = pc + 1;
        match op {
            ByteCode::LdaSmi => {
                if (x as usize) < f.constant_pool.len() {
                    self.acc = f.constant_pool[x as usize];
                    cs.set_pc(next);
                    true
                } else {
                    false
                }
            },
            ByteCode::Star => match cs.reg_index(x) {
                Some(k) => {
                    cs.slots.set(k, self.acc);
                    cs.set_pc(next);
                    true
                },
                None => false,
            },
            ByteCode::Ldar => match cs.reg_index(x) {
                Some(k) => {
                    self.acc = cs.slots[k];
                    cs.set_pc(next);
                    true
                },
                None => false,
            },
            ByteCode::Jump => match pc.checked_add(x as usize + 1) {
                Some(n) => {
                    cs.set_pc(n);
                    true
                },
                None => false,
            },
            ByteCode::JumpIfFalse => {
                let target = if self.acc == Value::from_smi(0) {
                    next.checked_add(x as usize)
                } else {
                    Some(next)
                };
                match target {
                    Some(n) => {
                        cs.set_pc(n);
                        true
                    },
                    None => false,
                }
            },
            ByteCode::JumpLoop => {
                if next >= x as usize {
                    cs.set_pc(next - x as usize);
                    true
                } else {
                    false
                }
            },
            ByteCode::Call => {
                if next >= f.code.len() {
                    return false;
                }
                let arg_end = f.code[next];
                match cs.reg_index(x) {
                    Some(k) => {
                        let cv = cs.slots[k];
                        cs.set_pc(next + 1);
                        self.run_call(cs, cv, arg_end)
                    },
                    None => false,
                }
            },
            _ => match cs.reg_index(x) {
                Some(k) => {
                    let r = cs.slots[k];
                    cs.set_pc(next);
                    self.run_binary(cs, op, r)
                },
                None => false,
            },
        }
    }

    /// Runs the closure `closure` to the end and returns the accumulator.
    /// The execution must halt without a failing step.
    pub fn run(&mut self, closure: Value) -> (v: Value)
        requires
            start(old(self).acc, old(self).heap@, old(self).gc_threshold, closure) matches Some(m0) && halts(m0),
        ensures
            v == final_state(start(old(self).acc, old(self).heap@, old(self).gc_threshold, closure)->0).acc,
            final(self).acc == v,
            final(self).heap@ == final_state(
                start(old(self).acc, old(self).heap@, old(self).gc_threshold, closure)->0,
            ).heap,
            final(self).gc_threshold == old(self).gc_threshold,
    {
        let ghost m0 = start(self.acc, self.heap@, self.gc_threshold, closure)->0;
        let register_count = match function_of(&self.heap, closure) {
            Some(f) => f.register_count,
            None => {
                return vstd::pervasive::unreached();
            },
        };
        let mut cs = CallStack::new(register_count, closure);
        assert(self.machine(&cs) == m0);
        let ghost fuel0 = choose|fuel: nat| halts_within(m0, fuel);
        let ghost mut fuel = fuel0;
        let ghost threshold = self.gc_threshold;
        while cs.frames.len() > 0
            invariant
                halts_within(self.machine(&cs), fuel),
                run_steps(self.machine(&cs), fuel) == run_steps(m0, fuel0),
                self.gc_threshold == threshold,
            decreases fuel,
        {
            proof {
                lemma_step_halts(self.machine(&cs), fuel);
            }
            if !self.step(&mut cs) {
                return vstd::pervasive::unreached();
            }
            proof {
                fuel = (fuel - 1) as nat;
            }
        }
        self.acc
    }

    /// Lexes, parses and compiles `source` onto this isolate's heap, then
    /// runs the top-level closure and returns the accumulator. The source
    /// must compile and its execution halt without a failing step.
    pub fn eval(&mut self, source: &str) -> (v: Value)
        requires
            eval_start(old(self).acc, old(self).heap@, old(self).gc_threshold, source@) matches Some(m0) && halts(m0),
        ensures
            v == final_state(eval_start(old(self).acc, old(self).heap@, old(self).gc_threshold, source@)->0).acc,
            final(self).acc == v,
            final(self).heap@ == final_state(
                eval_start(old(self).acc, old(self).heap@, old(self).gc_threshold, source@)->0,
            ).heap,
            final(self).gc_threshold == old(self).gc_threshold,
    {
        let tokens = Lexer::lex(source);
        let mut parser = Parser::new(tokens);
        let stmts = parser.parse();
        let mut compiler = Compiler::init();
        assert(compiler.state(self.heap@) == empty_state(self.heap@));
        compiler.compile_stmts(stmts.as_slice(), &mut self.heap);
        let closure = compiler.finalize(&mut self.heap);
        self.run(closure)
    }
    /// Runs the closure `closure` for at most `fuel` steps. `Some` of the
    /// accumulator exactly when the run halts within `fuel` steps with no
    /// step failing; the isolate then holds the final state.
    pub fn run_bounded(&mut self, closure: Value, fuel: u64) -> (r: Option<Value>)
        ensures
            match start(old(self).acc, old(self).heap@, old(self).gc_threshold, closure) {
                Some(m0) => {
                    &&& (r is Some <==> halts_within(m0, fuel as nat))
                    &&& r is Some ==> {
                        &&& r == Some(run_steps(m0, fuel as nat)->0.acc)
                        &&& final(self).acc == run_steps(m0, fuel as nat)->0.acc
                        &&& final(self).heap@ == run_steps(m0, fuel as nat)->0.heap
                    }
                },
                None => r is None,
            },
            final(self).gc_threshold == old(self).gc_threshold,
    {
        let ghost m0 = start(self.acc, self.heap@, self.gc_threshold, closure)->0;
        let register_count = match function_of(&self.heap, closure) {
            Some(f) => f.register_count,
            None => {
                return None;
            },
        };
        let mut cs = CallStack::new(register_count, closure);
        assert(self.machine(&cs) == m0);
        let mut k: u64 = 0;
        while k < fuel && cs.frames.len() > 0
            invariant
                k <= fuel,
                start(old(self).acc, old(self).heap@, old(self).gc_threshold, closure) == Some(m0),
                run_steps(self.machine(&cs), (fuel - k) as nat) == run_steps(m0, fuel as nat),
                self.gc_threshold == old(self).gc_threshold,
            decreases fuel - k,
        {
            if !self.step(&mut cs) {
                return None;
            }
            k += 1;
        }
        if cs.frames.len() > 0 {
            return None;
        }
        Some(self.acc)
    }

    /// Lexes, parses and compiles `source` onto this isolate's heap, then
    /// runs the top-level closure for at most `fuel` steps. `Some` of the
    /// accumulator exactly when the source compiles and its run halts within
    /// `fuel` steps with no step failing; the isolate then holds the final state.
    pub fn try_eval(&mut self, source: &str, fuel: u64) -> (r: Option<Value>)
        ensures
            match eval_start(old(self).acc, old(self).heap@, old(self).gc_threshold, source@) {
                Some(m0) => {
                    &&& (r is Some <==> halts_within(m0, fuel as nat))
                    &&& r is Some ==> {
                        &&& r == Some(run_steps(m0, fuel as nat)->0.acc)
                        &&& final(self).acc == run_steps(m0, fuel as nat)->0.acc
                        &&& final(self).heap@ == run_steps(m0, fuel as nat)->0.heap
                    }
                },
                None => r is None,
            },
            final(self).gc_threshold == old(self).gc_threshold,
    {
        let tokens = match Lexer::try_lex(source) {
            Some(t) => t,
            None => {
                return None;
            },
        };
        let mut parser = Parser::new(tokens);
        let stmts = match parser.try_parse() {
            Some(s) => s,
            None => {
                return None;
            },
        };
        let mut compiler = Compiler::init();
        assert(compiler.state(self.heap@) == empty_state(self.heap@));
        if !compiler.compile_stmts_checked(stmts.as_slice(), &mut self.heap) {
            return None;
        }
        let closure = compiler.finalize(&mut self.heap);
        self.run_bounded(closure, fuel)
    }
}

} // verus!