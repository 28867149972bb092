use vstd::prelude::*;

use crate::bytecode::{ByteCode, Program, decode};
use crate::heap::{Heap, SpecObject};
use crate::machine::{combine, combine_values, flag, flag_value, smi, string_at};
use crate::text::{decimal, decimal_string, push_str};
use crate::value::Value;

verus! {

/// The number of registers of every frame of the frame-per-call machine.
pub open spec fn frame_regs() -> nat {
    256
}

/// A frame of the frame-per-call machine: the next instruction, its own
/// registers, and which code it runs (`None` for the program itself,
/// `Some(k)` for the program's function `k`).
pub struct CallRecord {
    pub ip: usize,
    pub regs: Seq<Value>,
    pub func: Option<usize>,
}

/// The state of the frame-per-call machine.
pub struct VmRun {
    pub acc: Value,
    pub heap: Seq<Option<SpecObject>>,
    pub frames: Seq<CallRecord>,
}

/// The code and constants a frame runs, if its function exists.
pub open spec fn unit_of(p: Program, func: Option<usize>) -> Option<(Seq<u8>, Seq<Value>)> {
    match func {
        None => Some((p.code@, p.cons@)),
        Some(k) => if (k as int) < p.funcs@.len() {
            Some((p.funcs@[k as int].code@, p.funcs@[k as int].cons@))
        } else {
            None
        },
    }
}

/// The state with the top frame's next instruction at `ip`, if it fits in a word.
pub open spec fn vm_with_ip(m: VmRun, ip: int) -> Option<VmRun> {
    if 0 <= ip <= usize::MAX {
        Some(
            VmRun {
                frames: m.frames.update(m.frames.len() - 1, CallRecord { ip: ip as usize, ..m.frames.last() }),
                ..m
            },
        )
    } else {
        None
    }
}

/// The state after the top frame returns.
pub open spec fn vm_popped(m: VmRun) -> VmRun {
    VmRun { frames: m.frames.drop_last(), ..m }
}

/// The registers of a new frame for a function with `params` parameters,
/// whose arguments are the caller's registers `arg_end - params .. arg_end`.
pub open spec fn callee_regs(caller: Seq<Value>, params: int, arg_end: int) -> Seq<Value> {
    Seq::new(
        frame_regs(),
        |i: int|
            if i < params {
                caller[arg_end - params + i]
            } else {
                Value(0)
            },
    )
}

/// One instruction of the top frame, whose code is `code` and constants
/// `consts`; `ip` is the position after its opcode.
pub open spec fn vm_exec(p: Program, m: VmRun, op: ByteCode, code: Seq<u8>, consts: Seq<Value>, ip: int) -> Option<VmRun> {
    let regs = m.frames.last().regs;
    match op {
        ByteCode::Push => vm_with_ip(m, ip + 1),
        ByteCode::Return => Some(vm_popped(m)),
        ByteCode::LogicalNot => vm_with_ip(VmRun { acc: flag(m.acc == smi(0)), ..m }, ip),
        _ => if 0 <= ip < code.len() {
            let x = code[ip];
            let next = ip + 1;
            match op {
                ByteCode::LdaSmi => if (x as int) < consts.len() {
                    vm_with_ip(VmRun { acc: consts[x as int], ..m }, next)
                } else {
                    None
                },
                ByteCode::Star => if (x as int) < regs.len() {
                    vm_with_ip(
                        VmRun {
                            frames: m.frames.update(
                                m.frames.len() - 1,
                                CallRecord { regs: regs.update(x as int, m.acc), ..m.frames.last() },
                            ),
                            ..m
                        },
                        next,
                    )
                } else {
                    None
                },
                ByteCode::Ldar => if (x as int) < regs.len() {
                    vm_with_ip(VmRun { acc: regs[x as int], ..m }, next)
                } else {
                    None
                },
                ByteCode::Jump => vm_with_ip(m, ip + x + 1),
                ByteCode::JumpIfFalse => vm_with_ip(
                    m,
                    if m.acc == smi(0) {
                        next + x
                    } else {
                        next
                    },
                ),
                ByteCode::JumpLoop => vm_with_ip(m, next - x),
                ByteCode::Call => if next < code.len() && (x as int) < p.funcs@.len() {
                    let arg_end = code[next] as int;
                    let params = p.funcs@[x as int].param_count as int;
                    if params > 0 && (params > arg_end || params > frame_regs() || arg_end > regs.len()) {
                        None
                    } else {
                        match vm_with_ip(m, next + 1) {
                            Some(m1) => Some(
                                VmRun {
                                    frames: m1.frames.push(
                                        CallRecord {
                                            ip: 0,
                                            regs: callee_regs(regs, params, arg_end),
                                            func: Some(x as usize),
                                        },
                                    ),
                                    ..m1
                                },
                            ),
                            None => None,
                        }
                    }
                } else {
                    None
                },
                _ => if (x as int) < regs.len() {
                    match combine(m.acc, m.heap, op, regs[x as int]) {
                        Some((v, h, _)) => vm_with_ip(VmRun { acc: v, heap: h, ..m }, next),
                        None => None,
                    }
                } else {
                    None
                },
            }
        } else {
            None
        },
    }
}

/// One step of the frame-per-call machine running `p`. A frame past the
/// end of its code returns; a call runs one of `p`'s functions with fresh
/// registers. `None` where the step fails.
pub open spec fn vm_step(p: Program, m: VmRun) -> Option<VmRun> {
    let fr = m.frames.last();
    match unit_of(p, fr.func) {
        Some((code, consts)) => if fr.ip >= code.len() {
            Some(vm_popped(m))
        } else {
            match decode(code[fr.ip as int]) {
                Some(op) => vm_exec(p, m, op, code, consts, fr.ip + 1),
                None => None,
            }
        },
        None => None,
    }
}

/// The state after up to `fuel` steps; it stops early when no frame is left.
pub open spec fn vm_run_steps(p: Program, m: VmRun, fuel: nat) -> Option<VmRun>
    decreases fuel,
{
    if m.frames.len() == 0 || fuel == 0 {
        Some(m)
    } else {
        match vm_step(p, m) {
            Some(m2) => vm_run_steps(p, m2, (fuel - 1) as nat),
            None => None,
        }
    }
}

/// Within `fuel` steps every frame has returned, with no step failing.
pub open spec fn vm_halts_within(p: Program, m: VmRun, fuel: nat) -> bool {
    vm_run_steps(p, m, fuel) matches Some(f) && f.frames.len() == 0
}

/// The execution of `p` from `m` ends, with no step failing.
pub open spec fn vm_halts(p: Program, m: VmRun) -> bool {
    exists|fuel: nat| vm_halts_within(p, m, fuel)
}

/// The state in which a halting execution ends.
pub open spec fn vm_final(p: Program, m: VmRun) -> VmRun {
    vm_run_steps(p, m, choose|fuel: nat| vm_halts_within(p, m, fuel))->0
}

/// The state in which running `p` starts: one frame with zeroed registers.
pub open spec fn vm_start(acc: Value, heap: Seq<Option<SpecObject>>) -> VmRun {
    VmRun {
        acc,
        heap,
        frames: seq![CallRecord { ip: 0, regs: Seq::new(frame_regs(), |i: int| Value(0)), func: None }],
    }
}

/// A halting execution that still has a frame takes a step that does not
/// fail, and ends where the execution from the next state ends.
pub proof fn lemma_vm_step_halts(p: Program, m: VmRun, fuel: nat)
    requires
        vm_halts_within(p, m, fuel),
        m.frames.len() > 0,
    ensures
        fuel > 0,
        vm_step(p, m) is Some,
        vm_halts_within(p, vm_step(p, m)->0, (fuel - 1) as nat),
        vm_run_steps(p, vm_step(p, m)->0, (fuel - 1) as nat) == vm_run_steps(p, m, fuel),
{
}

/// A frame of the frame-per-call machine.
struct Activation {
    ip: usize,
    regs: Vec<Value>,
    func: Option<usize>,
}

impl View for Activation {
    type V = CallRecord;

    closed spec fn view(&self) -> CallRecord {
        CallRecord { ip: self.ip, regs: self.regs@, func: self.func }
    }
}

/// The views of the frames.
spec fn records(fs: Seq<Activation>) -> Seq<CallRecord> {
    fs.map_values(|a: Activation| a@)
}

proof fn lemma_records_push(fs: Seq<Activation>, a: Activation)
    ensures
        records(fs.push(a)) == records(fs).push(a@),
{
    assert(records(fs.push(a)) =~= records(fs).push(a@));
}

proof fn lemma_records_pop(fs: Seq<Activation>)
    requires
        fs.len() > 0,
    ensures
        records(fs.drop_last()) == records(fs).drop_last(),
        records(fs).last() == fs.last()@,
{
    assert(records(fs.drop_last()) =~= records(fs).drop_last());
}

/// Replacing the top of a sequence is dropping it and pushing the new one.
proof fn lemma_replace_last<A>(s: Seq<A>, x: A)
    requires
        s.len() > 0,
    ensures
        s.drop_last().push(x) == s.update(s.len() - 1, x),
{
    assert(s.drop_last().push(x) =~= s.update(s.len() - 1, x));
}

/// A fresh register file, zeroed.
fn zero_regs() -> (r: Vec<Value>)
    ensures
        r@ == Seq::new(frame_regs(), |i: int| Value(0)),
{
    let mut r: Vec<Value> = Vec::new();
    while r.len() < 256
        invariant
            r.len() <= 256,
            forall|i: int| 0 <= i < r.len() ==> r@[i] == Value(0),
        decreases 256 - r.len(),
    {
        r.push(Value::default());
    }
    assert(r@ =~= Seq::new(frame_regs(), |i: int| Value(0)));
    r
}

/// The code and constants of a frame's function.
fn unit<'a>(p: &'a Program, func: Option<usize>) -> (r: Option<(&'a Vec<u8>, &'a Vec<Value>)>)
    ensures
        match r {
            Some((code, consts)) => unit_of(*p, func) == Some((code@, consts@)),
            None => unit_of(*p, func) is None,
        },
{
    match func {
        None => Some((&p.code, &p.cons)),
        Some(k) => if k < p.funcs.len() {
            Some((&p.funcs[k].code, &p.funcs[k].cons))
        } else {
            None
        },
    }
}

/// The frame-per-call machine: an accumulator and a heap. Every call gets a
/// frame with its own registers.
pub struct VM {
    pub acc: Value,
    pub heap: Heap,
}

impl VM {
    /// The machine state of this VM running the frames `fs`.
    spec fn run_state(&self, fs: Seq<Activation>) -> VmRun {
        VmRun { acc: self.acc, heap: self.heap@, frames: records(fs) }
    }

    /// A machine over `heap` with the accumulator zero.
    pub fn new(heap: Heap) -> (vm: VM)
        ensures
            vm.acc == Value(0),
            vm.heap@ == heap@,
    {
        VM { acc: Value::default(), heap }
    }

    /// How `val` prints: a Smi as its decimal integer, a reference as the
    /// string it designates, which must exist.
    pub fn format_value(&self, val: Value) -> (s: String)
        requires
            val.spec_is_smi() || string_at(self.heap@, val) is Some,
        ensures
            s@ == if val.spec_is_smi() {
                decimal(val.spec_as_smi() as int)
            } else {
                string_at(self.heap@, val)->0
            },
    {
        if val.is_smi() {
            decimal_string(val.as_smi())
        } else {
            self.heap.read_string(val).to_owned()
        }
    }

    /// The accumulator as a value prints.
    pub fn display(&self) -> (s: String)
        ensures
            s@ == "VM{acc: "@ + self.acc.text() + "}"@,
    {
        let mut s = "VM{acc: ".to_owned();
        let acc_text = self.acc.display();
        push_str(&mut s, acc_text.as_str());
        push_str(&mut s, "}");
        s
    }

    /// One step of `program` on the frames `frames`; `false` where it fails.
    fn step(&mut self, program: &Program, frames: &mut Vec<Activation>) -> (ok: bool)
        requires
            old(frames).len() > 0,
        ensures
            ok == vm_step(*program, old(self).run_state(old(frames)@)) is Some,
            ok ==> final(self).run_state(final(frames)@) == vm_step(*program, old(self).run_state(old(frames)@))->0,
    {
        let ghost m = self.run_state(frames@);
        proof {
            lemma_records_pop(frames@);
        }
        let fi = frames.len() - 1;
        let ip = frames[fi].ip;
        let func = frames[fi].func;
        let (code, consts) = match unit(program, func) {
            Some(u) => u,
            None => {
                return false;
            },
        };
        if ip >= code.len() {
            frames.pop();
            return true;
        }
        let op = match ByteCode::from_byte(code[ip]) {
            Some(op) => op,
            None => {
                return false;
            },
        };
        let pc = ip + 1;
        let mut fr = frames.pop().unwrap();
        let ghost rest = frames@;
        assert(records(rest) == m.frames.drop_last());
        assert(fr@ == m.frames.last());
        let ok = match op {
            ByteCode::Push => match pc.checked_add(1) {
                Some(n) => {
                    fr.ip = n;
                    true
                },
                None => false,
            },
            ByteCode::Return => {
                return true;
            },
            ByteCode::LogicalNot => {
                self.acc = flag_value(self.acc == Value::from_smi(0));
                fr.ip = pc;
                true
            },
            _ => if pc < code.len() {
                let x = code[pc];
                let next = pc + 1;
                match op {
                    ByteCode::LdaSmi => if (x as usize) < consts.len() {
                        self.acc = consts[x as usize];
                        fr.ip = next;
                        true
                    } else {
                        false
                    },
                    ByteCode::Star => if (x as usize) < fr.regs.len() {
                        fr.regs.set(x as usize, self.acc);
                        fr.ip = next;
                        proof {
                            let top = m.frames.len() - 1;
                            let stored = CallRecord {
                                regs: m.frames.last().regs.update(x as int, self.acc),
                                ..m.frames.last()
                            };
                            assert(m.frames.update(top, stored).update(top, fr@) =~= m.frames.update(top, fr@));
                        }
                        true
                    } else {
                        false
                    },
                    ByteCode::Ldar => if (x as usize) < fr.regs.len() {
                        self.acc = fr.regs[x as usize];
                        fr.ip = next;
                        true
                    } else {
                        false
                    },
                    ByteCode::Jump => match pc.checked_add(x as usize + 1) {
                        Some(n) => {
                            fr.ip = n;
                            true
                        },
                        None => false,
                    },
                    ByteCode::JumpIfFalse => {
                        let target = if self.acc == Value::from_smi(0) {
                            next.checked_add(x as usize)
                        } else {
                            Some(next)
                        };
                        match target {
                            Some(n) => {
                                fr.ip = n;
                                true
                            },
                            None => false,
                        }
                    },
                    ByteCode::JumpLoop => if next >= x as usize {
                        fr.ip = next - x as usize;
                        true
                    } else {
                        false
                    },
                    ByteCode::Call => {
                        if next < code.len() && (x as usize) < program.funcs.len() {
                            let arg_end = code[next] as usize;
                            let params = program.funcs[x as usize].param_count;
                            if params > 0 && (params > arg_end || params > 256 || arg_end > fr.regs.len()) {
                                false
                            } else {
                                let mut regs = zero_regs();
                                let mut i: usize = 0;
                                while i < params
                                    invariant
                                        0 <= i <= params,
                                        params > 0 ==> params <= arg_end && params <= 256 && arg_end
                                            <= fr.regs@.len(),
                                        regs@.len() == frame_regs(),
                                        forall|j: int|
                                            0 <= j < frame_regs() ==> #[trigger] regs@[j] == if j < i {
                                                fr.regs@[arg_end - params + j]
                                            } else {
                                                Value(0)
                                            },
                                    decreases params - i,
                                {
                                    regs.set(i, fr.regs[arg_end - params + i]);
                                    i += 1;
                                }
                                assert(regs@ =~= callee_regs(fr.regs@, params as int, arg_end as int));
                                fr.ip = next + 1;
                                frames.push(fr);
                                let callee = Activation { ip: 0, regs, func: Some(x as usize) };
                                proof {
                                    lemma_records_push(rest, fr);
                                    lemma_records_push(rest.push(fr), callee);
                                    lemma_replace_last(m.frames, fr@);
                                }
                                frames.push(callee);
                                return true;
                            }
                        } else {
                            false
                        }
                    },
                    _ => if (x as usize) < fr.regs.len() {
                        let r = fr.regs[x as usize];
                        match combine_values(&mut self.heap, self.acc, op, r) {
                            Some((v, _)) => {
                                self.acc = v;
                                fr.ip = next;
                                true
                            },
                            None => false,
                        }
                    } else {
                        false
                    },
                }
            } else {
                false
            },
        };
        frames.push(fr);
        proof {
            lemma_records_push(rest, fr);
            lemma_replace_last(m.frames, fr@);
        }
        ok
    }

    /// Runs `program` to the end and returns the accumulator. The execution
    /// must halt without a failing step.
    pub fn fde(&mut self, program: &Program) -> (v: Value)
        requires
            vm_halts(*program, vm_start(old(self).acc, old(self).heap@)),
        ensures
            v == vm_final(*program, vm_start(old(self).acc, old(self).heap@)).acc,
            final(self).acc == v,
            final(self).heap@ == vm_final(*program, vm_start(old(self).acc, old(self).heap@)).heap,
    {
        let ghost m0 = vm_start(self.acc, self.heap@);
        let mut frames: Vec<Activation> = Vec::new();
        let first = Activation { ip: 0, regs: zero_regs(), func: None };
        frames.push(first);
        proof {
            lemma_records_push(Seq::empty(), first);
            assert(frames@ =~= Seq::<Activation>::empty().push(first));
            assert(records(Seq::<Activation>::empty()) =~= Seq::<CallRecord>::empty());
        }
        assert(self.run_state(frames@).frames =~= m0.frames);
        let ghost fuel0 = choose|fuel: nat| vm_halts_within(*program, m0, fuel);
        let ghost mut fuel = fuel0;
        while frames.len() > 0
            invariant
                vm_halts_within(*program, self.run_state(frames@), fuel),
                vm_run_steps(*program, self.run_state(frames@), fuel) == vm_run_steps(*program, m0, fuel0),
            decreases fuel,
        {
            proof {
                lemma_vm_step_halts(*program, self.run_state(frames@), fuel);
            }
            if !self.step(program, &mut frames) {
                return vstd::pervasive::unreached();
            }
            proof {
                fuel = (fuel - 1) as nat;
            }
        }
        self.acc
    }
}

} // verus!
