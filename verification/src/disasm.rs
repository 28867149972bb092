use vstd::prelude::*;

use crate::bytecode::{ByteCode, Compiler, decode, op_name};
use crate::text::{decimal_digits, push_char, push_decimal_digits, push_str};
use crate::value::Value;

verus! {

/// The decimal digits of `n`, padded on the left with zeros to `width`.
pub open spec fn zero_padded(n: nat, width: nat) -> Seq<char> {
    let d = decimal_digits(n);
    if d.len() < width {
        Seq::new((width - d.len()) as nat, |i: int| '0') + d
    } else {
        d
    }
}

/// How a value prints in debug form: `Value(` and its raw word.
pub open spec fn value_debug(v: Value) -> Seq<char> {
    "Value("@ + decimal_digits(v.0 as nat) + ")"@
}

/// The debug forms of values, separated by ", ".
pub open spec fn values_debug_items(vs: Seq<Value>) -> Seq<char>
    decreases vs.len(),
{
    if vs.len() == 0 {
        Seq::empty()
    } else if vs.len() == 1 {
        value_debug(vs[0])
    } else {
        values_debug_items(vs.drop_last()) + ", "@ + value_debug(vs.last())
    }
}

/// How a list of values prints in debug form.
pub open spec fn values_debug(vs: Seq<Value>) -> Seq<char> {
    "["@ + values_debug_items(vs) + "]"@
}

/// Whether an instruction's operand names a register.
pub open spec fn register_operand(op: ByteCode) -> bool {
    match op {
        ByteCode::Star | ByteCode::Ldar | ByteCode::Add | ByteCode::Sub | ByteCode::Mul | ByteCode::Div
        | ByteCode::TestEqual | ByteCode::TestLess | ByteCode::TestGreater | ByteCode::TestLessEqual
        | ByteCode::TestGreaterEqual | ByteCode::TestNotEqual | ByteCode::LogicalAnd | ByteCode::LogicalOr => true,
        _ => false,
    }
}

/// What follows the name of the instruction `op` at `i` whose operand byte
/// is at `i + 1`, up to the end of its line, and where the next one starts.
pub open spec fn operand_text(code: Seq<u8>, cons: Seq<Value>, op: ByteCode, i: int) -> (Seq<char>, int) {
    let operand = code[i + 1] as nat;
    if op == ByteCode::LdaSmi || op == ByteCode::Push {
        if operand < cons.len() {
            (" ["@ + decimal_digits(operand) + "] ("@ + value_debug(cons[operand as int]) + ")\n"@, i + 2)
        } else {
            (" ["@ + decimal_digits(operand) + "]\n"@, i + 2)
        }
    } else if register_operand(op) {
        (" r"@ + decimal_digits(operand) + "\n"@, i + 2)
    } else if op == ByteCode::Call {
        let arg_end: nat = if i + 2 < code.len() {
            code[i + 2] as nat
        } else {
            0
        };
        (" r"@ + decimal_digits(operand) + " args@r"@ + decimal_digits(arg_end) + "\n"@, i + 3)
    } else {
        (" "@ + decimal_digits(operand) + "\n"@, i + 2)
    }
}

/// The listing line of the instruction at `i`, and where the next one
/// starts; `None` if the byte at `i` is no opcode.
pub open spec fn dis_line(indent: Seq<char>, code: Seq<u8>, cons: Seq<Value>, i: int) -> Option<(Seq<char>, int)> {
    match decode(code[i]) {
        None => None,
        Some(op) => {
            let head = indent + "  "@ + zero_padded(i as nat, 4) + "  "@ + op_name(op);
            if op == ByteCode::Return || op == ByteCode::LogicalNot || i + 1 >= code.len() {
                Some((head + "\n"@, i + 1))
            } else {
                let (rest, next) = operand_text(code, cons, op, i);
                Some((head + rest, next))
            }
        },
    }
}

/// The listing lines of the instructions from `i` on; `None` if one of the
/// bytes read as an opcode is none.
pub open spec fn dis_lines(indent: Seq<char>, code: Seq<u8>, cons: Seq<Value>, i: int) -> Option<Seq<char>>
    decreases code.len() - i,
{
    if i < 0 || i >= code.len() {
        Some(Seq::empty())
    } else {
        match dis_line(indent, code, cons, i) {
            Some((line, next)) => if next >= code.len() {
                Some(line)
            } else if next > i {
                match dis_lines(indent, code, cons, next) {
                    Some(rest) => Some(line + rest),
                    None => None,
                }
            } else {
                None
            },
            None => None,
        }
    }
}

/// The listing of a compiled function: its constants, its register and
/// parameter counts, then one line per instruction, each line after `indent`.
pub open spec fn disassembly(indent: Seq<char>, code: Seq<u8>, cons: Seq<Value>, regs: usize, params: usize) -> Option<Seq<char>> {
    match dis_lines(indent, code, cons, 0) {
        Some(lines) => Some(
            indent + "Constants: "@ + values_debug(cons) + "\n"@ + indent + "Registers: "@ + decimal_digits(
                regs as nat,
            ) + ", Params: "@ + decimal_digits(params as nat) + "\n"@ + indent + "Bytecode:\n"@ + lines,
        ),
        None => None,
    }
}

/// The number of decimal digits of `n`.
fn digit_count(n: u64) -> (k: u64)
    ensures
        k == decimal_digits(n as nat).len(),
        1 <= k <= n / 2 + 1,
    decreases n,
{
    if n < 10 {
        1
    } else {
        digit_count(n / 10) + 1
    }
}

/// Appends `n` zero-padded to `width` digits.
fn push_zero_padded(s: &mut String, n: u64, width: usize)
    ensures
        final(s)@ == old(s)@ + zero_padded(n as nat, width as nat),
{
    let k = digit_count(n);
    let ghost before = s@;
    if k < width as u64 {
        let k = k as usize;
        let mut j: usize = 0;
        while j < width - k
            invariant
                k < width,
                0 <= j <= width - k,
                s@ == before + Seq::new(j as nat, |i: int| '0'),
            decreases width - k - j,
        {
            push_char(s, '0');
            j += 1;
            assert(s@ =~= before + Seq::new(j as nat, |i: int| '0'));
        }
    }
    push_decimal_digits(s, n);
    assert(s@ =~= before + zero_padded(n as nat, width as nat));
}

/// Appends the debug form of `v`.
fn push_value_debug(s: &mut String, v: Value)
    ensures
        final(s)@ == old(s)@ + value_debug(v),
{
    push_str(s, "Value(");
    push_decimal_digits(s, v.0);
    push_str(s, ")");
    assert(s@ =~= old(s)@ + value_debug(v));
}

/// Appends the debug form of a list of values.
fn push_values_debug(s: &mut String, vs: &Vec<Value>)
    ensures
        final(s)@ == old(s)@ + values_debug(vs@),
{
    push_str(s, "[");
    let ghost before = s@;
    let mut i: usize = 0;
    while i < vs.len()
        invariant
            0 <= i <= vs.len(),
            s@ == before + values_debug_items(vs@.take(i as int)),
        decreases vs.len() - i,
    {
        assert(vs@.take(i + 1).drop_last() =~= vs@.take(i as int));
        if i > 0 {
            push_str(s, ", ");
        }
        push_value_debug(s, vs[i]);
        i += 1;
        assert(s@ =~= before + values_debug_items(vs@.take(i as int)));
    }
    assert(vs@.take(i as int) =~= vs@);
    push_str(s, "]");
    assert(s@ =~= old(s)@ + values_debug(vs@));
}

/// Appends what follows the name of the instruction `op` at `i`; returns
/// where the next instruction starts, or the end of the code if that is past it.
fn push_operand_text(s: &mut String, code: &Vec<u8>, cons: &Vec<Value>, op: ByteCode, i: usize) -> (next: usize)
    requires
        i + 1 < code.len(),
    ensures
        final(s)@ == old(s)@ + operand_text(code@, cons@, op, i as int).0,
        next == operand_text(code@, cons@, op, i as int).1 || (operand_text(code@, cons@, op, i as int).1
            >= code.len() && next == code.len()),
        i < next <= code.len(),
{
    let operand = code[i + 1];
    let ghost before = s@;
    if op == ByteCode::LdaSmi || op == ByteCode::Push {
        push_str(s, " [");
        push_decimal_digits(s, operand as u64);
        if (operand as usize) < cons.len() {
            push_str(s, "] (");
            push_value_debug(s, cons[operand as usize]);
            push_str(s, ")\n");
        } else {
            push_str(s, "]\n");
        }
        assert(s@ =~= before + operand_text(code@, cons@, op, i as int).0);
        i + 2
    } else if op == ByteCode::Star || op == ByteCode::Ldar || op == ByteCode::Add || op == ByteCode::Sub
        || op == ByteCode::Mul || op == ByteCode::Div || op == ByteCode::TestEqual || op == ByteCode::TestLess
        || op == ByteCode::TestGreater || op == ByteCode::TestLessEqual || op == ByteCode::TestGreaterEqual
        || op == ByteCode::TestNotEqual || op == ByteCode::LogicalAnd || op == ByteCode::LogicalOr {
        push_str(s, " r");
        push_decimal_digits(s, operand as u64);
        push_str(s, "\n");
        assert(s@ =~= before + operand_text(code@, cons@, op, i as int).0);
        i + 2
    } else if op == ByteCode::Call {
        let arg_end: u64 = if i + 2 < code.len() {
            code[i + 2] as u64
        } else {
            0
        };
        push_str(s, " r");
        push_decimal_digits(s, operand as u64);
        push_str(s, " args@r");
        push_decimal_digits(s, arg_end);
        push_str(s, "\n");
        assert(s@ =~= before + operand_text(code@, cons@, op, i as int).0);
        if i + 2 < code.len() {
            i + 3
        } else {
            i + 2
        }
    } else {
        push_str(s, " ");
        push_decimal_digits(s, operand as u64);
        push_str(s, "\n");
        assert(s@ =~= before + operand_text(code@, cons@, op, i as int).0);
        i + 2
    }
}

/// Appends the listing line of the instruction at `i`; returns where the
/// next instruction starts (the end of the code if that is past it), or
/// `None` if the byte at `i` is no opcode.
fn push_dis_line(s: &mut String, indent: &str, code: &Vec<u8>, cons: &Vec<Value>, i: usize) -> (next: Option<usize>)
    requires
        i < code.len(),
    ensures
        match dis_line(indent@, code@, cons@, i as int) {
            Some((line, n)) => {
                &&& final(s)@ == old(s)@ + line
                &&& next is Some
                &&& i < next->0 <= code.len()
                &&& (next->0 == n || (n >= code.len() && next->0 == code.len()))
            },
            None => next is None,
        },
{
    let op = match ByteCode::from_byte(code[i]) {
        Some(op) => op,
        None => {
            return None;
        },
    };
    let ghost before = s@;
    push_str(s, indent);
    push_str(s, "  ");
    push_zero_padded(s, i as u64, 4);
    push_str(s, "  ");
    push_str(s, op.display());
    let ghost head = indent@ + "  "@ + zero_padded(i as nat, 4) + "  "@ + op_name(op);
    assert(s@ =~= before + head);
    if op == ByteCode::Return || op == ByteCode::LogicalNot || i + 1 >= code.len() {
        push_str(s, "\n");
        assert(s@ =~= before + (head + "\n"@));
        return Some(i + 1);
    }
    let next = push_operand_text(s, code, cons, op, i);
    assert(s@ =~= before + (head + operand_text(code@, cons@, op, i as int).0));
    Some(next)
}

impl Compiler {
    /// The listing of the code compiled so far, each line after `indent`.
    /// Every byte read as an opcode must be one.
    pub fn disassemble(&self, indent: &str) -> (r: String)
        requires
            disassembly(indent@, self.code@, self.constant_pool@, self.next_reg, self.param_count) is Some,
        ensures
            r@ == disassembly(indent@, self.code@, self.constant_pool@, self.next_reg, self.param_count)->0,
    {
        let mut s = String::new();
        push_str(&mut s, indent);
        push_str(&mut s, "Constants: ");
        push_values_debug(&mut s, &self.constant_pool);
        push_str(&mut s, "\n");
        push_str(&mut s, indent);
        push_str(&mut s, "Registers: ");
        push_decimal_digits(&mut s, self.next_reg as u64);
        push_str(&mut s, ", Params: ");
        push_decimal_digits(&mut s, self.param_count as u64);
        push_str(&mut s, "\n");
        push_str(&mut s, indent);
        push_str(&mut s, "Bytecode:\n");
        let ghost header = s@;
        let ghost all = dis_lines(indent@, self.code@, self.constant_pool@, 0)->0;
        let mut i: usize = 0;
        while i < self.code.len()
            invariant
                dis_lines(indent@, self.code@, self.constant_pool@, i as int) is Some,
                header + all == s@ + dis_lines(indent@, self.code@, self.constant_pool@, i as int)->0,
            decreases self.code.len() - i,
        {
            match push_dis_line(&mut s, indent, &self.code, &self.constant_pool, i) {
                Some(n) => {
                    assert(s@ + dis_lines(indent@, self.code@, self.constant_pool@, n as int)->0 =~= header + all);
                    i = n;
                },
                None => {
                    return s;
                },
            }
        }
        assert(s@ =~= header + all);
        s
    }

    /// The listing of the code compiled so far, with no indent.
    pub fn display(&self) -> (r: String)
        requires
            disassembly(""@, self.code@, self.constant_pool@, self.next_reg, self.param_count) is Some,
        ensures
            r@ == disassembly(""@, self.code@, self.constant_pool@, self.next_reg, self.param_count)->0,
    {
        self.disassemble("")
    }
}

} // verus!
