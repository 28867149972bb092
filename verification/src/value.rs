use vstd::prelude::*;

use crate::text::{decimal, decimal_digits, decimal_string, push_decimal_digits, push_str};

verus! {

/// The universal currency of the engine: a 64-bit tagged word that is either
/// an inline small integer (Smi) or a reference to a heap slot.
///
/// Tagging scheme: bit 0 clear means Smi (payload shifted left by one),
/// bit 0 set means heap reference (slot index shifted left by one, or'ed with one).
#[derive(Debug, Clone, Copy, PartialEq, Eq, Structural)]
pub struct Value(pub u64);

/// Smallest integer a Smi can hold without losing its top bit.
pub open spec fn smi_min() -> int {
    -0x4000_0000_0000_0000
}

/// Largest integer a Smi can hold without losing its top bit.
pub open spec fn smi_max() -> int {
    0x3fff_ffff_ffff_ffff
}

impl Value {
    /// The tag bit is clear.
    pub open spec fn spec_is_smi(self) -> bool {
        self.0 & 1 == 0
    }

    /// The payload of a Smi: the word read as signed, shifted right arithmetically.
    pub open spec fn spec_as_smi(self) -> i64 {
        (self.0 as i64) >> 1
    }

    /// The slot index of a heap reference.
    pub open spec fn spec_heap_offset(self) -> usize {
        (self.0 >> 1) as usize
    }

    /// The word that `from_smi(n)` produces.
    pub open spec fn smi_bits(n: i64) -> u64 {
        (n as u64) << 1
    }

    /// The word that `from_heap(offset)` produces.
    pub open spec fn heap_bits(offset: u64) -> u64 {
        (offset << 1) | 1
    }

    pub fn from_smi(n: i64) -> (v: Value)
        ensures
            v.0 == Self::smi_bits(n),
    {
        Value((n as u64) << 1)
    }

    pub fn is_smi(self) -> (b: bool)
        ensures
            b == self.spec_is_smi(),
    {
        self.0 & 1 == 0
    }

    pub fn as_smi(self) -> (n: i64)
        ensures
            n == self.spec_as_smi(),
            smi_min() <= n <= smi_max(),
    {
        let x = self.0;
        assert((x as i64) >> 1 >= -0x4000_0000_0000_0000i64 && (x as i64) >> 1 <= 0x3fff_ffff_ffff_ffffi64)
            by (bit_vector);
        (x as i64) >> 1
    }

    pub fn from_heap(offset: usize) -> (v: Value)
        ensures
            v.0 == Self::heap_bits(offset as u64),
    {
        Value(((offset as u64) << 1) | 1)
    }

    pub fn is_heap_object(self) -> (b: bool)
        ensures
            b == !self.spec_is_smi(),
    {
        !self.is_smi()
    }

    pub fn heap_offset(self) -> (o: usize)
        ensures
            o == self.spec_heap_offset(),
    {
        let x = self.0;
        (x >> 1) as usize
    }

    /// How a value prints: a Smi as its decimal integer, a heap reference as
    /// `HeapObject(` and its slot index.
    pub open spec fn text(self) -> Seq<char> {
        if self.spec_is_smi() {
            decimal(self.spec_as_smi() as int)
        } else {
            "HeapObject("@ + decimal_digits(self.spec_heap_offset() as nat) + ")"@
        }
    }

    /// This value as it prints.
    pub fn display(self) -> (s: String)
        ensures
            s@ == self.text(),
    {
        if self.is_smi() {
            decimal_string(self.as_smi())
        } else {
            let mut s = "HeapObject(".to_owned();
            push_decimal_digits(&mut s, self.heap_offset() as u64);
            push_str(&mut s, ")");
            s
        }
    }
}

impl Default for Value {
    /// The Smi zero.
    fn default() -> (v: Value)
        ensures
            v == Value(0),
    {
        Value(0)
    }
}

} // verus!

verus! {

/// A Smi keeps every integer of its range: tagging then untagging gives the
/// integer back, and the tagged word is recognised as a Smi.
pub proof fn lemma_smi_roundtrip(n: i64)
    requires
        smi_min() <= n <= smi_max(),
    ensures
        Value(Value::smi_bits(n)).spec_is_smi(),
        Value(Value::smi_bits(n)).spec_as_smi() == n,
{
    assert(-0x4000_0000_0000_0000i64 <= n <= 0x3fff_ffff_ffff_ffffi64 ==> (((n as u64) << 1) as i64)
        >> 1 == n) by (bit_vector);
    assert(((n as u64) << 1) & 1 == 0) by (bit_vector);
}

/// A heap reference keeps its slot index, and is never taken for a Smi.
pub proof fn lemma_heap_roundtrip(offset: usize)
    requires
        offset <= 0x7fff_ffff_ffff_ffff,
    ensures
        !Value(Value::heap_bits(offset as u64)).spec_is_smi(),
        Value(Value::heap_bits(offset as u64)).spec_heap_offset() == offset,
{
    assert(((((offset as u64) << 1) | 1) & 1) == 1) by (bit_vector);
    assert(offset <= 0x7fff_ffff_ffff_ffff ==> ((((offset as u64) << 1) | 1) >> 1) as usize == offset)
        by (bit_vector);
}

} // verus!
