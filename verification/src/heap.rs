use vstd::prelude::*;

use crate::value::{Value, lemma_heap_roundtrip};

verus! {

/// A string on the managed heap.
pub struct HeapString {
    pub data: String,
}

/// A closure: a function together with its captured values.
pub struct HeapClosure {
    pub function: Value,
    pub upvalues: Vec<Value>,
}

/// The name the rest of the engine uses for a heap closure.
pub type Closure = HeapClosure;

/// A compiled function: its bytecode, constant pool, parameter count and
/// the number of registers a frame of it needs.
pub struct BytecodeFunction {
    pub code: Vec<u8>,
    pub constant_pool: Vec<Value>,
    pub param_count: usize,
    pub register_count: usize,
}

/// Everything that can live in a heap slot.
pub enum HeapObject {
    String(HeapString),
    Function(BytecodeFunction),
    Closure(HeapClosure),
}

/// The instance types of heap objects that carry a type tag.
pub enum InstanceType {
    String,
}

/// The mathematical form of a heap object.
pub enum SpecObject {
    String(Seq<char>),
    Function { code: Seq<u8>, constant_pool: Seq<Value>, param_count: usize, register_count: usize },
    Closure { function: Value, upvalues: Seq<Value> },
}

impl View for HeapObject {
    type V = SpecObject;

    open spec fn view(&self) -> SpecObject {
        match self {
            HeapObject::String(s) => SpecObject::String(s.data@),
            HeapObject::Function(f) => SpecObject::Function {
                code: f.code@,
                constant_pool: f.constant_pool@,
                param_count: f.param_count,
                register_count: f.register_count,
            },
            HeapObject::Closure(c) => SpecObject::Closure { function: c.function, upvalues: c.upvalues@ },
        }
    }
}

/// The view of an optional heap object.
pub open spec fn slot_view(o: Option<HeapObject>) -> Option<SpecObject> {
    match o {
        Some(obj) => Some(obj@),
        None => None,
    }
}

/// The values a heap object refers to: the constants of a function, the
/// function and captured values of a closure.
pub open spec fn children(o: SpecObject) -> Seq<Value> {
    match o {
        SpecObject::String(_) => Seq::empty(),
        SpecObject::Function { constant_pool, .. } => constant_pool,
        SpecObject::Closure { function, upvalues } => seq![function] + upvalues,
    }
}

/// The slot a value designates in a heap of `len` slots, if it designates one.
pub open spec fn slot_of(v: Value, len: int) -> Option<int> {
    if !v.spec_is_smi() && (v.spec_heap_offset() as int) < len {
        Some(v.spec_heap_offset() as int)
    } else {
        None
    }
}

/// The object in the slot at `v`'s offset, read without looking at the tag
/// bit, if that slot exists and is occupied.
pub open spec fn object_at(h: Seq<Option<SpecObject>>, v: Value) -> Option<SpecObject> {
    if (v.spec_heap_offset() as int) < h.len() {
        h[v.spec_heap_offset() as int]
    } else {
        None
    }
}

/// A chain of slots that starts at a slot a root designates and goes, step by
/// step, from an object to a slot one of its children designates.
pub open spec fn is_path(h: Seq<Option<SpecObject>>, roots: Seq<Value>, path: Seq<int>) -> bool {
    &&& path.len() > 0
    &&& exists|r: int| 0 <= r < roots.len() && slot_of(#[trigger] roots[r], h.len() as int) == Some(path[0])
    &&& forall|k: int|
        0 <= k < path.len() - 1 ==> {
            &&& 0 <= #[trigger] path[k] < h.len()
            &&& h[path[k]] is Some
            &&& exists|c: int|
                0 <= c < children(h[path[k]]->0).len() && slot_of(
                    #[trigger] children(h[path[k]]->0)[c],
                    h.len() as int,
                ) == Some(path[k + 1])
        }
}

/// A slot that some path from the roots reaches.
pub open spec fn reachable(h: Seq<Option<SpecObject>>, roots: Seq<Value>, i: int) -> bool {
    exists|path: Seq<int>| #[trigger] is_path(h, roots, path) && path.last() == i
}

/// The heap that mark-and-sweep leaves: reachable slots keep their object,
/// every other slot is emptied.
pub open spec fn swept(h: Seq<Option<SpecObject>>, roots: Seq<Value>) -> Seq<Option<SpecObject>> {
    Seq::new(h.len(), |i: int| if reachable(h, roots, i) { h[i] } else { None })
}

/// The first empty slot, or the number of slots if every slot is taken.
pub open spec fn first_free(h: Seq<Option<SpecObject>>) -> int
    decreases h.len(),
{
    if h.len() == 0 {
        0
    } else if first_free(h.drop_last()) < h.len() - 1 {
        first_free(h.drop_last())
    } else if h.last() is None {
        h.len() - 1
    } else {
        h.len() as int
    }
}

/// The heap after `o` is put into the first empty slot (or a new slot at the end).
pub open spec fn allocated(h: Seq<Option<SpecObject>>, o: SpecObject) -> Seq<Option<SpecObject>> {
    let i = first_free(h);
    if i < h.len() {
        h.update(i, Some(o))
    } else {
        h.push(Some(o))
    }
}

/// The number of occupied slots.
pub open spec fn live_count(h: Seq<Option<SpecObject>>) -> nat
    decreases h.len(),
{
    if h.len() == 0 {
        0
    } else {
        live_count(h.drop_last()) + if h.last() is Some {
            1nat
        } else {
            0nat
        }
    }
}

/// The managed heap: a sequence of slots, each empty or holding one object.
pub struct Heap {
    objects: Vec<Option<HeapObject>>,
}

impl View for Heap {
    type V = Seq<Option<SpecObject>>;

    closed spec fn view(&self) -> Seq<Option<SpecObject>> {
        self.objects@.map_values(|o: Option<HeapObject>| slot_view(o))
    }
}

/// The first free slot is empty, or one past the last slot; every slot before it is taken.
pub proof fn lemma_first_free(h: Seq<Option<SpecObject>>)
    ensures
        0 <= first_free(h) <= h.len(),
        first_free(h) < h.len() ==> h[first_free(h)] is None,
        forall|j: int| 0 <= j < first_free(h) ==> h[j] is Some,
    decreases h.len(),
{
    if h.len() > 0 {
        lemma_first_free(h.drop_last());
        assert forall|j: int| 0 <= j < first_free(h) implies h[j] is Some by {
            if j < h.len() - 1 {
                assert(h.drop_last()[j] == h[j]);
            }
        }
    }
}

proof fn lemma_live_count_bound(h: Seq<Option<SpecObject>>)
    ensures
        live_count(h) <= h.len(),
    decreases h.len(),
{
    if h.len() > 0 {
        lemma_live_count_bound(h.drop_last());
    }
}

impl Heap {
    pub fn new() -> (h: Self)
        ensures
            h@ == Seq::<Option<SpecObject>>::empty(),
    {
        let h = Heap { objects: Vec::new() };
        assert(h@ =~= Seq::<Option<SpecObject>>::empty());
        h
    }

    /// The object in the slot at `val`'s offset, if that slot exists and is occupied.
    pub fn get(&self, val: Value) -> (r: Option<&HeapObject>)
        ensures
            match r {
                Some(o) => object_at(self@, val) == Some(o@),
                None => object_at(self@, val) is None,
            },
    {
        let idx = val.heap_offset();
        if idx >= self.objects.len() {
            return None;
        }
        match &self.objects[idx] {
            Some(o) => Some(o),
            None => None,
        }
    }

    /// Puts `obj` into the first empty slot (or a new slot) and returns a reference to it.
    pub fn allocate(&mut self, obj: HeapObject) -> (v: Value)
        ensures
            final(self)@ == allocated(old(self)@, obj@),
            v == Value(Value::heap_bits(first_free(old(self)@) as u64)),
    {
        let ghost ov = obj@;
        proof {
            lemma_first_free(self@);
        }
        let mut idx: usize = 0;
        while idx < self.objects.len() && self.objects[idx].is_some()
            invariant
                0 <= idx <= self.objects.len(),
                forall|j: int| 0 <= j < idx ==> self@[j] is Some,
                self@ == old(self)@,
                self@.len() == self.objects.len(),
            decreases self.objects.len() - idx,
        {
            assert(self@[idx as int] is Some);
            idx += 1;
        }
        assert(idx < self@.len() ==> self@[idx as int] is None);
        assert(idx == first_free(self@));
        let ghost before = self@;
        if idx < self.objects.len() {
            self.objects.set(idx, Some(obj));
            assert(self@ =~= before.update(idx as int, Some(ov)));
        } else {
            self.objects.push(Some(obj));
            assert(self@ =~= before.push(Some(ov)));
        }
        Value::from_heap(idx)
    }

    /// Allocates a string with the characters of `s`.
    pub fn alloc_string(&mut self, s: &str) -> (v: Value)
        ensures
            final(self)@ == allocated(old(self)@, SpecObject::String(s@)),
            v == Value(Value::heap_bits(first_free(old(self)@) as u64)),
    {
        self.allocate(HeapObject::String(HeapString { data: s.to_owned() }))
    }

    /// The string in the slot at `val`'s offset; that slot must hold a string.
    pub fn read_string(&self, val: Value) -> (r: &str)
        requires
            object_at(self@, val) matches Some(SpecObject::String(_)),
        ensures
            object_at(self@, val) == Some(SpecObject::String(r@)),
    {
        let idx = val.heap_offset();
        match &self.objects[idx] {
            Some(HeapObject::String(s)) => s.data.as_str(),
            _ => vstd::pervasive::unreached(),
        }
    }

    /// The function in the slot at `val`'s offset; that slot must hold a function.
    pub fn read_function(&self, val: Value) -> (r: &BytecodeFunction)
        requires
            object_at(self@, val) matches Some(SpecObject::Function { .. }),
        ensures
            object_at(self@, val) == Some(HeapObject::Function(*r)@),
    {
        let idx = val.heap_offset();
        match &self.objects[idx] {
            Some(HeapObject::Function(f)) => f,
            _ => vstd::pervasive::unreached(),
        }
    }

    /// The closure in the slot at `val`'s offset; that slot must hold a closure.
    pub fn read_closure(&self, val: Value) -> (r: &HeapClosure)
        requires
            object_at(self@, val) matches Some(SpecObject::Closure { .. }),
        ensures
            object_at(self@, val) == Some(HeapObject::Closure(*r)@),
    {
        let idx = val.heap_offset();
        match &self.objects[idx] {
            Some(HeapObject::Closure(c)) => c,
            _ => vstd::pervasive::unreached(),
        }
    }
}

/// The number of entries still `false`.
pub open spec fn count_false(s: Seq<bool>) -> nat
    decreases s.len(),
{
    if s.len() == 0 {
        0
    } else {
        count_false(s.drop_last()) + if s.last() {
            0nat
        } else {
            1nat
        }
    }
}

proof fn lemma_count_false_update(s: Seq<bool>, i: int)
    requires
        0 <= i < s.len(),
        !s[i],
    ensures
        count_false(s.update(i, true)) + 1 == count_false(s),
    decreases s.len(),
{
    if i < s.len() - 1 {
        lemma_count_false_update(s.drop_last(), i);
        assert(s.update(i, true).drop_last() =~= s.drop_last().update(i, true));
    } else {
        assert(s.update(i, true).drop_last() =~= s.drop_last());
    }
}

/// A slot a root designates is reachable.
pub proof fn lemma_root_reachable(h: Seq<Option<SpecObject>>, roots: Seq<Value>, r: int, i: int)
    requires
        0 <= r < roots.len(),
        slot_of(roots[r], h.len() as int) == Some(i),
    ensures
        reachable(h, roots, i),
{
    let path = seq![i];
    assert(slot_of(roots[r], h.len() as int) == Some(path[0]));
    assert(is_path(h, roots, path));
}

/// A slot a child of a reachable object designates is reachable.
pub proof fn lemma_child_reachable(h: Seq<Option<SpecObject>>, roots: Seq<Value>, i: int, c: int, j: int)
    requires
        reachable(h, roots, i),
        0 <= i < h.len(),
        h[i] is Some,
        0 <= c < children(h[i]->0).len(),
        slot_of(children(h[i]->0)[c], h.len() as int) == Some(j),
    ensures
        reachable(h, roots, j),
{
    let path = choose|path: Seq<int>| #[trigger] is_path(h, roots, path) && path.last() == i;
    let p2 = path.push(j);
    let r = choose|r: int| 0 <= r < roots.len() && slot_of(#[trigger] roots[r], h.len() as int) == Some(path[0]);
    assert(slot_of(roots[r], h.len() as int) == Some(p2[0]));
    assert forall|k: int| 0 <= k < p2.len() - 1 implies {
        &&& 0 <= #[trigger] p2[k] < h.len()
        &&& h[p2[k]] is Some
        &&& exists|c2: int|
            0 <= c2 < children(h[p2[k]]->0).len() && slot_of(
                #[trigger] children(h[p2[k]]->0)[c2],
                h.len() as int,
            ) == Some(p2[k + 1])
    } by {
        if k < path.len() - 1 {
            assert(p2[k] == path[k]);
            assert(p2[k + 1] == path[k + 1]);
        } else {
            assert(p2[k] == i);
            assert(p2[k + 1] == j);
            assert(slot_of(children(h[p2[k]]->0)[c], h.len() as int) == Some(p2[k + 1]));
        }
    }
    assert(is_path(h, roots, p2));
}

/// Every reachable slot is a slot of the heap.
proof fn lemma_reachable_in_range(h: Seq<Option<SpecObject>>, roots: Seq<Value>, i: int)
    requires
        reachable(h, roots, i),
    ensures
        0 <= i < h.len(),
{
    let path = choose|path: Seq<int>| #[trigger] is_path(h, roots, path) && path.last() == i;
    if path.len() == 1 {
        let r = choose|r: int| 0 <= r < roots.len() && slot_of(#[trigger] roots[r], h.len() as int) == Some(path[0]);
    } else {
        let k = path.len() - 2;
        assert(0 <= path[k] < h.len());
        let c = choose|c: int|
            0 <= c < children(h[path[k]]->0).len() && slot_of(
                #[trigger] children(h[path[k]]->0)[c],
                h.len() as int,
            ) == Some(path[k + 1]);
    }
}

/// A set of marks that holds every occupied root slot and is closed under
/// the occupied children of marked objects holds every occupied slot of a path.
proof fn lemma_path_marked(h: Seq<Option<SpecObject>>, roots: Seq<Value>, marked: Seq<bool>, path: Seq<int>, k: int)
    requires
        is_path(h, roots, path),
        0 <= k < path.len(),
        marked.len() == h.len(),
        forall|r: int|
            0 <= r < roots.len() ==> (slot_of(#[trigger] roots[r], h.len() as int) matches Some(i) ==> (h[i] is Some
                ==> marked[i])),
        forall|i: int, c: int|
            0 <= i < h.len() && marked[i] && h[i] is Some && 0 <= c < children(h[i]->0).len() ==> (
            slot_of(#[trigger] children(h[i]->0)[c], h.len() as int) matches Some(j) ==> (h[j] is Some
                ==> marked[j])),
    ensures
        h[path[k]] is Some ==> marked[path[k]],
    decreases k,
{
    if k == 0 {
        let r = choose|r: int| 0 <= r < roots.len() && slot_of(#[trigger] roots[r], h.len() as int) == Some(path[0]);
    } else {
        lemma_path_marked(h, roots, marked, path, k - 1);
        assert(0 <= path[k - 1] < h.len());
        assert(h[path[k - 1]] is Some);
        let c = choose|c: int|
            0 <= c < children(h[path[k - 1]]->0).len() && slot_of(
                #[trigger] children(h[path[k - 1]]->0)[c],
                h.len() as int,
            ) == Some(path[k - 1 + 1]);
    }
}

/// What marking keeps: marked slots are occupied and reachable, values on the
/// stack designate reachable slots, and every root and every child of a marked
/// object that designates an occupied slot is marked or still on the stack.
pub open spec fn mark_inv(h: Seq<Option<SpecObject>>, roots: Seq<Value>, marked: Seq<bool>, stack: Seq<Value>) -> bool {
    let n = h.len() as int;
    &&& marked.len() == n
    &&& forall|i: int| 0 <= i < n && #[trigger] marked[i] ==> h[i] is Some
    &&& forall|i: int| 0 <= i < n && #[trigger] marked[i] ==> reachable(h, roots, i)
    &&& forall|k: int|
        0 <= k < stack.len() ==> (slot_of(#[trigger] stack[k], n) matches Some(i) ==> reachable(h, roots, i))
    &&& forall|r: int|
        0 <= r < roots.len() ==> (slot_of(#[trigger] roots[r], n) matches Some(i) ==> (h[i] is Some ==> marked[i]
            || stack.contains(roots[r])))
    &&& forall|i: int, c: int|
        0 <= i < n && marked[i] && h[i] is Some && 0 <= c < children(h[i]->0).len() ==> (slot_of(
            #[trigger] children(h[i]->0)[c],
            n,
        ) matches Some(j) ==> (h[j] is Some ==> marked[j] || stack.contains(children(h[i]->0)[c])))
}

/// Before marking, with nothing marked and the roots on the stack, the
/// marking invariant holds.
proof fn lemma_mark_start(h: Seq<Option<SpecObject>>, roots: Seq<Value>, marked: Seq<bool>)
    requires
        marked.len() == h.len(),
        forall|i: int| 0 <= i < marked.len() ==> !marked[i],
    ensures
        mark_inv(h, roots, marked, roots),
{
    let n = h.len() as int;
    assert forall|k: int|
        0 <= k < roots.len() implies (slot_of(#[trigger] roots[k], n) matches Some(i) ==> reachable(h, roots, i)) by {
        if slot_of(roots[k], n) is Some {
            lemma_root_reachable(h, roots, k, slot_of(roots[k], n)->0);
        }
    }
    assert forall|r: int| 0 <= r < roots.len() implies roots.contains(#[trigger] roots[r]) by {
        assert(roots[r] == roots[r]);
    }
}

/// With the stack empty, the marks hold every root slot and are closed under
/// children.
proof fn lemma_mark_closed(h: Seq<Option<SpecObject>>, roots: Seq<Value>, marked: Seq<bool>, stack: Seq<Value>)
    requires
        mark_inv(h, roots, marked, stack),
        stack.len() == 0,
    ensures
        forall|r: int|
            0 <= r < roots.len() ==> (slot_of(#[trigger] roots[r], h.len() as int) matches Some(i) ==> (h[i] is Some
                ==> marked[i])),
        forall|i: int, c: int|
            0 <= i < h.len() && marked[i] && h[i] is Some && 0 <= c < children(h[i]->0).len() ==> (
            slot_of(#[trigger] children(h[i]->0)[c], h.len() as int) matches Some(j) ==> (h[j] is Some
                ==> marked[j])),
{
    assert forall|x: Value| !stack.contains(x) by {}
}

/// When the stack is empty, the marks are exactly the reachable occupied slots.
proof fn lemma_mark_done(h: Seq<Option<SpecObject>>, roots: Seq<Value>, marked: Seq<bool>)
    requires
        marked.len() == h.len(),
        forall|i: int| 0 <= i < h.len() && #[trigger] marked[i] ==> h[i] is Some,
        forall|i: int| 0 <= i < h.len() && #[trigger] marked[i] ==> reachable(h, roots, i),
        forall|r: int|
            0 <= r < roots.len() ==> (slot_of(#[trigger] roots[r], h.len() as int) matches Some(i) ==> (h[i] is Some
                ==> marked[i])),
        forall|i: int, c: int|
            0 <= i < h.len() && marked[i] && h[i] is Some && 0 <= c < children(h[i]->0).len() ==> (
            slot_of(#[trigger] children(h[i]->0)[c], h.len() as int) matches Some(j) ==> (h[j] is Some
                ==> marked[j])),
    ensures
        forall|i: int| 0 <= i < h.len() ==> (marked[i] <==> (reachable(h, roots, i) && h[i] is Some)),
{
    assert forall|i: int| 0 <= i < h.len() && reachable(h, roots, i) && h[i] is Some implies marked[i] by {
        let path = choose|path: Seq<int>| #[trigger] is_path(h, roots, path) && path.last() == i;
        lemma_path_marked(h, roots, marked, path, path.len() - 1);
    }
}

/// A copy of a sequence of values.
fn copy_values(vs: &[Value]) -> (r: Vec<Value>)
    ensures
        r@ == vs@,
{
    let mut r: Vec<Value> = Vec::new();
    let mut k: usize = 0;
    while k < vs.len()
        invariant
            0 <= k <= vs.len(),
            r@ == vs@.take(k as int),
        decreases vs.len() - k,
    {
        r.push(vs[k]);
        k += 1;
        assert(r@ =~= vs@.take(k as int));
    }
    assert(vs@.take(vs.len() as int) =~= vs@);
    r
}

impl Heap {
    /// A machine word counts the slots of a heap.
    pub proof fn lemma_slots_fit(&self)
        ensures
            self@.len() <= usize::MAX,
    {
        vstd::std_specs::vec::axiom_spec_len(&self.objects);
        assert(self@.len() == self.objects@.len());
    }

    /// The number of occupied slots.
    pub fn len(&self) -> (n: usize)
        ensures
            n == live_count(self@),
    {
        let mut n: usize = 0;
        let mut i: usize = 0;
        while i < self.objects.len()
            invariant
                0 <= i <= self.objects.len(),
                self@.len() == self.objects.len(),
                n == live_count(self@.take(i as int)),
            decreases self.objects.len() - i,
        {
            proof {
                lemma_live_count_bound(self@.take(i as int));
                assert(self@.take(i + 1).drop_last() =~= self@.take(i as int));
            }
            if self.objects[i].is_some() {
                n += 1;
            }
            i += 1;
        }
        assert(self@.take(i as int) =~= self@);
        n
    }

    /// Whether the occupied slots exceed `threshold`.
    pub fn is_over_threshold(&self, threshold: usize) -> (b: bool)
        ensures
            b == (live_count(self@) > threshold),
    {
        self.len() > threshold
    }

    /// Points the closure in the slot at `closure`'s offset at `function`.
    pub fn patch_closure(&mut self, closure: Value, function: Value)
        requires
            object_at(old(self)@, closure) matches Some(SpecObject::Closure { .. }),
        ensures
            final(self)@ == old(self)@.update(
                closure.spec_heap_offset() as int,
                Some(SpecObject::Closure { function, upvalues: object_at(old(self)@, closure)->0->upvalues }),
            ),
    {
        let idx = closure.heap_offset();
        let upvalues = match &self.objects[idx] {
            Some(HeapObject::Closure(c)) => copy_values(c.upvalues.as_slice()),
            _ => vstd::pervasive::unreached(),
        };
        let ghost before = self@;
        let ghost uv = upvalues@;
        self.objects.set(idx, Some(HeapObject::Closure(HeapClosure { function, upvalues })));
        assert(self@ =~= before.update(idx as int, Some(SpecObject::Closure { function, upvalues: uv })));
    }

    /// Pushes the values the object in slot `idx` refers to.
    fn push_children(&self, idx: usize, stack: &mut Vec<Value>)
        requires
            idx < self@.len(),
            self@[idx as int] is Some,
        ensures
            final(stack)@ == old(stack)@ + children(self@[idx as int]->0),
    {
        let ghost obj = self@[idx as int]->0;
        let ghost before_push = stack@;
        match &self.objects[idx] {
            Some(HeapObject::String(_)) => {
                assert(stack@ =~= before_push + children(obj));
            },
            Some(HeapObject::Function(f)) => {
                let mut k: usize = 0;
                while k < f.constant_pool.len()
                    invariant
                        0 <= k <= f.constant_pool.len(),
                        stack@ == before_push + f.constant_pool@.take(k as int),
                    decreases f.constant_pool.len() - k,
                {
                    stack.push(f.constant_pool[k]);
                    k += 1;
                    assert(stack@ =~= before_push + f.constant_pool@.take(k as int));
                }
                assert(f.constant_pool@.take(k as int) =~= children(obj));
            },
            Some(HeapObject::Closure(c)) => {
                stack.push(c.function);
                let mut k: usize = 0;
                while k < c.upvalues.len()
                    invariant
                        0 <= k <= c.upvalues.len(),
                        stack@ == before_push + seq![c.function] + c.upvalues@.take(k as int),
                    decreases c.upvalues.len() - k,
                {
                    stack.push(c.upvalues[k]);
                    k += 1;
                    assert(stack@ =~= before_push + seq![c.function] + c.upvalues@.take(k as int));
                }
                assert(seq![c.function] + c.upvalues@.take(k as int) =~= children(obj));
                assert(stack@ =~= before_push + children(obj));
            },
            None => {
                assert(false);
            },
        }
    }

    /// One step of marking: pops a value and, if it designates an unmarked
    /// occupied slot, marks that slot and pushes its children. A reference to
    /// an empty slot is skipped.
    fn mark_step(&self, marked: &mut Vec<bool>, stack: &mut Vec<Value>, Ghost(roots): Ghost<Seq<Value>>)
        requires
            mark_inv(self@, roots, old(marked)@, old(stack)@),
            old(stack)@.len() > 0,
        ensures
            mark_inv(self@, roots, final(marked)@, final(stack)@),
            count_false(final(marked)@) < count_false(old(marked)@) || (count_false(final(marked)@) == count_false(
                old(marked)@,
            ) && final(stack)@.len() < old(stack)@.len()),
    {
        let ghost h = self@;
        let n = self.objects.len();
        let ghost old_stack = stack@;
        let v = stack.pop().unwrap();
        assert(stack@ == old_stack.drop_last());
        assert(v == old_stack.last());
        assert forall|x: Value| old_stack.contains(x) && x != v implies stack@.contains(x) by {
            let k = choose|k: int| 0 <= k < old_stack.len() && old_stack[k] == x;
            assert(k < old_stack.len() - 1);
            assert(stack@[k] == x);
        }
        if v.is_heap_object() {
            let idx = v.heap_offset();
            if idx < n && !marked[idx] {
                assert(slot_of(old_stack[old_stack.len() - 1], n as int) == Some(idx as int));
                if self.objects[idx].is_none() {
                    return;
                }
                proof {
                    lemma_count_false_update(marked@, idx as int);
                }
                marked.set(idx, true);
                let ghost obj = h[idx as int]->0;
                let ghost before_push = stack@;
                self.push_children(idx, stack);
                assert(stack@ =~= before_push + children(obj));
                assert forall|c: int| 0 <= c < children(obj).len() implies stack@.contains(
                    children(obj)[c],
                ) by {
                    assert(stack@[before_push.len() + c] == children(obj)[c]);
                }
                assert forall|x: Value| before_push.contains(x) implies stack@.contains(x) by {
                    let k = choose|k: int| 0 <= k < before_push.len() && before_push[k] == x;
                    assert(stack@[k] == x);
                }
                assert forall|k: int|
                    0 <= k < stack@.len() implies (slot_of(#[trigger] stack@[k], n as int) matches Some(i)
                        ==> reachable(h, roots, i)) by {
                    let i = slot_of(stack@[k], n as int)->0;
                    if slot_of(stack@[k], n as int) is None {
                    } else if k >= before_push.len() {
                        let c = k - before_push.len();
                        assert(stack@[k] == children(obj)[c]);
                        lemma_child_reachable(h, roots, idx as int, c, i);
                    } else {
                        assert(stack@[k] == old_stack[k]);
                    }
                }
            }
        }
    }

    /// The marks of the occupied slots reachable from `roots`.
    fn mark(&self, roots: &[Value]) -> (marked: Vec<bool>)
        ensures
            marked@.len() == self@.len(),
            forall|i: int|
                0 <= i < self@.len() ==> (marked@[i] <==> (reachable(self@, roots@, i) && self@[i] is Some)),
    {
        let ghost h = self@;
        let n = self.objects.len();
        let mut marked: Vec<bool> = Vec::new();
        while marked.len() < n
            invariant
                marked@.len() <= n,
                forall|i: int| 0 <= i < marked@.len() ==> !marked@[i],
            decreases n - marked@.len(),
        {
            marked.push(false);
        }
        let mut stack = copy_values(roots);
        proof {
            lemma_mark_start(h, roots@, marked@);
        }
        while stack.len() > 0
            invariant
                h == self@,
                mark_inv(h, roots@, marked@, stack@),
            decreases count_false(marked@), stack@.len(),
        {
            self.mark_step(&mut marked, &mut stack, Ghost(roots@));
        }
        proof {
            lemma_mark_closed(h, roots@, marked@, stack@);
            lemma_mark_done(h, roots@, marked@);
        }
        marked
    }

    /// Mark-and-sweep: every slot unreachable from `roots` is emptied. A
    /// reference to an empty slot, or past the last slot, is skipped.
    pub fn collect(&mut self, roots: &[Value])
        ensures
            final(self)@ == swept(old(self)@, roots@),
    {
        let ghost h = self@;
        let marked = self.mark(roots);
        let n = self.objects.len();
        let mut i: usize = 0;
        while i < n
            invariant
                0 <= i <= n,
                n == h.len(),
                marked@.len() == n,
                forall|j: int| 0 <= j < n ==> (marked@[j] <==> (reachable(h, roots@, j) && h[j] is Some)),
                self@.len() == n,
                self.objects@.len() == n,
                forall|j: int| 0 <= j < i ==> #[trigger] self@[j] == (if reachable(h, roots@, j) { h[j] } else { None }),
                forall|j: int| i <= j < n ==> #[trigger] self@[j] == h[j],
            decreases n - i,
        {
            if !marked[i] {
                let ghost before = self@;
                self.objects.set(i, None);
                assert(self@ =~= before.update(i as int, None));
            }
            i += 1;
        }
        assert(self@ =~= swept(h, roots@));
    }
}

/// Filling an empty slot, or adding a slot, adds one live object.
proof fn lemma_live_count_fill(h: Seq<Option<SpecObject>>, i: int, o: SpecObject)
    requires
        0 <= i < h.len(),
        h[i] is None,
    ensures
        live_count(h.update(i, Some(o))) == live_count(h) + 1,
    decreases h.len(),
{
    if i < h.len() - 1 {
        lemma_live_count_fill(h.drop_last(), i, o);
        assert(h.update(i, Some(o)).drop_last() =~= h.drop_last().update(i, Some(o)));
    } else {
        assert(h.update(i, Some(o)).drop_last() =~= h.drop_last());
    }
}

/// Allocation puts the object into the first empty slot, or a new slot at
/// the end when every slot is taken; the reference it returns reads the
/// object back, every other slot keeps its object, and one more object is live.
pub proof fn lemma_allocate_reads_back(h: Seq<Option<SpecObject>>, o: SpecObject)
    requires
        first_free(h) <= 0x7fff_ffff_ffff_ffff,
        first_free(h) <= usize::MAX,
    ensures
        object_at(allocated(h, o), Value(Value::heap_bits(first_free(h) as u64))) == Some(o),
        forall|i: int| 0 <= i < h.len() && i != first_free(h) ==> #[trigger] allocated(h, o)[i] == h[i],
        allocated(h, o).len() == if first_free(h) < h.len() {
            h.len() as int
        } else {
            h.len() + 1int
        },
        live_count(allocated(h, o)) == live_count(h) + 1,
{
    lemma_first_free(h);
    lemma_heap_roundtrip(first_free(h) as usize);
    let i = first_free(h);
    if i < h.len() {
        lemma_live_count_fill(h, i, o);
    } else {
        assert(h.push(Some(o)).drop_last() =~= h);
    }
}

/// Every slot on a path from the roots is reachable.
proof fn lemma_path_slots_reachable(h: Seq<Option<SpecObject>>, roots: Seq<Value>, path: Seq<int>, k: int)
    requires
        is_path(h, roots, path),
        0 <= k < path.len(),
    ensures
        reachable(h, roots, path[k]),
{
    let p = path.take(k + 1);
    let r = choose|r: int| 0 <= r < roots.len() && slot_of(#[trigger] roots[r], h.len() as int) == Some(path[0]);
    assert(slot_of(roots[r], h.len() as int) == Some(p[0]));
    assert forall|j: int| 0 <= j < p.len() - 1 implies {
        &&& 0 <= #[trigger] p[j] < h.len()
        &&& h[p[j]] is Some
        &&& exists|c: int|
            0 <= c < children(h[p[j]]->0).len() && slot_of(
                #[trigger] children(h[p[j]]->0)[c],
                h.len() as int,
            ) == Some(p[j + 1])
    } by {
        assert(p[j] == path[j]);
        assert(p[j + 1] == path[j + 1]);
        assert(0 <= path[j] < h.len());
    }
    assert(is_path(h, roots, p));
}

/// A path from the roots in the swept heap is one in the heap, and back.
proof fn lemma_swept_paths(h: Seq<Option<SpecObject>>, roots: Seq<Value>, path: Seq<int>)
    ensures
        is_path(swept(h, roots), roots, path) <==> is_path(h, roots, path),
{
    let sw = swept(h, roots);
    if is_path(h, roots, path) {
        let r = choose|r: int| 0 <= r < roots.len() && slot_of(#[trigger] roots[r], h.len() as int) == Some(path[0]);
        assert(slot_of(roots[r], sw.len() as int) == Some(path[0]));
        assert forall|k: int| 0 <= k < path.len() - 1 implies {
            &&& 0 <= #[trigger] path[k] < sw.len()
            &&& sw[path[k]] is Some
            &&& exists|c: int|
                0 <= c < children(sw[path[k]]->0).len() && slot_of(
                    #[trigger] children(sw[path[k]]->0)[c],
                    sw.len() as int,
                ) == Some(path[k + 1])
        } by {
            assert(0 <= path[k] < h.len());
            lemma_path_slots_reachable(h, roots, path, k);
            assert(sw[path[k]] == h[path[k]]);
            let c = choose|c: int|
                0 <= c < children(h[path[k]]->0).len() && slot_of(
                    #[trigger] children(h[path[k]]->0)[c],
                    h.len() as int,
                ) == Some(path[k + 1]);
            assert(slot_of(children(sw[path[k]]->0)[c], sw.len() as int) == Some(path[k + 1]));
        }
        assert(is_path(sw, roots, path));
    }
    if is_path(sw, roots, path) {
        let r = choose|r: int| 0 <= r < roots.len() && slot_of(#[trigger] roots[r], sw.len() as int) == Some(path[0]);
        assert(slot_of(roots[r], h.len() as int) == Some(path[0]));
        assert forall|k: int| 0 <= k < path.len() - 1 implies {
            &&& 0 <= #[trigger] path[k] < h.len()
            &&& h[path[k]] is Some
            &&& exists|c: int|
                0 <= c < children(h[path[k]]->0).len() && slot_of(
                    #[trigger] children(h[path[k]]->0)[c],
                    h.len() as int,
                ) == Some(path[k + 1])
        } by {
            assert(0 <= path[k] < sw.len());
            assert(sw[path[k]] is Some);
            assert(reachable(h, roots, path[k]));
            assert(sw[path[k]] == h[path[k]]);
            let c = choose|c: int|
                0 <= c < children(sw[path[k]]->0).len() && slot_of(
                    #[trigger] children(sw[path[k]]->0)[c],
                    sw.len() as int,
                ) == Some(path[k + 1]);
            assert(slot_of(children(h[path[k]]->0)[c], h.len() as int) == Some(path[k + 1]));
        }
        assert(is_path(h, roots, path));
    }
}

/// Collecting a second time from the same roots frees nothing more: the
/// swept heap reaches exactly the slots the heap reached.
pub proof fn lemma_collect_idempotent(h: Seq<Option<SpecObject>>, roots: Seq<Value>)
    ensures
        forall|i: int| reachable(swept(h, roots), roots, i) <==> reachable(h, roots, i),
        swept(swept(h, roots), roots) == swept(h, roots),
{
    let sw = swept(h, roots);
    assert forall|i: int| reachable(sw, roots, i) <==> reachable(h, roots, i) by {
        if reachable(sw, roots, i) {
            let path = choose|path: Seq<int>| #[trigger] is_path(sw, roots, path) && path.last() == i;
            lemma_swept_paths(h, roots, path);
        }
        if reachable(h, roots, i) {
            let path = choose|path: Seq<int>| #[trigger] is_path(h, roots, path) && path.last() == i;
            lemma_swept_paths(h, roots, path);
        }
    }
    assert(swept(sw, roots) =~= sw);
}

/// Allocation leaves every occupied slot as it was.
pub proof fn lemma_allocate_keeps_objects(h: Seq<Option<SpecObject>>, o: SpecObject, v: Value)
    requires
        object_at(h, v) is Some,
    ensures
        object_at(allocated(h, o), v) == object_at(h, v),
{
    lemma_first_free(h);
}

/// A collection keeps the object every root reference designates: what such
/// a reference read before the collection, it reads after it.
pub proof fn lemma_collect_keeps_rooted(h: Seq<Option<SpecObject>>, roots: Seq<Value>, r: int)
    requires
        0 <= r < roots.len(),
        !roots[r].spec_is_smi(),
    ensures
        object_at(swept(h, roots), roots[r]) == object_at(h, roots[r]),
{
    let i = roots[r].spec_heap_offset() as int;
    if i < h.len() {
        lemma_root_reachable(h, roots, r, i);
    }
}

/// A change of the heap that the engine makes: an allocation of an object,
/// or a collection from a sequence of roots.
pub enum HeapEvent {
    Allocate(SpecObject),
    Collect(Seq<Value>),
}

/// The heap after the events `evs`, one after another.
pub open spec fn after_events(h: Seq<Option<SpecObject>>, evs: Seq<HeapEvent>) -> Seq<Option<SpecObject>>
    decreases evs.len(),
{
    if evs.len() == 0 {
        h
    } else {
        let h1 = match evs[0] {
            HeapEvent::Allocate(o) => allocated(h, o),
            HeapEvent::Collect(roots) => swept(h, roots),
        };
        after_events(h1, evs.drop_first())
    }
}

/// Every collection among `evs` has `v` among its roots.
pub open spec fn rooted_in_every_collection(evs: Seq<HeapEvent>, v: Value) -> bool {
    forall|k: int|
        0 <= k < evs.len() ==> (#[trigger] evs[k] matches HeapEvent::Collect(roots) ==> roots.contains(v))
}

/// What a reference reads stays as it was through any allocations and
/// through every collection that has it among its roots: a string allocated
/// and then kept rooted reads back as the same string.
pub proof fn lemma_reference_reads_back(h: Seq<Option<SpecObject>>, evs: Seq<HeapEvent>, v: Value)
    requires
        !v.spec_is_smi(),
        object_at(h, v) is Some,
        rooted_in_every_collection(evs, v),
    ensures
        object_at(after_events(h, evs), v) == object_at(h, v),
    decreases evs.len(),
{
    if evs.len() > 0 {
        let h1 = match evs[0] {
            HeapEvent::Allocate(o) => allocated(h, o),
            HeapEvent::Collect(roots) => swept(h, roots),
        };
        match evs[0] {
            HeapEvent::Allocate(o) => {
                lemma_allocate_keeps_objects(h, o, v);
            },
            HeapEvent::Collect(roots) => {
                assert(roots.contains(v));
                let r = choose|r: int| 0 <= r < roots.len() && roots[r] == v;
                lemma_collect_keeps_rooted(h, roots, r);
            },
        }
        let rest = evs.drop_first();
        assert forall|k: int| 0 <= k < rest.len() implies (#[trigger] rest[k] matches HeapEvent::Collect(roots)
            ==> roots.contains(v)) by {
            assert(rest[k] == evs[k + 1]);
        }
        lemma_reference_reads_back(h1, rest, v);
    }
}

} // verus!
