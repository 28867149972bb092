use vstd::prelude::*;

use crate::text::chars_of;

verus! {

/// Lexicographic order on names, character by character (the order of Rust strings).
pub open spec fn name_less(a: Seq<char>, b: Seq<char>) -> bool
    decreases a.len(),
{
    if b.len() == 0 {
        false
    } else if a.len() == 0 {
        true
    } else if (a[0] as int) < (b[0] as int) {
        true
    } else if a[0] != b[0] {
        false
    } else {
        name_less(a.drop_first(), b.drop_first())
    }
}

/// The table after `name` is bound to `v`: an existing binding of `name` is
/// replaced in place, otherwise the binding goes where the names stay in order.
pub open spec fn table_insert<V>(t: Seq<(Seq<char>, V)>, name: Seq<char>, v: V) -> Seq<(Seq<char>, V)>
    decreases t.len(),
{
    if t.len() == 0 {
        seq![(name, v)]
    } else if t[0].0 == name {
        seq![(name, v)] + t.drop_first()
    } else if name_less(name, t[0].0) {
        seq![(name, v)] + t
    } else {
        seq![t[0]] + table_insert(t.drop_first(), name, v)
    }
}

/// The value bound to `name`, if any.
pub open spec fn table_get<V>(t: Seq<(Seq<char>, V)>, name: Seq<char>) -> Option<V>
    decreases t.len(),
{
    if t.len() == 0 {
        None
    } else if t[0].0 == name {
        Some(t[0].1)
    } else {
        table_get(t.drop_first(), name)
    }
}

/// A table of names, each bound to one value, kept in name order.
pub struct SymbolTable<V> {
    entries: Vec<(String, V)>,
}

impl<V> View for SymbolTable<V> {
    type V = Seq<(Seq<char>, V)>;

    closed spec fn view(&self) -> Seq<(Seq<char>, V)> {
        self.entries@.map_values(|e: (String, V)| (e.0@, e.1))
    }
}

/// Whether `a` comes strictly before `b`.
fn name_before(a: &String, b: &String) -> (r: bool)
    ensures
        r == name_less(a@, b@),
{
    let x = chars_of(a.as_str());
    let y = chars_of(b.as_str());
    let mut k: usize = 0;
    assert(x@.skip(0) =~= x@);
    assert(y@.skip(0) =~= y@);
    while k < x.len() && k < y.len() && x[k] == y[k]
        invariant
            0 <= k <= x.len(),
            k <= y.len(),
            name_less(x@.skip(k as int), y@.skip(k as int)) == name_less(a@, b@),
        decreases x.len() - k,
    {
        assert(x@.skip(k as int).drop_first() =~= x@.skip(k + 1));
        assert(y@.skip(k as int).drop_first() =~= y@.skip(k + 1));
        k += 1;
    }
    if k >= y.len() {
        false
    } else if k >= x.len() {
        true
    } else {
        x[k] < y[k]
    }
}

impl<V: Copy> SymbolTable<V> {
    pub fn new() -> (t: Self)
        ensures
            t@ == Seq::<(Seq<char>, V)>::empty(),
    {
        let t = SymbolTable { entries: Vec::new() };
        assert(t@ =~= Seq::<(Seq<char>, V)>::empty());
        t
    }

    /// The number of bindings.
    pub fn len(&self) -> (n: usize)
        ensures
            n == self@.len(),
    {
        self.entries.len()
    }

    /// The `i`-th binding in name order.
    pub fn entry(&self, i: usize) -> (r: (String, V))
        requires
            i < self@.len(),
        ensures
            r.0@ == self@[i as int].0,
            r.1 == self@[i as int].1,
    {
        (self.entries[i].0.clone(), self.entries[i].1)
    }

    /// Binds `name` to `v`.
    pub fn insert(&mut self, name: String, v: V)
        ensures
            final(self)@ == table_insert(old(self)@, name@, v),
    {
        let ghost t0 = self@;
        let mut i: usize = 0;
        assert(t0.skip(0) =~= t0);
        assert(t0.take(0) + table_insert(t0, name@, v) =~= table_insert(t0, name@, v));
        while i < self.entries.len() && name_before(&self.entries[i].0, &name)
            invariant
                0 <= i <= self.entries.len(),
                self@ == t0,
                table_insert(t0, name@, v) == t0.take(i as int) + table_insert(t0.skip(i as int), name@, v),
                forall|j: int| 0 <= j < i ==> t0[j].0 != name@,
            decreases self.entries.len() - i,
        {
            proof {
                let s = t0.skip(i as int);
                assert(s[0] == t0[i as int]);
                assert(s.drop_first() =~= t0.skip(i + 1));
                assert(t0.take(i + 1) =~= t0.take(i as int) + seq![t0[i as int]]);
                assert(name_less(t0[i as int].0, name@));
                lemma_name_less_irreflexive(name@);
                lemma_name_less_asymmetric(t0[i as int].0, name@);
            }
            i += 1;
        }
        let ghost s = t0.skip(i as int);
        if i < self.entries.len() && self.entries[i].0 == name {
            let ghost before = self@;
            self.entries.set(i, (name, v));
            proof {
                assert(s.drop_first() =~= t0.skip(i + 1));
                assert(self@ =~= t0.take(i as int) + (seq![(name@, v)] + s.drop_first()));
            }
        } else {
            self.entries.insert(i, (name, v));
            proof {
                if i < t0.len() {
                    assert(!name_less(t0[i as int].0, name@));
                    lemma_name_less_total(t0[i as int].0, name@);
                    assert(self@ =~= t0.take(i as int) + (seq![(name@, v)] + s));
                } else {
                    assert(s.len() == 0);
                    assert(self@ =~= t0.take(i as int) + seq![(name@, v)]);
                }
            }
        }
    }

    /// The value bound to `name`, if any.
    pub fn get(&self, name: &String) -> (r: Option<V>)
        ensures
            r == table_get(self@, name@),
    {
        let ghost t0 = self@;
        let mut i: usize = 0;
        assert(t0.skip(0) =~= t0);
        while i < self.entries.len()
            invariant
                0 <= i <= self.entries.len(),
                self@ == t0,
                table_get(t0, name@) == table_get(t0.skip(i as int), name@),
            decreases self.entries.len() - i,
        {
            proof {
                assert(t0.skip(i as int).drop_first() =~= t0.skip(i + 1));
            }
            if self.entries[i].0 == *name {
                return Some(self.entries[i].1);
            }
            i += 1;
        }
        None
    }

    /// A copy of the table.
    pub fn duplicate(&self) -> (t: Self)
        ensures
            t@ == self@,
    {
        let mut entries: Vec<(String, V)> = Vec::new();
        let mut i: usize = 0;
        while i < self.entries.len()
            invariant
                0 <= i <= self.entries.len(),
                entries@.len() == i,
                forall|j: int| 0 <= j < i ==> (#[trigger] entries@[j]).0@ == self.entries@[j].0@ && entries@[j].1 == self.entries@[j].1,
            decreases self.entries.len() - i,
        {
            entries.push((self.entries[i].0.clone(), self.entries[i].1));
            i += 1;
        }
        assert(entries@.map_values(|e: (String, V)| (e.0@, e.1)) =~= self@);
        SymbolTable { entries }
    }
}

proof fn lemma_name_less_irreflexive(a: Seq<char>)
    ensures
        !name_less(a, a),
    decreases a.len(),
{
    if a.len() > 0 {
        lemma_name_less_irreflexive(a.drop_first());
    }
}

proof fn lemma_name_less_asymmetric(a: Seq<char>, b: Seq<char>)
    requires
        name_less(a, b),
    ensures
        !name_less(b, a),
        a != b,
    decreases a.len(),
{
    if a.len() > 0 && b.len() > 0 && a[0] == b[0] {
        lemma_name_less_asymmetric(a.drop_first(), b.drop_first());
    }
    lemma_name_less_irreflexive(a);
}

proof fn lemma_name_less_total(a: Seq<char>, b: Seq<char>)
    requires
        !name_less(a, b),
        a != b,
    ensures
        name_less(b, a),
    decreases a.len(),
{
    if a.len() > 0 && b.len() > 0 {
        if a[0] == b[0] {
            if a.drop_first() == b.drop_first() {
                assert(a =~= seq![a[0]] + a.drop_first());
                assert(b =~= seq![b[0]] + b.drop_first());
            }
            lemma_name_less_total(a.drop_first(), b.drop_first());
        } else {
            assert((a[0] as int) != (b[0] as int));
        }
    } else if a.len() == 0 {
        assert(b.len() == 0 ==> a =~= b);
    }
}

/// A name reads back the value it was last bound to, and binding a name
/// leaves what every other name reads unchanged.
pub proof fn lemma_get_after_insert<V>(t: Seq<(Seq<char>, V)>, name: Seq<char>, v: V, other: Seq<char>)
    ensures
        table_get(table_insert(t, name, v), name) == Some(v),
        other != name ==> table_get(table_insert(t, name, v), other) == table_get(t, other),
    decreases t.len(),
{
    if t.len() == 0 {
    } else if t[0].0 == name {
        assert((seq![(name, v)] + t.drop_first()).drop_first() =~= t.drop_first());
    } else if name_less(name, t[0].0) {
        assert((seq![(name, v)] + t).drop_first() =~= t);
    } else {
        lemma_get_after_insert(t.drop_first(), name, v, other);
        assert((seq![t[0]] + table_insert(t.drop_first(), name, v)).drop_first() =~= table_insert(
            t.drop_first(),
            name,
            v,
        ));
    }
}

} // verus!
