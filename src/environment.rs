//! The symbol table: variable names and the memory offsets given to them.
use vstd::prelude::*;

verus! {

/// The machine's registers, as a part of the compiler's state; they carry no data.
pub struct RegisterGroup {}

impl RegisterGroup {
    pub fn new() -> (r: RegisterGroup) {
        RegisterGroup {}
    }
}

/// The offset of `name` in a table that lists names in order of first reference,
/// or -1 where it is absent.
pub open spec fn offset_of(names: Seq<Seq<char>>, name: Seq<char>) -> int {
    if names.contains(name) {
        names.index_of(name)
    } else {
        -1
    }
}

/// The table after `name` has been given an offset, if it had none.
pub open spec fn declare(names: Seq<Seq<char>>, name: Seq<char>) -> Seq<Seq<char>> {
    if names.contains(name) {
        names
    } else {
        names.push(name)
    }
}

/// The largest number of names a table holds: offsets are `i32`.
pub const MAX_SYMBOLS: usize = 0x7fff_ffff;

/// Maps variable names to offsets from the global pointer, given densely from 0 in order of
/// first reference.
pub struct SymbolTable {
    names: Vec<String>,
}

impl View for SymbolTable {
    type V = Seq<Seq<char>>;

    /// The names, in order of their offsets.
    closed spec fn view(&self) -> Seq<Seq<char>> {
        self.names@.map_values(|s: String| s@)
    }
}

impl SymbolTable {
    /// The table holds each name once, and no more names than an `i32` offset reaches.
    pub open spec fn wf(&self) -> bool {
        &&& self@.no_duplicates()
        &&& self@.len() <= MAX_SYMBOLS
    }

    pub fn new() -> (r: SymbolTable)
        ensures
            r.wf(),
            r@ == Seq::<Seq<char>>::empty(),
    {
        let r = SymbolTable { names: Vec::new() };
        assert(r@ =~= Seq::<Seq<char>>::empty());
        r
    }

    /// The number of names in the table.
    pub fn len(&self) -> (r: usize)
        ensures
            r == self@.len(),
    {
        self.names.len()
    }

    /// The offset of `name`, or -1 where the table does not hold it.
    pub fn look_up(&self, name: &str) -> (r: i32)
        requires
            self.wf(),
        ensures
            r == offset_of(self@, name@),
    {
        let key = name.to_owned();
        let mut i: usize = 0;
        while i < self.names.len()
            invariant
                self.wf(),
                key@ == name@,
                i <= self.names@.len(),
                forall|j: int| 0 <= j < i ==> self@[j] != name@,
            decreases self.names@.len() - i,
        {
            if self.names[i] == key {
                proof {
                    assert(self@[i as int] == name@);
                    assert(self@.contains(name@));
                    self@.index_of_first_ensures(name@);
                    assert(self@.index_of(name@) == i);
                }
                return i as i32;
            }
            assert(self@[i as int] != name@);
            i = i + 1;
        }
        assert(!self@.contains(name@));
        -1
    }

    /// Gives `name` the next free offset and returns it; returns -1, and changes nothing, where
    /// the table already holds `name`.
    pub fn insert(&mut self, name: &str) -> (r: i32)
        requires
            old(self).wf(),
            old(self)@.contains(name@) || old(self)@.len() < MAX_SYMBOLS,
        ensures
            final(self).wf(),
            final(self)@ == declare(old(self)@, name@),
            r == if old(self)@.contains(name@) { -1 } else { old(self)@.len() as int },
    {
        if self.look_up(name) >= 0 {
            return -1;
        }
        let size = self.names.len();
        self.names.push(name.to_owned());
        proof {
            assert(self@ =~= old(self)@.push(name@));
            assert forall|a: int, b: int| 0 <= a < b < self@.len() implies self@[a] != self@[b] by {
                if b == size as int {
                    assert(old(self)@[a] == self@[a]);
                }
            }
        }
        size as i32
    }
}

/// Offsets are stable and dense: giving `name` an offset leaves every other name's offset as
/// it was, gives a new name the next offset after the last, leaves a known name's offset alone,
/// and keeps the names distinct; in a table without repeats, distinct names have distinct
/// offsets, each below the number of names.
pub proof fn lemma_offsets_stable(names: Seq<Seq<char>>, name: Seq<char>, other: Seq<char>)
    requires
        names.no_duplicates(),
    ensures
        declare(names, name).no_duplicates(),
        offset_of(declare(names, name), name) == if names.contains(name) { offset_of(names, name) } else { names.len() as int },
        other != name ==> offset_of(declare(names, name), other) == offset_of(names, other),
        names.contains(other) ==> 0 <= offset_of(names, other) < names.len(),
        names.contains(name) && names.contains(other) && name != other ==> offset_of(names, name) != offset_of(names, other),
{
    let after = declare(names, name);
    if !names.contains(name) {
        assert(after == names.push(name));
        assert forall|a: int, b: int| 0 <= a < b < after.len() implies after[a] != after[b] by {
            if b == names.len() {
                assert(names[a] == after[a]);
            }
        }
        assert(after[names.len() as int] == name);
        assert(after.contains(name));
        if after.contains(other) && other != name {
            let k = after.index_of(other);
            assert(k != names.len());
            assert(names[k] == other);
            assert(names.contains(other));
        }
        if names.contains(other) {
            let k = names.index_of(other);
            assert(after[k] == other);
            assert(after.contains(other));
        }
    }
}

/// The table after the names `ns` were given offsets in turn, starting from an empty one.
pub open spec fn declare_all(ns: Seq<Seq<char>>) -> Seq<Seq<char>>
    decreases ns.len(),
{
    if ns.len() == 0 {
        Seq::empty()
    } else {
        declare(declare_all(ns.drop_last()), ns.last())
    }
}

proof fn lemma_declare_all_wf(ns: Seq<Seq<char>>)
    ensures
        declare_all(ns).no_duplicates(),
        forall|n: Seq<char>| declare_all(ns).contains(n) <==> ns.contains(n),
    decreases ns.len(),
{
    if ns.len() > 0 {
        let prev = ns.drop_last();
        lemma_declare_all_wf(prev);
        let t = declare_all(prev);
        lemma_offsets_stable(t, ns.last(), ns.last());
        assert forall|n: Seq<char>| declare_all(ns).contains(n) <==> ns.contains(n) by {
            if n == ns.last() {
                assert(ns[ns.len() - 1] == n);
                if !t.contains(n) {
                    assert(declare_all(ns)[t.len() as int] == n);
                }
            } else {
                if ns.contains(n) {
                    let k = choose|k: int| 0 <= k < ns.len() && ns[k] == n;
                    assert(prev[k] == n);
                }
                if prev.contains(n) {
                    let k = choose|k: int| 0 <= k < prev.len() && prev[k] == n;
                    assert(ns[k] == n);
                }
                if declare_all(ns).contains(n) && !t.contains(n) {
                    let k = choose|k: int| 0 <= k < declare_all(ns).len() && declare_all(ns)[k] == n;
                    assert(k < t.len());
                    assert(t[k] == n);
                }
                if t.contains(n) {
                    let k = choose|k: int| 0 <= k < t.len() && t[k] == n;
                    if !t.contains(ns.last()) {
                        assert(declare_all(ns)[k] == n);
                    }
                }
            }
        }
    }
}

/// For any run of insertions from an empty table: the table holds each name once, and exactly
/// the names inserted, each at an offset below its length, so offsets are dense from 0 and
/// pairwise distinct. A name inserted for the first time gets the number of names before it,
/// and a name keeps its offset through every later insertion.
pub proof fn lemma_insertions(ns: Seq<Seq<char>>, i: int, j: int, n: Seq<char>)
    requires
        0 <= i <= j <= ns.len(),
    ensures
        declare_all(ns).no_duplicates(),
        declare_all(ns).contains(n) <==> ns.contains(n),
        ns.contains(n) ==> 0 <= offset_of(declare_all(ns), n) < declare_all(ns).len(),
        i < ns.len() && !ns.take(i).contains(ns[i]) ==> offset_of(declare_all(ns.take(i + 1)), ns[i])
            == declare_all(ns.take(i)).len(),
        ns.take(i).contains(n) ==> offset_of(declare_all(ns.take(j)), n) == offset_of(declare_all(ns.take(i)), n),
    decreases j - i,
{
    lemma_declare_all_wf(ns);
    lemma_offsets_stable(declare_all(ns), n, n);
    if i < ns.len() {
        let t = declare_all(ns.take(i));
        assert(ns.take(i + 1).drop_last() =~= ns.take(i));
        assert(ns.take(i + 1).last() == ns[i]);
        lemma_declare_all_wf(ns.take(i));
        lemma_offsets_stable(t, ns[i], ns[i]);
    }
    if ns.take(i).contains(n) && i < j {
        lemma_insertions(ns, i, j - 1, n);
        let t = declare_all(ns.take(j - 1));
        assert(ns.take(j).drop_last() =~= ns.take(j - 1));
        assert(ns.take(j).last() == ns[j - 1]);
        lemma_declare_all_wf(ns.take(j - 1));
        let k = choose|k: int| 0 <= k < ns.take(i).len() && ns.take(i)[k] == n;
        assert(ns.take(j - 1)[k] == n);
        assert(t.contains(n));
        lemma_offsets_stable(t, ns[j - 1], n);
    }
}

} // verus!
