//! Small collections that the model is built from: tables keyed by name, tables and
//! sets keyed by a pair of ids, and snapshots of the keys of a hash table.
use std::collections::{HashMap, HashSet};
use vstd::prelude::*;
use vstd::std_specs::iter::IteratorSpec;

verus! {

broadcast use vstd::std_specs::hash::group_hash_axioms;

/// The keys of `m`, each once, in the table's own order.
pub fn keys_u32<V>(m: &HashMap<u32, V>) -> (r: Vec<u32>)
    ensures
        r@.to_set() == m@.dom(),
        r@.no_duplicates(),
{
    let mut out: Vec<u32> = Vec::new();
    let ghost all = vstd::std_specs::hash::spec_keys_iter(m).remaining().unref();
    for k in it: m.keys()
        invariant
            all.to_set() == m@.dom(),
            all.no_duplicates(),
            it.seq().unref() == all,
            out@ == all.take(it.index() as int),
    {
        out.push(*k);
        assert(out@ =~= all.take(it.index() as int + 1));
    }
    assert(all.take(all.len() as int) =~= all);
    out
}

/// The keys of `m`, each once, in the table's own order.
pub fn keys_u64<V>(m: &HashMap<u64, V>) -> (r: Vec<u64>)
    ensures
        r@.to_set() == m@.dom(),
        r@.no_duplicates(),
{
    let mut out: Vec<u64> = Vec::new();
    let ghost all = vstd::std_specs::hash::spec_keys_iter(m).remaining().unref();
    for k in it: m.keys()
        invariant
            all.to_set() == m@.dom(),
            all.no_duplicates(),
            it.seq().unref() == all,
            out@ == all.take(it.index() as int),
    {
        out.push(*k);
        assert(out@ =~= all.take(it.index() as int + 1));
    }
    assert(all.take(all.len() as int) =~= all);
    out
}

/// The elements of `s`, each once, in the set's own order.
pub fn elems_usize(s: &HashSet<usize>) -> (r: Vec<usize>)
    ensures
        r@.to_set() == s@,
        r@.no_duplicates(),
{
    let mut out: Vec<usize> = Vec::new();
    let ghost all = vstd::std_specs::hash::spec_hash_keys_iter(s).remaining().unref();
    for k in it: s.iter()
        invariant
            all.to_set() == s@,
            all.no_duplicates(),
            it.seq().unref() == all,
            out@ == all.take(it.index() as int),
    {
        out.push(*k);
        assert(out@ =~= all.take(it.index() as int + 1));
    }
    assert(all.take(all.len() as int) =~= all);
    out
}

/// The key under which the pair `(a, b)` is kept.
pub open spec fn pair_key(a: u32, b: u32) -> u64 {
    (a as int * 0x1_0000_0000 + b as int) as u64
}

/// Different pairs of ids have different keys.
pub proof fn lemma_pair_key_injective(a: u32, b: u32, c: u32, d: u32)
    ensures
        pair_key(a, b) == pair_key(c, d) ==> a == c && b == d,
{
    assert(0 <= a as int * 0x1_0000_0000 + b as int <= u64::MAX);
    assert(0 <= c as int * 0x1_0000_0000 + d as int <= u64::MAX);
}

/// The key of the pair `(a, b)`.
pub fn make_pair_key(a: u32, b: u32) -> (k: u64)
    ensures
        k == pair_key(a, b),
{
    (a as u64) * 0x1_0000_0000 + (b as u64)
}

/// A table from names to handles.
pub struct NameMap {
    entries: Vec<(String, usize)>,
}

impl NameMap {
    /// The value kept under each name.
    pub closed spec fn view(&self) -> Map<Seq<char>, usize> {
        Map::new(
            |k: Seq<char>| exists|i: int| 0 <= i < self.entries@.len() && #[trigger] self.entries@[i].0@ == k,
            |k: Seq<char>| self.entries@[choose|i: int| 0 <= i < self.entries@.len() && #[trigger] self.entries@[i].0@ == k].1,
        )
    }

    /// The table and its view agree.
    pub closed spec fn wf(&self) -> bool {
        forall|i: int, j: int| 0 <= i < j < self.entries@.len() ==> #[trigger] self.entries@[i].0@ != #[trigger] self.entries@[j].0@
    }

    proof fn lemma_value_at(&self, i: int)
        requires
            self.wf(),
            0 <= i < self.entries@.len(),
        ensures
            self@.contains_key(self.entries@[i].0@),
            self@[self.entries@[i].0@] == self.entries@[i].1,
    {
        let k = self.entries@[i].0@;
        let j = choose|j: int| 0 <= j < self.entries@.len() && #[trigger] self.entries@[j].0@ == k;
        if j != i {
            if j < i {
                assert(self.entries@[j].0@ != self.entries@[i].0@);
            } else {
                assert(self.entries@[i].0@ != self.entries@[j].0@);
            }
        }
    }

    /// An empty map.
    pub fn new() -> (m: Self)
        ensures
            m.wf(),
            m@ == Map::<Seq<char>, usize>::empty(),
    {
        let m = NameMap { entries: Vec::new() };
        assert(m@ =~= Map::<Seq<char>, usize>::empty());
        m
    }

    fn find(&self, key: &String) -> (r: Option<usize>)
        requires
            self.wf(),
        ensures
            r matches Some(i) ==> i < self.entries@.len() && self.entries@[i as int].0@ == key@,
            r is None ==> !self@.contains_key(key@),
    {
        let mut i: usize = 0;
        while i < self.entries.len()
            invariant
                i <= self.entries@.len(),
                forall|j: int| 0 <= j < i ==> self.entries@[j].0@ != key@,
            decreases self.entries.len() - i,
        {
            if self.entries[i].0 == *key {
                return Some(i);
            }
            i = i + 1;
        }
        None
    }

    /// The handle kept under `key`.
    pub fn get(&self, key: &String) -> (r: Option<usize>)
        requires
            self.wf(),
        ensures
            r == (if self@.contains_key(key@) { Some(self@[key@]) } else { None }),
    {
        match self.find(key) {
            Some(i) => {
                proof {
                    self.lemma_value_at(i as int);
                }
                Some(self.entries[i].1)
            },
            None => None,
        }
    }

    /// Keep `value` under `key`, replacing what was kept there.
    pub fn insert(&mut self, key: String, value: usize)
        requires
            old(self).wf(),
        ensures
            final(self).wf(),
            final(self)@ == old(self)@.insert(key@, value),
    {
        let ghost k = key@;
        match self.find(&key) {
            Some(i) => {
                self.entries.set(i, (key, value));
                proof {
                    assert forall|a: int, b: int| 0 <= a < b < self.entries@.len() implies #[trigger] self.entries@[a].0@
                        != #[trigger] self.entries@[b].0@ by {
                        assert(old(self).entries@[a].0@ != old(self).entries@[b].0@ || a == i || b == i);
                        if a == i {
                            assert(old(self).entries@[i as int].0@ != old(self).entries@[b].0@);
                        }
                        if b == i {
                            assert(old(self).entries@[a].0@ != old(self).entries@[i as int].0@);
                        }
                    }
                    assert forall|q: Seq<char>| #![auto] self@.contains_key(q) == old(self)@.insert(k, value).contains_key(q) by {
                        if self@.contains_key(q) {
                            let j = choose|j: int| 0 <= j < self.entries@.len() && #[trigger] self.entries@[j].0@ == q;
                            if j != i {
                                assert(old(self).entries@[j].0@ == q);
                            }
                        }
                        if old(self)@.contains_key(q) && q != k {
                            let j = choose|j: int| 0 <= j < old(self).entries@.len() && #[trigger] old(self).entries@[j].0@ == q;
                            assert(self.entries@[j].0@ == q);
                        }
                        if q == k {
                            assert(self.entries@[i as int].0@ == q);
                        }
                    }
                    assert forall|q: Seq<char>| #![auto] self@.contains_key(q) implies self@[q] == old(self)@.insert(k, value)[q] by {
                        let j = choose|j: int| 0 <= j < self.entries@.len() && #[trigger] self.entries@[j].0@ == q;
                        self.lemma_value_at(j);
                        if j != i {
                            old(self).lemma_value_at(j);
                        }
                    }
                    assert(self@ =~= old(self)@.insert(k, value));
                }
            },
            None => {
                self.entries.push((key, value));
                proof {
                    let n = old(self).entries@.len() as int;
                    assert forall|a: int, b: int| 0 <= a < b < self.entries@.len() implies #[trigger] self.entries@[a].0@
                        != #[trigger] self.entries@[b].0@ by {
                        if b == n {
                            assert(old(self)@.contains_key(old(self).entries@[a].0@));
                        } else {
                            assert(old(self).entries@[a].0@ != old(self).entries@[b].0@);
                        }
                    }
                    assert forall|q: Seq<char>| #![auto] self@.contains_key(q) == old(self)@.insert(k, value).contains_key(q) by {
                        if self@.contains_key(q) {
                            let j = choose|j: int| 0 <= j < self.entries@.len() && #[trigger] self.entries@[j].0@ == q;
                            if j != n {
                                assert(old(self).entries@[j].0@ == q);
                            }
                        }
                        if old(self)@.contains_key(q) {
                            let j = choose|j: int| 0 <= j < old(self).entries@.len() && #[trigger] old(self).entries@[j].0@ == q;
                            assert(self.entries@[j].0@ == q);
                        }
                        if q == k {
                            assert(self.entries@[n].0@ == q);
                        }
                    }
                    assert forall|q: Seq<char>| #![auto] self@.contains_key(q) implies self@[q] == old(self)@.insert(k, value)[q] by {
                        let j = choose|j: int| 0 <= j < self.entries@.len() && #[trigger] self.entries@[j].0@ == q;
                        self.lemma_value_at(j);
                        if j != n {
                            old(self).lemma_value_at(j);
                        }
                    }
                    assert(self@ =~= old(self)@.insert(k, value));
                }
            },
        }
    }

    /// Forget what is kept under `key`, giving it back.
    pub fn remove(&mut self, key: &String) -> (r: Option<usize>)
        requires
            old(self).wf(),
        ensures
            final(self).wf(),
            final(self)@ == old(self)@.remove(key@),
            r == (if old(self)@.contains_key(key@) { Some(old(self)@[key@]) } else { None }),
    {
        match self.find(key) {
            Some(i) => {
                proof {
                    self.lemma_value_at(i as int);
                }
                let v = self.entries[i].1;
                self.entries.remove(i);
                proof {
                    let o = old(self).entries@;
                    assert forall|j: int| 0 <= j < self.entries@.len() implies #[trigger] self.entries@[j] == (if j < i {
                        o[j]
                    } else {
                        o[j + 1]
                    }) by {}
                    assert forall|a: int, b: int| 0 <= a < b < self.entries@.len() implies #[trigger] self.entries@[a].0@
                        != #[trigger] self.entries@[b].0@ by {
                        let a2 = if a < i { a } else { a + 1 };
                        let b2 = if b < i { b } else { b + 1 };
                        assert(o[a2].0@ != o[b2].0@);
                    }
                    assert forall|q: Seq<char>| #![auto] self@.contains_key(q) == old(self)@.remove(key@).contains_key(q) by {
                        if self@.contains_key(q) {
                            let j = choose|j: int| 0 <= j < self.entries@.len() && #[trigger] self.entries@[j].0@ == q;
                            let j2 = if j < i { j } else { j + 1 };
                            assert(o[j2].0@ == q);
                            assert(j2 != i);
                            if q == key@ {
                                if j2 < i {
                                    assert(o[j2].0@ != o[i as int].0@);
                                } else {
                                    assert(o[i as int].0@ != o[j2].0@);
                                }
                            }
                        }
                        if old(self)@.contains_key(q) && q != key@ {
                            let j = choose|j: int| 0 <= j < o.len() && #[trigger] o[j].0@ == q;
                            assert(j != i);
                            let j2 = if j < i { j } else { j - 1 };
                            assert(self.entries@[j2].0@ == q);
                        }
                    }
                    assert forall|q: Seq<char>| #![auto] self@.contains_key(q) implies self@[q] == old(self)@.remove(key@)[q] by {
                        let j = choose|j: int| 0 <= j < self.entries@.len() && #[trigger] self.entries@[j].0@ == q;
                        self.lemma_value_at(j);
                        let j2 = if j < i { j } else { j + 1 };
                        old(self).lemma_value_at(j2);
                    }
                    assert(self@ =~= old(self)@.remove(key@));
                }
                Some(v)
            },
            None => {
                assert(self@ =~= old(self)@.remove(key@));
                None
            },
        }
    }

    /// Whether some name keeps the handle `value`.
    pub fn contains_value(&self, value: usize) -> (r: bool)
        requires
            self.wf(),
        ensures
            r == exists|k: Seq<char>| #[trigger] self@.contains_key(k) && self@[k] == value,
    {
        let mut i: usize = 0;
        while i < self.entries.len()
            invariant
                self.wf(),
                i <= self.entries@.len(),
                forall|j: int| 0 <= j < i ==> self.entries@[j].1 != value,
            decreases self.entries.len() - i,
        {
            if self.entries[i].1 == value {
                proof {
                    self.lemma_value_at(i as int);
                }
                return true;
            }
            i = i + 1;
        }
        proof {
            assert forall|k: Seq<char>| #[trigger] self@.contains_key(k) implies self@[k] != value by {
                let j = choose|j: int| 0 <= j < self.entries@.len() && #[trigger] self.entries@[j].0@ == k;
                self.lemma_value_at(j);
            }
        }
        false
    }

    /// Forget everything.
    pub fn clear(&mut self)
        ensures
            final(self).wf(),
            final(self)@ == Map::<Seq<char>, usize>::empty(),
    {
        self.entries = Vec::new();
        assert(self@ =~= Map::<Seq<char>, usize>::empty());
    }
}

} // verus!
