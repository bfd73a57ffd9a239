//! A small map from byte-string keys (hashes) to values, kept as a list of entries.
use vstd::prelude::*;
use crate::codec::bytes_eq;

verus! {

/// No key appears in two entries.
pub open spec fn keys_unique<T>(es: Seq<(Vec<u8>, T)>) -> bool {
    forall|i: int, j: int| 0 <= i < j < es.len() ==> (#[trigger] es[i]).0@ != (#[trigger] es[j]).0@
}

/// Whether some entry has the key `k`.
pub open spec fn has_key<T>(es: Seq<(Vec<u8>, T)>, k: Seq<u8>) -> bool {
    exists|i: int| 0 <= i < es.len() && (#[trigger] es[i]).0@ == k
}

/// The position of the entry with key `k`.
pub open spec fn index_of<T>(es: Seq<(Vec<u8>, T)>, k: Seq<u8>) -> int {
    choose|i: int| 0 <= i < es.len() && (#[trigger] es[i]).0@ == k
}

/// Values keyed by byte strings. Each key has at most one entry.
pub struct KeyedVec<T> {
    pub entries: Vec<(Vec<u8>, T)>,
}

impl<T: View> View for KeyedVec<T> {
    type V = Map<Seq<u8>, T::V>;

    open spec fn view(&self) -> Map<Seq<u8>, T::V> {
        Map::new(
            |k: Seq<u8>| has_key(self.entries@, k),
            |k: Seq<u8>| self.entries@[index_of(self.entries@, k)].1@,
        )
    }
}

/// With unique keys, the entry holding a key is the one that `index_of` picks.
proof fn lemma_index_of<T>(es: Seq<(Vec<u8>, T)>, i: int)
    requires
        keys_unique(es),
        0 <= i < es.len(),
    ensures
        index_of(es, es[i].0@) == i,
{
    let k = es[i].0@;
    assert(has_key(es, k));
    let j = index_of(es, k);
    assert(es[j].0@ == k);
    if j < i {
        assert(es[j].0@ != es[i].0@);
    } else if j > i {
        assert(es[i].0@ != es[j].0@);
    }
}

impl<T: View> KeyedVec<T> {
    pub open spec fn wf(&self) -> bool {
        keys_unique(self.entries@)
    }

    pub fn new() -> (r: KeyedVec<T>)
        ensures
            r.wf(),
            r@ == Map::<Seq<u8>, T::V>::empty(),
    {
        let r = KeyedVec { entries: Vec::new() };
        assert(r@ =~= Map::<Seq<u8>, T::V>::empty());
        r
    }

    /// The position of the entry with the key, if there is one.
    pub fn find(&self, key: &Vec<u8>) -> (r: Option<usize>)
        requires
            self.wf(),
        ensures
            r is None <==> !self@.contains_key(key@),
            r matches Some(i) ==> i < self.entries@.len() && self.entries@[i as int].0@ == key@,
    {
        let mut i: usize = 0;
        while i < self.entries.len()
            invariant
                i <= self.entries@.len(),
                forall|j: int| 0 <= j < i ==> (#[trigger] self.entries@[j]).0@ != key@,
            decreases self.entries@.len() - i,
        {
            if bytes_eq(&self.entries[i].0, key) {
                return Some(i);
            }
            i = i + 1;
        }
        None
    }

    pub fn contains_key(&self, key: &Vec<u8>) -> (r: bool)
        requires
            self.wf(),
        ensures
            r == self@.contains_key(key@),
    {
        self.find(key).is_some()
    }

    /// Sets the value of `key`, replacing the one it had.
    pub fn insert(&mut self, key: Vec<u8>, value: T)
        requires
            old(self).wf(),
        ensures
            final(self).wf(),
            final(self)@ == old(self)@.insert(key@, value@),
    {
        let ghost k = key@;
        let ghost v = value@;
        let ghost es = self.entries@;
        match self.find(&key) {
            Some(i) => {
                self.entries.set(i, (key, value));
                let ghost es2 = self.entries@;
                assert(keys_unique(es2)) by {
                    assert forall|a: int, b: int| 0 <= a < b < es2.len() implies (
                    #[trigger] es2[a]).0@ != (#[trigger] es2[b]).0@ by {
                        if a != i && b != i {
                            assert(es[a].0@ != es[b].0@);
                        } else if a == i {
                            assert(es[i as int].0@ != es[b].0@);
                        } else {
                            assert(es[a].0@ != es[i as int].0@);
                        }
                    }
                }
                assert forall|x: Seq<u8>| #[trigger] has_key(es2, x) == has_key(es, x) by {
                    if has_key(es, x) {
                        let j = choose|j: int| 0 <= j < es.len() && (#[trigger] es[j]).0@ == x;
                        assert(es2[j].0@ == x);
                    }
                    if has_key(es2, x) {
                        let j = choose|j: int| 0 <= j < es2.len() && (#[trigger] es2[j]).0@ == x;
                        assert(es[j].0@ == x);
                    }
                }
                assert forall|x: Seq<u8>| has_key(es2, x) implies #[trigger] es2[index_of(
                    es2,
                    x,
                )].1@ == old(self)@.insert(k, v)[x] by {
                    let j = choose|j: int| 0 <= j < es2.len() && (#[trigger] es2[j]).0@ == x;
                    lemma_index_of(es2, j);
                    lemma_index_of(es, j);
                }
                assert(final(self)@ =~= old(self)@.insert(k, v));
            },
            None => {
                self.entries.push((key, value));
                let ghost es2 = self.entries@;
                assert(keys_unique(es2)) by {
                    assert forall|a: int, b: int| 0 <= a < b < es2.len() implies (
                    #[trigger] es2[a]).0@ != (#[trigger] es2[b]).0@ by {
                        if b == es.len() {
                            assert(!has_key(es, k));
                            assert(es2[a] == es[a]);
                        } else {
                            assert(es[a].0@ != es[b].0@);
                        }
                    }
                }
                assert forall|x: Seq<u8>| #[trigger] has_key(es2, x) == (has_key(es, x) || x == k) by {
                    if has_key(es, x) {
                        let j = choose|j: int| 0 <= j < es.len() && (#[trigger] es[j]).0@ == x;
                        assert(es2[j].0@ == x);
                    }
                    if x == k {
                        assert(es2[es.len() as int].0@ == x);
                    }
                    if has_key(es2, x) && x != k {
                        let j = choose|j: int| 0 <= j < es2.len() && (#[trigger] es2[j]).0@ == x;
                        assert(es[j].0@ == x);
                    }
                }
                assert forall|x: Seq<u8>| has_key(es2, x) implies #[trigger] es2[index_of(
                    es2,
                    x,
                )].1@ == old(self)@.insert(k, v)[x] by {
                    let j = choose|j: int| 0 <= j < es2.len() && (#[trigger] es2[j]).0@ == x;
                    lemma_index_of(es2, j);
                    if j < es.len() {
                        lemma_index_of(es, j);
                    }
                }
                assert(final(self)@ =~= old(self)@.insert(k, v));
            },
        }
    }

    /// Removes the entry of `key`, if there is one.
    pub fn remove(&mut self, key: &Vec<u8>)
        requires
            old(self).wf(),
        ensures
            final(self).wf(),
            final(self)@ == old(self)@.remove(key@),
    {
        let ghost k = key@;
        let ghost es = self.entries@;
        match self.find(key) {
            None => {
                assert(final(self)@ =~= old(self)@.remove(k));
            },
            Some(i) => {
                let _ = self.entries.remove(i);
                let ghost es2 = self.entries@;
                assert(es2 =~= es.remove(i as int));
                assert(keys_unique(es2)) by {
                    assert forall|a: int, b: int| 0 <= a < b < es2.len() implies (
                    #[trigger] es2[a]).0@ != (#[trigger] es2[b]).0@ by {
                        let a0 = if a < i { a } else { a + 1 };
                        let b0 = if b < i { b } else { b + 1 };
                        assert(es[a0].0@ != es[b0].0@);
                    }
                }
                assert forall|x: Seq<u8>| #[trigger] has_key(es2, x) == (has_key(es, x) && x != k) by {
                    if has_key(es, x) && x != k {
                        let j = choose|j: int| 0 <= j < es.len() && (#[trigger] es[j]).0@ == x;
                        if j < i {
                            assert(es2[j].0@ == x);
                        } else {
                            assert(es2[j - 1].0@ == x);
                        }
                    }
                    if has_key(es2, x) {
                        let j = choose|j: int| 0 <= j < es2.len() && (#[trigger] es2[j]).0@ == x;
                        let j0 = if j < i { j } else { j + 1 };
                        assert(es[j0].0@ == x);
                        assert(j0 != i ==> es[j0].0@ != es[i as int].0@);
                    }
                }
                assert forall|x: Seq<u8>| has_key(es2, x) implies #[trigger] es2[index_of(
                    es2,
                    x,
                )].1@ == old(self)@.remove(k)[x] by {
                    let j = choose|j: int| 0 <= j < es2.len() && (#[trigger] es2[j]).0@ == x;
                    let j0 = if j < i { j } else { j + 1 };
                    lemma_index_of(es2, j);
                    lemma_index_of(es, j0);
                }
                assert(final(self)@ =~= old(self)@.remove(k));
            },
        }
    }
}

} // verus!
