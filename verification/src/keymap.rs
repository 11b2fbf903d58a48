//! A map whose keys are compared by what they stand for.
use crate::textmap::{
    distinct, lemma_absent, lemma_with_key_absent, lemma_with_key_at, lemma_without_at, lookup,
    lookup_at, lookup_place, remove_then_look, with_key, without_key,
};
use vstd::prelude::*;

verus! {

/// A key of a map.
pub trait Key: View + Sized {
    fn same(&self, other: &Self) -> (r: bool)
        ensures
            r == (self@ == other@),
    ;

    fn copy(&self) -> (r: Self)
        ensures
            r@ == self@,
    ;
}

/// A map. No key occurs twice.
#[verifier::reject_recursive_types(K)]
#[verifier::reject_recursive_types(T)]
pub struct KeyMap<K, T> {
    entries: Vec<(K, T)>,
}

impl<K: View, T: View> View for KeyMap<K, T> {
    type V = Seq<(K::V, T::V)>;

    closed spec fn view(&self) -> Seq<(K::V, T::V)> {
        Seq::new(self.entries@.len(), |i: int| (self.entries@[i].0@, self.entries@[i].1@))
    }
}

impl<K: Key, T: View> KeyMap<K, T> {
    /// No key occurs twice.
    pub open spec fn inv(&self) -> bool {
        distinct(self@)
    }

    pub fn new() -> (r: KeyMap<K, T>)
        ensures
            r.inv(),
            r@ == Seq::<(K::V, T::V)>::empty(),
    {
        let r: KeyMap<K, T> = KeyMap { entries: Vec::new() };
        proof {
            assert(r@ =~= Seq::<(K::V, T::V)>::empty());
        }
        r
    }

    pub fn len(&self) -> (r: usize)
        ensures
            r == self@.len(),
    {
        self.entries.len()
    }

    pub fn key_at(&self, i: usize) -> (r: &K)
        requires
            i < self@.len(),
        ensures
            r@ == self@[i as int].0,
    {
        &self.entries[i].0
    }

    pub fn value_at(&self, i: usize) -> (r: &T)
        requires
            i < self@.len(),
        ensures
            r@ == self@[i as int].1,
    {
        &self.entries[i].1
    }

    fn index_of(&self, key: &K) -> (r: Option<usize>)
        requires
            self.inv(),
        ensures
            match r {
                Some(i) => i < self@.len() && self@[i as int].0 == key@ && lookup(self@, key@)
                    == Some(self@[i as int].1),
                None => lookup(self@, key@) is None,
            },
    {
        let mut i: usize = 0;
        while i < self.entries.len()
            invariant
                i <= self.entries.len(),
                self.inv(),
                forall|j: int| 0 <= j < i ==> (#[trigger] self@[j]).0 != key@,
            decreases self.entries.len() - i,
        {
            if self.entries[i].0.same(key) {
                proof {
                    lookup_at(self@, i as int);
                }
                return Some(i);
            }
            i = i + 1;
        }
        proof {
            lemma_absent(self@, key@);
        }
        None
    }

    pub fn get(&self, key: &K) -> (r: Option<&T>)
        requires
            self.inv(),
        ensures
            match r {
                Some(v) => lookup(self@, key@) == Some(v@),
                None => lookup(self@, key@) is None,
            },
    {
        match self.index_of(key) {
            Some(i) => Some(&self.entries[i].1),
            None => None,
        }
    }

    pub fn has(&self, key: &K) -> (r: bool)
        requires
            self.inv(),
        ensures
            r == (lookup(self@, key@) is Some),
    {
        self.index_of(key).is_some()
    }

    pub fn insert(&mut self, key: &K, value: T)
        requires
            old(self).inv(),
        ensures
            final(self).inv(),
            final(self)@ == with_key(old(self)@, key@, value@),
    {
        let ghost before = self@;
        match self.index_of(key) {
            Some(i) => {
                self.entries.set(i, (key.copy(), value));
                proof {
                    assert forall|j: int| i < j < before.len() implies (#[trigger] before[j]).0
                        != key@ by {
                        assert(before[i as int].0 != before[j].0);
                    }
                    lemma_with_key_at(before, key@, value@, i as int);
                    assert(self@ =~= before.update(i as int, (key@, value@)));
                    assert forall|a: int, b: int| 0 <= a < b < self@.len() implies (
                    #[trigger] self@[a]).0 != (#[trigger] self@[b]).0 by {
                        assert(before[a].0 != before[b].0);
                    }
                }
            },
            None => {
                self.entries.push((key.copy(), value));
                proof {
                    lemma_with_key_absent(before, key@, value@);
                    assert(self@ =~= before.push((key@, value@)));
                    lookup_place(before, key@);
                    assert forall|a: int, b: int| 0 <= a < b < self@.len() implies (
                    #[trigger] self@[a]).0 != (#[trigger] self@[b]).0 by {
                        if b < before.len() {
                            assert(before[a].0 != before[b].0);
                        } else {
                            assert(before[a].0 != key@);
                        }
                    }
                }
            },
        }
    }

    pub fn remove(&mut self, key: &K) -> (r: Option<T>)
        requires
            old(self).inv(),
        ensures
            final(self).inv(),
            final(self)@ == without_key(old(self)@, key@),
            match r {
                Some(v) => lookup(old(self)@, key@) == Some(v@),
                None => lookup(old(self)@, key@) is None,
            },
    {
        let ghost before = self@;
        match self.index_of(key) {
            Some(i) => {
                let (_, value) = self.entries.remove(i);
                proof {
                    lemma_without_at(before, key@, i as int);
                    assert(self@ =~= before.remove(i as int));
                    assert forall|a: int, b: int| 0 <= a < b < self@.len() implies (
                    #[trigger] self@[a]).0 != (#[trigger] self@[b]).0 by {
                        let x = if a < i { a } else { a + 1 };
                        let y = if b < i { b } else { b + 1 };
                        assert(before[x].0 != before[y].0);
                    }
                }
                Some(value)
            },
            None => {
                proof {
                    remove_then_look(before, key@, key@);
                }
                None
            },
        }
    }
}

/// Drops every entry that does not belong.
pub open spec fn kept_keys<K, V>(pairs: Seq<(K, V)>, keep: spec_fn(K) -> bool) -> Seq<(K, V)>
    decreases pairs.len(),
{
    if pairs.len() == 0 {
        pairs
    } else {
        let rest = kept_keys(pairs.drop_last(), keep);
        if keep(pairs.last().0) {
            rest.push(pairs.last())
        } else {
            rest
        }
    }
}

} // verus!
