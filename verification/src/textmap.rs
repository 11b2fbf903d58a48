//! A map with text keys.
use crate::text::{pairs_view, str_eq, texts};
use vstd::prelude::*;

verus! {

/// What a key stands for in a list of pairs with distinct keys.
pub open spec fn lookup<K, V>(pairs: Seq<(K, V)>, key: K) -> Option<V>
    decreases pairs.len(),
{
    if pairs.len() == 0 {
        None
    } else if pairs.last().0 == key {
        Some(pairs.last().1)
    } else {
        lookup(pairs.drop_last(), key)
    }
}

/// No key occurs twice.
pub open spec fn distinct<K, V>(pairs: Seq<(K, V)>) -> bool {
    forall|i: int, j: int|
        0 <= i < j < pairs.len() ==> (#[trigger] pairs[i]).0 != (#[trigger] pairs[j]).0
}

/// The pairs with one key set: in its place where it is there, else at the end.
pub open spec fn with_key<K, V>(pairs: Seq<(K, V)>, key: K, value: V) -> Seq<(K, V)>
    decreases pairs.len(),
{
    if pairs.len() == 0 {
        seq![(key, value)]
    } else if pairs.last().0 == key {
        pairs.drop_last().push((key, value))
    } else if lookup(pairs, key) is Some {
        with_key(pairs.drop_last(), key, value).push(pairs.last())
    } else {
        pairs.push((key, value))
    }
}

/// The pairs without one key.
pub open spec fn without_key<K, V>(pairs: Seq<(K, V)>, key: K) -> Seq<(K, V)>
    decreases pairs.len(),
{
    if pairs.len() == 0 {
        pairs
    } else if pairs.last().0 == key {
        without_key(pairs.drop_last(), key)
    } else {
        without_key(pairs.drop_last(), key).push(pairs.last())
    }
}

/// A key's value is the one at its place.
pub proof fn lookup_at<K, V>(pairs: Seq<(K, V)>, i: int)
    requires
        distinct(pairs),
        0 <= i < pairs.len(),
    ensures
        lookup(pairs, pairs[i].0) == Some(pairs[i].1),
    decreases pairs.len(),
{
    if i < pairs.len() - 1 {
        assert(pairs[i].0 != pairs[pairs.len() - 1].0);
        let rest = pairs.drop_last();
        assert(distinct(rest)) by {
            assert forall|a: int, b: int| 0 <= a < b < rest.len() implies (#[trigger] rest[a]).0
                != (#[trigger] rest[b]).0 by {
                assert(pairs[a].0 != pairs[b].0);
            }
        }
        lookup_at(rest, i);
        assert(rest[i] == pairs[i]);
    }
}

/// A key that has a value has a place.
pub proof fn lookup_place<K, V>(pairs: Seq<(K, V)>, key: K)
    ensures
        lookup(pairs, key) is Some <==> exists|i: int|
            0 <= i < pairs.len() && (#[trigger] pairs[i]).0 == key,
    decreases pairs.len(),
{
    if pairs.len() > 0 && pairs.last().0 != key {
        let rest = pairs.drop_last();
        lookup_place(rest, key);
        if lookup(rest, key) is Some {
            let i = choose|i: int| 0 <= i < rest.len() && (#[trigger] rest[i]).0 == key;
            assert(pairs[i].0 == key);
        }
        if exists|i: int| 0 <= i < pairs.len() && (#[trigger] pairs[i]).0 == key {
            let i = choose|i: int| 0 <= i < pairs.len() && (#[trigger] pairs[i]).0 == key;
            assert(rest[i].0 == key);
        }
    } else if pairs.len() > 0 {
        assert(pairs[pairs.len() - 1].0 == key);
    }
}

/// Setting a key sets it and nothing else.
pub proof fn set_then_look<K, V>(pairs: Seq<(K, V)>, key: K, value: V, other: K)
    ensures
        lookup(with_key(pairs, key, value), key) == Some(value),
        other != key ==> lookup(with_key(pairs, key, value), other) == lookup(pairs, other),
        with_key(pairs, key, value).len() == pairs.len() + if lookup(pairs, key) is Some {
            0int
        } else {
            1int
        },
    decreases pairs.len(),
{
    let after = with_key(pairs, key, value);
    if pairs.len() == 0 {
        assert(after.drop_last() =~= pairs);
    } else if pairs.last().0 == key {
        assert(after.drop_last() =~= pairs.drop_last());
    } else if lookup(pairs, key) is Some {
        set_then_look(pairs.drop_last(), key, value, other);
        assert(after.drop_last() =~= with_key(pairs.drop_last(), key, value));
    } else {
        assert(after.drop_last() =~= pairs);
    }
}

/// Removing a key removes it and nothing else.
pub proof fn remove_then_look<K, V>(pairs: Seq<(K, V)>, key: K, other: K)
    ensures
        lookup(without_key(pairs, key), key) is None,
        other != key ==> lookup(without_key(pairs, key), other) == lookup(pairs, other),
        without_key(pairs, key).len() <= pairs.len(),
        lookup(pairs, key) is Some ==> without_key(pairs, key).len() < pairs.len(),
        lookup(pairs, key) is None ==> without_key(pairs, key) == pairs,
    decreases pairs.len(),
{
    if pairs.len() > 0 {
        let rest = pairs.drop_last();
        remove_then_look(rest, key, other);
        let after = without_key(pairs, key);
        if pairs.last().0 != key {
            assert(after.drop_last() =~= without_key(rest, key));
            if lookup(pairs, key) is None {
                assert(after =~= pairs);
            }
        }
    }
}

/// Setting a key keeps the keys distinct.
pub proof fn distinct_after_set<K, V>(pairs: Seq<(K, V)>, key: K, value: V)
    requires
        distinct(pairs),
    ensures
        distinct(with_key(pairs, key, value)),
{
    let after = with_key(pairs, key, value);
    lookup_place(pairs, key);
    if lookup(pairs, key) is Some {
        let i = choose|i: int| 0 <= i < pairs.len() && (#[trigger] pairs[i]).0 == key;
        assert forall|j: int| i < j < pairs.len() implies (#[trigger] pairs[j]).0 != key by {
            assert(pairs[i].0 != pairs[j].0);
        }
        lemma_with_key_at(pairs, key, value, i);
        assert forall|a: int, b: int| 0 <= a < b < after.len() implies (#[trigger] after[a]).0 != (
        #[trigger] after[b]).0 by {
            assert(pairs[a].0 != pairs[b].0);
        }
    } else {
        lemma_with_key_absent(pairs, key, value);
        assert forall|a: int, b: int| 0 <= a < b < after.len() implies (#[trigger] after[a]).0 != (
        #[trigger] after[b]).0 by {
            if b < pairs.len() {
                assert(pairs[a].0 != pairs[b].0);
            } else {
                assert(pairs[a].0 != key);
            }
        }
    }
}

/// Removing a key keeps the keys distinct.
pub proof fn distinct_after_remove<K, V>(pairs: Seq<(K, V)>, key: K)
    requires
        distinct(pairs),
    ensures
        distinct(without_key(pairs, key)),
{
    let after = without_key(pairs, key);
    lookup_place(pairs, key);
    if lookup(pairs, key) is Some {
        let i = choose|i: int| 0 <= i < pairs.len() && (#[trigger] pairs[i]).0 == key;
        lemma_without_at(pairs, key, i);
        assert forall|a: int, b: int| 0 <= a < b < after.len() implies (#[trigger] after[a]).0 != (
        #[trigger] after[b]).0 by {
            let x = if a < i { a } else { a + 1 };
            let y = if b < i { b } else { b + 1 };
            assert(pairs[x].0 != pairs[y].0);
        }
    } else {
        remove_then_look(pairs, key, key);
    }
}

/// A map with text keys. No key occurs twice.
#[verifier::reject_recursive_types(T)]
pub struct TextMap<T> {
    entries: Vec<(String, T)>,
}

impl<T: View> View for TextMap<T> {
    type V = Seq<(Seq<char>, T::V)>;

    closed spec fn view(&self) -> Seq<(Seq<char>, T::V)> {
        Seq::new(self.entries@.len(), |i: int| (self.entries@[i].0@, self.entries@[i].1@))
    }
}

pub(crate) proof fn lemma_with_key_at<K, V>(pairs: Seq<(K, V)>, key: K, value: V, i: int)
    requires
        0 <= i < pairs.len(),
        pairs[i].0 == key,
        forall|j: int| i < j < pairs.len() ==> (#[trigger] pairs[j]).0 != key,
    ensures
        with_key(pairs, key, value) == pairs.update(i, (key, value)),
        lookup(pairs, key) == Some(pairs[i].1),
    decreases pairs.len(),
{
    if i == pairs.len() - 1 {
        assert(with_key(pairs, key, value) =~= pairs.update(i, (key, value)));
    } else {
        let rest = pairs.drop_last();
        assert(pairs[pairs.len() - 1].0 != key);
        assert forall|j: int| i < j < rest.len() implies (#[trigger] rest[j]).0 != key by {
            assert(pairs[j].0 != key);
        }
        lemma_with_key_at(rest, key, value, i);
        assert(with_key(pairs, key, value) =~= pairs.update(i, (key, value)));
    }
}

pub(crate) proof fn lemma_absent<K, V>(pairs: Seq<(K, V)>, key: K)
    requires
        forall|j: int| 0 <= j < pairs.len() ==> (#[trigger] pairs[j]).0 != key,
    ensures
        lookup(pairs, key) is None,
{
    lookup_place(pairs, key);
}

pub(crate) proof fn lemma_with_key_absent<K, V>(pairs: Seq<(K, V)>, key: K, value: V)
    requires
        lookup(pairs, key) is None,
    ensures
        with_key(pairs, key, value) == pairs.push((key, value)),
{
    if pairs.len() == 0 {
        assert(with_key(pairs, key, value) =~= pairs.push((key, value)));
    }
}

pub(crate) proof fn lemma_without_at<K, V>(pairs: Seq<(K, V)>, key: K, i: int)
    requires
        distinct(pairs),
        0 <= i < pairs.len(),
        pairs[i].0 == key,
    ensures
        without_key(pairs, key) == pairs.remove(i),
    decreases pairs.len(),
{
    let rest = pairs.drop_last();
    assert(distinct(rest)) by {
        assert forall|a: int, b: int| 0 <= a < b < rest.len() implies (#[trigger] rest[a]).0 != (
        #[trigger] rest[b]).0 by {
            assert(pairs[a].0 != pairs[b].0);
        }
    }
    if i == pairs.len() - 1 {
        assert forall|j: int| 0 <= j < rest.len() implies (#[trigger] rest[j]).0 != key by {
            assert(pairs[j].0 != pairs[i].0);
        }
        lemma_absent(rest, key);
        remove_then_look(rest, key, key);
        assert(without_key(pairs, key) =~= pairs.remove(i));
    } else {
        assert(pairs[i].0 != pairs[pairs.len() - 1].0);
        lemma_without_at(rest, key, i);
        assert(without_key(pairs, key) =~= pairs.remove(i));
    }
}

impl<T: View> TextMap<T> {
    /// No key occurs twice.
    pub open spec fn inv(&self) -> bool {
        distinct(self@)
    }

    pub fn new() -> (r: TextMap<T>)
        ensures
            r.inv(),
            r@ == Seq::<(Seq<char>, T::V)>::empty(),
    {
        let r: TextMap<T> = TextMap { entries: Vec::new() };
        proof {
            assert(r@ =~= Seq::<(Seq<char>, T::V)>::empty());
        }
        r
    }

    pub fn len(&self) -> (r: usize)
        ensures
            r == self@.len(),
    {
        self.entries.len()
    }

    pub fn key_at(&self, i: usize) -> (r: &str)
        requires
            i < self@.len(),
        ensures
            r@ == self@[i as int].0,
    {
        self.entries[i].0.as_str()
    }

    pub fn value_at(&self, i: usize) -> (r: &T)
        requires
            i < self@.len(),
        ensures
            r@ == self@[i as int].1,
    {
        &self.entries[i].1
    }

    fn index_of(&self, key: &str) -> (r: Option<usize>)
        requires
            self.inv(),
        ensures
            match r {
                Some(i) => i < self@.len() && self@[i as int].0 == key@ && lookup(self@, key@)
                    == Some(self@[i as int].1),
                None => lookup(self@, key@) is None,
            },
    {
        let mut i: usize = 0;
        while i < self.entries.len()
            invariant
                i <= self.entries.len(),
                self.inv(),
                forall|j: int| 0 <= j < i ==> (#[trigger] self@[j]).0 != key@,
            decreases self.entries.len() - i,
        {
            if str_eq(self.entries[i].0.as_str(), key) {
                proof {
                    lookup_at(self@, i as int);
                }
                return Some(i);
            }
            i = i + 1;
        }
        proof {
            lemma_absent(self@, key@);
        }
        None
    }

    pub fn get(&self, key: &str) -> (r: Option<&T>)
        requires
            self.inv(),
        ensures
            match r {
                Some(v) => lookup(self@, key@) == Some(v@),
                None => lookup(self@, key@) is None,
            },
    {
        match self.index_of(key) {
            Some(i) => Some(&self.entries[i].1),
            None => None,
        }
    }

    pub fn has(&self, key: &str) -> (r: bool)
        requires
            self.inv(),
        ensures
            r == (lookup(self@, key@) is Some),
    {
        self.index_of(key).is_some()
    }

    pub fn insert(&mut self, key: &str, value: T)
        requires
            old(self).inv(),
        ensures
            final(self).inv(),
            final(self)@ == with_key(old(self)@, key@, value@),
    {
        let ghost before = self@;
        match self.index_of(key) {
            Some(i) => {
                self.entries.set(i, (key.to_owned(), value));
                proof {
                    assert forall|j: int| i < j < before.len() implies (#[trigger] before[j]).0
                        != key@ by {
                        assert(before[i as int].0 != before[j].0);
                    }
                    lemma_with_key_at(before, key@, value@, i as int);
                    assert(self@ =~= before.update(i as int, (key@, value@)));
                    assert forall|a: int, b: int| 0 <= a < b < self@.len() implies (
                    #[trigger] self@[a]).0 != (#[trigger] self@[b]).0 by {
                        assert(before[a].0 != before[b].0);
                    }
                }
            },
            None => {
                self.entries.push((key.to_owned(), value));
                proof {
                    lemma_with_key_absent(before, key@, value@);
                    assert(self@ =~= before.push((key@, value@)));
                    lookup_place(before, key@);
                    assert forall|a: int, b: int| 0 <= a < b < self@.len() implies (
                    #[trigger] self@[a]).0 != (#[trigger] self@[b]).0 by {
                        if b < before.len() {
                            assert(before[a].0 != before[b].0);
                        } else {
                            assert(before[a].0 != key@);
                        }
                    }
                }
            },
        }
    }

    pub fn remove(&mut self, key: &str) -> (r: Option<T>)
        requires
            old(self).inv(),
        ensures
            final(self).inv(),
            final(self)@ == without_key(old(self)@, key@),
            match r {
                Some(v) => lookup(old(self)@, key@) == Some(v@),
                None => lookup(old(self)@, key@) is None,
            },
    {
        let ghost before = self@;
        match self.index_of(key) {
            Some(i) => {
                let (_, value) = self.entries.remove(i);
                proof {
                    lemma_without_at(before, key@, i as int);
                    assert(self@ =~= before.remove(i as int));
                    assert forall|a: int, b: int| 0 <= a < b < self@.len() implies (
                    #[trigger] self@[a]).0 != (#[trigger] self@[b]).0 by {
                        let x = if a < i { a } else { a + 1 };
                        let y = if b < i { b } else { b + 1 };
                        assert(before[x].0 != before[y].0);
                    }
                }
                Some(value)
            },
            None => {
                proof {
                    remove_then_look(before, key@, key@);
                }
                None
            },
        }
    }
}

/// One text.
#[derive(Debug)]
pub struct TextBox {
    pub text: String,
}

impl View for TextBox {
    type V = Seq<char>;

    open spec fn view(&self) -> Seq<char> {
        self.text@
    }
}

/// The entries of a table of texts.
pub fn table_pairs(table: &TextMap<TextBox>) -> (r: Vec<(String, String)>)
    requires
        table.inv(),
    ensures
        pairs_view(r@) == table@,
{
    let mut out: Vec<(String, String)> = Vec::new();
    let mut i: usize = 0;
    while i < table.len()
        invariant
            i <= table@.len(),
            pairs_view(out@) == table@.subrange(0, i as int),
        decreases table@.len() - i,
    {
        let ghost before = out@;
        out.push((table.key_at(i).to_owned(), table.value_at(i).text.clone()));
        i = i + 1;
        proof {
            assert(pairs_view(out@) =~= pairs_view(before).push(table@[i - 1]));
            assert(pairs_view(out@) =~= table@.subrange(0, i as int));
        }
    }
    proof {
        assert(table@.subrange(0, i as int) =~= table@);
    }
    out
}

/// A list of texts.
#[derive(Debug)]
pub struct TextList {
    pub items: Vec<String>,
}

impl View for TextList {
    type V = Seq<Seq<char>>;

    open spec fn view(&self) -> Seq<Seq<char>> {
        texts(self.items@)
    }
}

} // verus!
