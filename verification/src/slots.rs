//! A small ordered table: values in numbered slots, kept in the order of their numbers.
use vstd::prelude::*;

verus! {

/// The place of a number in an ordered table: that of the first entry which is not below it.
pub open spec fn place<A>(table: Seq<(u64, A)>, key: u64) -> int
    decreases table.len(),
{
    if table.len() == 0 || table[0].0 >= key {
        0
    } else {
        1 + place(table.subrange(1, table.len() as int), key)
    }
}

/// What a slot holds.
pub open spec fn slot<A>(table: Seq<(u64, A)>, key: u64) -> Option<A> {
    let i = place(table, key);
    if 0 <= i < table.len() && table[i].0 == key {
        Some(table[i].1)
    } else {
        None
    }
}

/// The table with one slot filled.
pub open spec fn put<A>(table: Seq<(u64, A)>, key: u64, value: A) -> Seq<(u64, A)> {
    let i = place(table, key);
    if 0 <= i < table.len() && table[i].0 == key {
        table.update(i, (key, value))
    } else {
        table.insert(i, (key, value))
    }
}

/// The values in the order of their numbers.
pub open spec fn slot_values<A>(table: Seq<(u64, A)>) -> Seq<A> {
    Seq::new(table.len(), |i: int| table[i].1)
}

/// The numbers rise from entry to entry.
pub open spec fn rising<A>(table: Seq<(u64, A)>) -> bool {
    forall|i: int, j: int| 0 <= i < j < table.len() ==> (#[trigger] table[i]).0 < (#[trigger] table[j]).0
}

/// A table of values by number.
pub struct Slots<T> {
    entries: Vec<(u64, T)>,
}

impl<T: View> View for Slots<T> {
    type V = Seq<(u64, T::V)>;

    closed spec fn view(&self) -> Seq<(u64, T::V)> {
        Seq::new(self.entries@.len(), |i: int| (self.entries@[i].0, self.entries@[i].1@))
    }
}

proof fn lemma_place<A>(table: Seq<(u64, A)>, key: u64, k: int)
    requires
        0 <= k <= table.len(),
        forall|j: int| 0 <= j < k ==> (#[trigger] table[j]).0 < key,
        k < table.len() ==> table[k].0 >= key,
    ensures
        place(table, key) == k,
    decreases table.len(),
{
    if k > 0 {
        let rest = table.subrange(1, table.len() as int);
        assert forall|j: int| 0 <= j < k - 1 implies (#[trigger] rest[j]).0 < key by {
            assert(table[j + 1].0 < key);
        }
        assert(table[0].0 < key);
        lemma_place(rest, key, k - 1);
    }
}

proof fn lemma_place_below<A>(table: Seq<(u64, A)>, key: u64)
    ensures
        0 <= place(table, key) <= table.len(),
        forall|j: int| 0 <= j < place(table, key) ==> (#[trigger] table[j]).0 < key,
        place(table, key) < table.len() ==> table[place(table, key)].0 >= key,
    decreases table.len(),
{
    if table.len() == 0 || table[0].0 >= key {
    } else {
        let rest = table.subrange(1, table.len() as int);
        lemma_place_below(rest, key);
        assert forall|j: int| 0 <= j < place(table, key) implies (#[trigger] table[j]).0 < key by {
            if j > 0 {
                assert(rest[j - 1].0 < key);
            }
        }
    }
}

/// An entry stands in its own place.
pub proof fn entry_has_its_place<A>(table: Seq<(u64, A)>, i: int)
    requires
        rising(table),
        0 <= i < table.len(),
    ensures
        place(table, table[i].0) == i,
{
    lemma_place(table, table[i].0, i);
}

/// Filling a slot keeps the numbers rising, sets that slot and leaves every other one alone.
pub proof fn put_fills_one_slot<A>(table: Seq<(u64, A)>, key: u64, value: A)
    requires
        rising(table),
    ensures
        rising(put(table, key, value)),
        slot(put(table, key, value), key) == Some(value),
        forall|other: u64|
            other != key ==> #[trigger] slot(put(table, key, value), other) == slot(table, other),
{
    let i = place(table, key);
    let after = put(table, key, value);
    lemma_place_below(table, key);
    assert(rising(after)) by {
        assert forall|a: int, b: int| 0 <= a < b < after.len() implies (#[trigger] after[a]).0 < (
        #[trigger] after[b]).0 by {
            if i < table.len() && table[i].0 == key {
                assert(table[a].0 < table[b].0);
            } else {
                let x = if a < i { a } else { a - 1 };
                let y = if b < i { b } else { b - 1 };
                if a != i && b != i {
                    assert(table[x].0 < table[y].0);
                } else if a == i {
                    if i < table.len() && y > i {
                        assert(table[i].0 < table[y].0);
                    }
                } else {
                    assert(table[a].0 < key);
                }
            }
        }
    }
    assert forall|j: int| 0 <= j < i implies (#[trigger] after[j]).0 < key by {
        assert(table[j].0 < key);
    }
    lemma_place(after, key, i);
    assert forall|other: u64| other != key implies #[trigger] slot(after, other) == slot(
        table,
        other,
    ) by {
        lemma_place_below(table, other);
        lemma_place_below(after, other);
        let p = place(table, other);
        let q = place(after, other);
        if slot(table, other) is Some {
            let t = if i < table.len() && table[i].0 == key {
                p
            } else if p < i {
                p
            } else {
                p + 1
            };
            assert(after[t] == table[p]);
            assert forall|j: int| 0 <= j < t implies (#[trigger] after[j]).0 < other by {
                assert(after[j].0 < after[t].0);
            }
            lemma_place(after, other, t);
        } else if slot(after, other) is Some {
            assert(q != i);
            let t = if i < table.len() && table[i].0 == key {
                q
            } else if q < i {
                q
            } else {
                q - 1
            };
            assert(after[q] == table[t]);
            assert forall|j: int| 0 <= j < t implies (#[trigger] table[j]).0 < other by {
                assert(table[j].0 < table[t].0);
            }
            lemma_place(table, other, t);
        }
    }
}

impl<T: View> Slots<T> {
    pub fn new() -> (r: Slots<T>)
        ensures
            r@ == Seq::<(u64, T::V)>::empty(),
    {
        let r: Slots<T> = Slots { entries: Vec::new() };
        proof {
            assert(r@ =~= Seq::<(u64, T::V)>::empty());
        }
        r
    }

    pub fn len(&self) -> (r: usize)
        ensures
            r == self@.len(),
    {
        self.entries.len()
    }

    pub fn key_at(&self, i: usize) -> (r: u64)
        requires
            i < self@.len(),
        ensures
            r == self@[i as int].0,
    {
        self.entries[i].0
    }

    pub fn value_at(&self, i: usize) -> (r: &T)
        requires
            i < self@.len(),
        ensures
            r@ == self@[i as int].1,
    {
        &self.entries[i].1
    }

    fn place_of(&self, key: u64) -> (i: usize)
        ensures
            i == place(self@, key),
            i <= self@.len(),
    {
        let mut i: usize = 0;
        while i < self.entries.len() && self.entries[i].0 < key
            invariant
                i <= self.entries.len(),
                forall|j: int| 0 <= j < i ==> (#[trigger] self@[j]).0 < key,
            decreases self.entries.len() - i,
        {
            i = i + 1;
        }
        proof {
            lemma_place(self@, key, i as int);
        }
        i
    }

    pub fn get(&self, key: u64) -> (r: Option<&T>)
        ensures
            match r {
                Some(v) => slot(self@, key) == Some(v@),
                None => slot(self@, key) is None,
            },
    {
        let i = self.place_of(key);
        if i < self.entries.len() && self.entries[i].0 == key {
            Some(&self.entries[i].1)
        } else {
            None
        }
    }

    /// Fills a slot.
    pub fn put(&mut self, key: u64, value: T)
        ensures
            final(self)@ == put(old(self)@, key, value@),
    {
        let i = self.place_of(key);
        if i < self.entries.len() && self.entries[i].0 == key {
            self.entries.set(i, (key, value));
        } else {
            self.entries.insert(i, (key, value));
        }
        proof {
            assert(self@ =~= put(old(self)@, key, value@));
        }
    }

    /// Empties a slot and returns what was in it.
    pub fn take(&mut self, key: u64) -> (r: Option<T>)
        ensures
            match r {
                Some(v) => slot(old(self)@, key) == Some(v@) && final(self)@ == old(self)@.remove(
                    place(old(self)@, key),
                ),
                None => slot(old(self)@, key) is None && final(self)@ == old(self)@,
            },
    {
        let i = self.place_of(key);
        if i < self.entries.len() && self.entries[i].0 == key {
            let (_, value) = self.entries.remove(i);
            proof {
                assert(self@ =~= old(self)@.remove(i as int));
            }
            Some(value)
        } else {
            None
        }
    }
}

/// Taking a slot out and filling it again is filling it.
pub proof fn take_then_put<A>(table: Seq<(u64, A)>, key: u64, value: A)
    requires
        slot(table, key) is Some,
        rising(table),
    ensures
        put(table.remove(place(table, key)), key, value) == put(table, key, value),
{
    let i = place(table, key);
    let cut = table.remove(i);
    lemma_place_below(table, key);
    assert forall|j: int| 0 <= j < i implies (#[trigger] cut[j]).0 < key by {
        assert(table[j].0 < key);
    }
    if i < cut.len() {
        assert(cut[i] == table[i + 1]);
        assert(table[i].0 < table[i + 1].0);
    }
    lemma_place(cut, key, i);
    assert(put(cut, key, value) =~= put(table, key, value));
}

/// Filling a slot twice with the same value is filling it once.
pub proof fn put_again<A>(table: Seq<(u64, A)>, key: u64, value: A)
    ensures
        put(put(table, key, value), key, value) == put(table, key, value),
{
    let i = place(table, key);
    let after = put(table, key, value);
    lemma_place_below(table, key);
    assert forall|j: int| 0 <= j < i implies (#[trigger] after[j]).0 < key by {
        assert(table[j].0 < key);
    }
    lemma_place(after, key, i);
    assert(put(after, key, value) =~= after);
}

} // verus!
