//! A map from names to values that keeps its names in order.

use crate::text;
use vstd::prelude::*;

verus! {

/// A map from names to values, held as a list of pairs in the order of the names.
#[derive(Debug, PartialEq)]
pub struct NameMap<V> {
    entries: Vec<(String, V)>,
}

/// The first entry at or after `from` with the given name, or the number of entries.
pub open spec fn entry_of<V>(entries: Seq<(String, V)>, name: Seq<char>, from: int) -> int
    decreases entries.len() - from,
{
    if from < 0 || from >= entries.len() {
        entries.len() as int
    } else if entries[from].0@ == name {
        from
    } else {
        entry_of(entries, name, from + 1)
    }
}

proof fn lemma_entry_of<V>(entries: Seq<(String, V)>, name: Seq<char>, from: int)
    requires
        0 <= from <= entries.len(),
    ensures
        from <= entry_of(entries, name, from) <= entries.len(),
        entry_of(entries, name, from) < entries.len() ==> entries[entry_of(
            entries,
            name,
            from,
        )].0@ == name,
        forall|i: int| from <= i < entry_of(entries, name, from) ==> entries[i].0@ != name,
    decreases entries.len() - from,
{
    if from < entries.len() && entries[from].0@ != name {
        lemma_entry_of(entries, name, from + 1);
    }
}

proof fn lemma_entry_is<V>(entries: Seq<(String, V)>, name: Seq<char>, from: int, at: int)
    requires
        0 <= from <= at <= entries.len(),
        forall|i: int| from <= i < at ==> entries[i].0@ != name,
        at < entries.len() ==> entries[at].0@ == name,
    ensures
        entry_of(entries, name, from) == at,
    decreases at - from,
{
    if from < at {
        lemma_entry_is(entries, name, from + 1, at);
    }
}

impl<V> View for NameMap<V> {
    type V = Map<Seq<char>, V>;

    closed spec fn view(&self) -> Map<Seq<char>, V> {
        Map::new(
            |name: Seq<char>| entry_of(self.entries@, name, 0) < self.entries@.len(),
            |name: Seq<char>| self.entries@[entry_of(self.entries@, name, 0)].1,
        )
    }
}

impl<V> NameMap<V> {
    /// The names in the order in which they are held.
    pub closed spec fn names(&self) -> Seq<Seq<char>> {
        Seq::new(self.entries@.len(), |i: int| self.entries@[i].0@)
    }

    /// The names are in ascending order, none of them twice.
    #[verifier::type_invariant]
    pub open spec fn in_order(&self) -> bool {
        forall|i: int, j: int|
            0 <= i < j < self.names().len() ==> text::precedes(
                #[trigger] self.names()[i],
                #[trigger] self.names()[j],
            )
    }

    /// Creates an empty map.
    pub fn new() -> (r: Self)
        ensures
            r@ == Map::<Seq<char>, V>::empty(),
            r.names().len() == 0,
    {
        let r = NameMap { entries: Vec::new() };
        assert(r@ =~= Map::<Seq<char>, V>::empty());
        r
    }

    /// The number of names.
    pub fn len(&self) -> (r: usize)
        ensures
            r == self.names().len(),
    {
        self.entries.len()
    }

    /// Whether there is no name at all.
    pub fn is_empty(&self) -> (r: bool)
        ensures
            r == (self.names().len() == 0),
    {
        self.entries.len() == 0
    }

    fn index_of(&self, name: &str) -> (r: usize)
        ensures
            r == entry_of(self.entries@, name@, 0),
            r <= self.entries@.len(),
            r < self.entries@.len() ==> self.entries@[r as int].0@ == name@,
            r < self.entries@.len() <==> self@.contains_key(name@),
            forall|i: int| 0 <= i < r ==> self.entries@[i].0@ != name@,
    {
        let mut i: usize = 0;
        while i < self.entries.len() && !text::same(self.entries[i].0.as_str(), name)
            invariant
                i <= self.entries@.len(),
                entry_of(self.entries@, name@, i as int) == entry_of(self.entries@, name@, 0),
                forall|j: int| 0 <= j < i ==> self.entries@[j].0@ != name@,
            decreases self.entries@.len() - i,
        {
            i = i + 1;
        }
        i
    }

    /// The value of a name.
    pub fn get(&self, name: &str) -> (r: Option<&V>)
        ensures
            match r {
                Some(value) => self@.contains_key(name@) && *value == self@[name@],
                None => !self@.contains_key(name@),
            },
    {
        let at = self.index_of(name);
        if at < self.entries.len() {
            Some(&self.entries[at].1)
        } else {
            None
        }
    }

    /// Whether the name has a value.
    pub fn contains_key(&self, name: &str) -> (r: bool)
        ensures
            r == self@.contains_key(name@),
    {
        self.index_of(name) < self.entries.len()
    }

    /// The name in a given position.
    pub fn name_at(&self, i: usize) -> (r: &str)
        requires
            i < self.names().len(),
        ensures
            r@ == self.names()[i as int],
            self@.contains_key(r@),
    {
        proof {
            lemma_entry_of(self.entries@, self.entries@[i as int].0@, 0);
        }
        self.entries[i].0.as_str()
    }

    /// The value in a given position.
    pub fn value_at(&self, i: usize) -> (r: &V)
        requires
            i < self.names().len(),
        ensures
            self@.contains_key(self.names()[i as int]),
            *r == self@[self.names()[i as int]],
    {
        proof {
            use_type_invariant(self);
            let name = self.names()[i as int];
            assert forall|j: int| 0 <= j < i implies self.entries@[j].0@ != name by {
                assert(text::precedes(self.names()[j], self.names()[i as int]));
                text::lemma_precedes_irreflexive(name);
            }
            lemma_entry_is(self.entries@, name, 0, i as int);
        }
        &self.entries[i].1
    }

    /// Every name that has a value is held in some position, and no other.
    pub proof fn lemma_names(&self)
        ensures
            forall|name: Seq<char>|
                self@.contains_key(name) <==> #[trigger] self.names().contains(name),
    {
        assert forall|name: Seq<char>|
            self@.contains_key(name) <==> #[trigger] self.names().contains(name) by {
            lemma_entry_of(self.entries@, name, 0);
            let at = entry_of(self.entries@, name, 0);
            if at < self.entries@.len() {
                assert(self.names()[at] == name);
            }
            if self.names().contains(name) {
                let i = choose|i: int| 0 <= i < self.names().len() && self.names()[i] == name;
                assert(self.entries@[i].0@ == name);
            }
        }
    }

    /// Gives a name a value, in place of the one it had.
    pub fn insert(&mut self, name: String, value: V)
        ensures
            final(self)@ == old(self)@.insert(name@, value),
    {
        proof {
            use_type_invariant(&*self);
        }
        let at = self.index_of(name.as_str());
        let ghost before = self.entries@;
        if at < self.entries.len() {
            let ghost key = name@;
            let mut whole = NameMap { entries: Vec::new() };
            core::mem::swap(self, &mut whole);
            let mut entries = whole.entries;
            entries[at] = (name, value);
            proof {
                assert forall|i: int, j: int| 0 <= i < j < entries@.len() implies text::precedes(
                    (#[trigger] entries@[i]).0@,
                    (#[trigger] entries@[j]).0@,
                ) by {
                    assert(entries@[i].0@ == old(self).names()[i]);
                    assert(entries@[j].0@ == old(self).names()[j]);
                }
            }
            *self = NameMap { entries };
            proof {
                assert(self.entries@ =~= before.update(at as int, (name, value)));
                assert forall|n: Seq<char>| entry_of(self.entries@, n, 0) == #[trigger] entry_of(
                    before,
                    n,
                    0,
                ) by {
                    lemma_entry_of(before, n, 0);
                    lemma_entry_is(self.entries@, n, 0, entry_of(before, n, 0));
                }
                let after = self.entries@;
                assert forall|n: Seq<char>| self@.contains_key(n) <==> #[trigger] old(
                    self,
                )@.insert(key, value).contains_key(n) by {
                    assert(entry_of(after, n, 0) == entry_of(before, n, 0));
                }
                assert forall|n: Seq<char>| #[trigger] self@.contains_key(n) implies self@[n]
                    == old(self)@.insert(key, value)[n] by {
                    assert(entry_of(after, n, 0) == entry_of(before, n, 0));
                    lemma_entry_of(before, n, 0);
                }
                assert(self@ =~= old(self)@.insert(key, value));
                assert(self.names() =~= old(self).names());
            }
        } else {
            let mut to: usize = 0;
            while to < self.entries.len() && text::is_before(
                self.entries[to].0.as_str(),
                name.as_str(),
            )
                invariant
                    to <= self.entries@.len(),
                    self.entries@ == before,
                    forall|j: int| 0 <= j < to ==> text::precedes(#[trigger] before[j].0@, name@),
                decreases self.entries@.len() - to,
            {
                to = to + 1;
            }
            proof {
                let after = before.insert(to as int, (name, value));
                assert forall|i: int, j: int| 0 <= i < j < before.len() implies text::precedes(
                    (#[trigger] before[i]).0@,
                    (#[trigger] before[j]).0@,
                ) by {
                    assert(text::precedes(self.names()[i], self.names()[j]));
                }
                lemma_inserted_in_order(before, after, to as int, name@);
            }
            let mut whole = NameMap { entries: Vec::new() };
            core::mem::swap(self, &mut whole);
            let mut entries = whole.entries;
            entries.insert(to, (name, value));
            *self = NameMap { entries };
            proof {
                let after = self.entries@;
                assert(after == before.insert(to as int, (name, value)));
                lemma_entry_is(after, name@, 0, to as int);
                assert forall|n: Seq<char>| n != name@ implies #[trigger] entry_of(after, n, 0) == (
                if entry_of(before, n, 0) < to {
                    entry_of(before, n, 0)
                } else {
                    entry_of(before, n, 0) + 1
                }) by {
                    lemma_entry_of(before, n, 0);
                    let k = entry_of(before, n, 0);
                    if k < to {
                        lemma_entry_is(after, n, 0, k);
                    } else {
                        assert forall|i: int| 0 <= i < k + 1 implies after[i].0@ != n by {
                            if i < to {
                                assert(after[i] == before[i]);
                            } else if i > to {
                                assert(after[i] == before[i - 1]);
                            }
                        }
                        lemma_entry_is(after, n, 0, k + 1);
                    }
                }
                assert forall|n: Seq<char>| self@.contains_key(n) <==> #[trigger] old(
                    self,
                )@.insert(name@, value).contains_key(n) by {
                    lemma_entry_of(before, n, 0);
                }
                assert forall|n: Seq<char>| #[trigger] self@.contains_key(n) implies self@[n]
                    == old(self)@.insert(name@, value)[n] by {
                    lemma_entry_of(before, n, 0);
                }
                assert(self@ =~= old(self)@.insert(name@, value));
            }
        }
    }
}

/// Where an entry is depends on the names alone.
proof fn lemma_same_entry<V>(
    first: Seq<(String, V)>,
    other: Seq<(String, V)>,
    name: Seq<char>,
    from: int,
)
    requires
        first.len() == other.len(),
        forall|i: int| 0 <= i < first.len() ==> (#[trigger] first[i]).0@ == other[i].0@,
    ensures
        entry_of(first, name, from) == entry_of(other, name, from),
    decreases first.len() - from,
{
    if 0 <= from < first.len() {
        assert(first[from].0@ == other[from].0@);
        lemma_same_entry(first, other, name, from + 1);
    }
}

impl<V: Clone> Clone for NameMap<V> {
    fn clone(&self) -> (r: Self)
        ensures
            r.names() == self.names(),
            forall|name: Seq<char>| #[trigger]
                self@.contains_key(name) <==> r@.contains_key(name),
            forall|name: Seq<char>| #[trigger]
                self@.contains_key(name) ==> cloned(self@[name], r@[name]),
    {
        let mut entries: Vec<(String, V)> = Vec::new();
        let mut i: usize = 0;
        while i < self.entries.len()
            invariant
                i <= self.entries@.len(),
                entries@.len() == i,
                forall|j: int|
                    0 <= j < i ==> (#[trigger] entries@[j]).0@ == self.entries@[j].0@ && cloned(
                        self.entries@[j].1,
                        entries@[j].1,
                    ),
            decreases self.entries@.len() - i,
        {
            entries.push((self.entries[i].0.clone(), self.entries[i].1.clone()));
            i = i + 1;
        }
        proof {
            use_type_invariant(self);
            assert forall|j: int, k: int| 0 <= j < k < entries@.len() implies text::precedes(
                (#[trigger] entries@[j]).0@,
                (#[trigger] entries@[k]).0@,
            ) by {
                assert(text::precedes(self.names()[j], self.names()[k]));
            }
        }
        let r = NameMap { entries };
        proof {
            assert(r.names() =~= self.names());
            assert forall|name: Seq<char>| #[trigger]
                self@.contains_key(name) <==> r@.contains_key(name) by {
                lemma_same_entry(self.entries@, r.entries@, name, 0);
            }
            assert forall|name: Seq<char>| #[trigger] self@.contains_key(name) implies cloned(
                self@[name],
                r@[name],
            ) by {
                lemma_same_entry(self.entries@, r.entries@, name, 0);
                lemma_entry_of(self.entries@, name, 0);
                let at = entry_of(self.entries@, name, 0);
                assert(cloned(self.entries@[at].1, r.entries@[at].1));
            }
        }
        r
    }
}

impl<V: Copy> NameMap<V> {
    /// A copy of the map.
    pub fn copy(&self) -> (r: Self)
        ensures
            r@ == self@,
    {
        let mut out: NameMap<V> = NameMap::new();
        let ghost names = self.names();
        let mut i: usize = 0;
        while i < self.len()
            invariant
                i <= names.len(),
                names == self.names(),
                forall|n: Seq<char>| #[trigger]
                    out@.contains_key(n) <==> names.take(i as int).contains(n),
                forall|n: Seq<char>| #[trigger]
                    out@.contains_key(n) ==> self@.contains_key(n) && out@[n] == self@[n],
            decreases names.len() - i,
        {
            let ghost before = out@;
            let name = self.name_at(i);
            let value = *self.value_at(i);
            out.insert(text::copy(name), value);
            proof {
                let (less, more) = (names.take(i as int), names.take(i + 1));
                assert(more =~= less.push(names[i as int]));
                assert forall|n: Seq<char>| #[trigger]
                    out@.contains_key(n) <==> more.contains(n) by {
                    if less.contains(n) {
                        let j = choose|j: int| 0 <= j < less.len() && less[j] == n;
                        assert(more[j] == n);
                    }
                    if n == name@ {
                        assert(more[i as int] == n);
                    }
                    if more.contains(n) {
                        let j = choose|j: int| 0 <= j < more.len() && more[j] == n;
                        if j < i {
                            assert(less[j] == n);
                        }
                    }
                    assert(before.contains_key(n) <==> less.contains(n));
                }
            }
            i = i + 1;
        }
        proof {
            self.lemma_names();
            assert(names.take(i as int) =~= names);
            assert forall|n: Seq<char>| #[trigger] out@.contains_key(n) == self@.contains_key(n) by {
                assert(self@.contains_key(n) <==> names.contains(n));
            }
            assert(out@ =~= self@);
        }
        out
    }
}

proof fn lemma_inserted_in_order<V>(
    before: Seq<(String, V)>,
    after: Seq<(String, V)>,
    to: int,
    name: Seq<char>,
)
    requires
        0 <= to <= before.len(),
        after.len() == before.len() + 1,
        after[to].0@ == name,
        forall|i: int| 0 <= i < to ==> after[i] == before[i],
        forall|i: int| to < i < after.len() ==> after[i] == #[trigger] before[i - 1],
        forall|i: int, j: int|
            0 <= i < j < before.len() ==> text::precedes(before[i].0@, before[j].0@),
        forall|i: int| 0 <= i < to ==> text::precedes(before[i].0@, name),
        forall|i: int| 0 <= i < before.len() ==> before[i].0@ != name,
        to < before.len() ==> !text::precedes(before[to].0@, name),
    ensures
        forall|i: int, j: int|
            0 <= i < j < after.len() ==> text::precedes(
                (#[trigger] after[i]).0@,
                (#[trigger] after[j]).0@,
            ),
{
    assert forall|i: int, j: int| 0 <= i < j < after.len() implies text::precedes(
        (#[trigger] after[i]).0@,
        (#[trigger] after[j]).0@,
    ) by {
        if to < before.len() {
            text::lemma_precedes_total(before[to].0@, name);
        }
        if i < to && j < to {
        } else if i < to && j == to {
        } else if i < to {
            assert(after[j] == before[j - 1]);
            assert(text::precedes(before[i].0@, before[j - 1].0@));
        } else if i == to {
            assert(after[j] == before[j - 1]);
            if j - 1 > to {
                text::lemma_precedes_transitive(name, before[to].0@, before[j - 1].0@);
            }
        } else {
            assert(after[i] == before[i - 1]);
            assert(after[j] == before[j - 1]);
        }
    }
}

} // verus!
