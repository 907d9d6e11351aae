//! Named columns of numbers: the derived data that a collector attaches to
//! its rollouts, such as advantages and returns.

use vstd::prelude::*;

verus! {

/// A map from names to columns, kept as a list of pairs in which no name
/// occurs twice.
pub struct NamedColumns<S> {
    pub entries: Vec<(String, Vec<S>)>,
}

/// A copy of `column`.
pub fn copy_column<T: Copy>(column: &Vec<T>) -> (copy: Vec<T>)
    ensures
        copy@ == column@,
{
    let mut copy: Vec<T> = Vec::new();
    let mut i: usize = 0;
    while i < column.len()
        invariant
            i <= column.len(),
            copy@ == column@.take(i as int),
        decreases column.len() - i,
    {
        copy.push(column[i]);
        proof {
            assert(column@.take(i + 1) =~= column@.take(i as int).push(column@[i as int]));
        }
        i += 1;
    }
    proof {
        assert(column@.take(column.len() as int) =~= column@);
    }
    copy
}

/// Appends a copy of every item of `more` to `column`.
pub fn extend_column<T: Copy>(column: &mut Vec<T>, more: &Vec<T>)
    ensures
        final(column)@ == old(column)@ + more@,
{
    let mut i: usize = 0;
    while i < more.len()
        invariant
            i <= more.len(),
            column@ == old(column)@ + more@.take(i as int),
        decreases more.len() - i,
    {
        column.push(more[i]);
        proof {
            assert(more@.take(i + 1) =~= more@.take(i as int).push(more@[i as int]));
            assert(column@ =~= old(column)@ + more@.take(i + 1));
        }
        i += 1;
    }
    proof {
        assert(more@.take(more.len() as int) =~= more@);
    }
}

impl<S> NamedColumns<S> {
    /// No name occurs twice.
    pub open spec fn wf(&self) -> bool {
        forall|i: int, j: int|
            0 <= i < j < self.entries.len() ==> (#[trigger] self.entries[i]).0@
                != (#[trigger] self.entries[j]).0@
    }

    /// One of the first `upto` entries is named `key`.
    pub open spec fn has_before(&self, upto: int, key: Seq<char>) -> bool {
        exists|i: int| 0 <= i < upto && i < self.entries.len() && (#[trigger] self.entries[i]).0@ == key
    }

    /// An entry is named `key`.
    pub open spec fn has(&self, key: Seq<char>) -> bool {
        self.has_before(self.entries.len() as int, key)
    }

    /// The position of an entry named `key`.
    pub open spec fn slot(&self, key: Seq<char>) -> int {
        choose|i: int| 0 <= i < self.entries.len() && (#[trigger] self.entries[i]).0@ == key
    }

    /// The names and their columns as a map.
    pub open spec fn view(&self) -> Map<Seq<char>, Seq<S>> {
        Map::new(|key: Seq<char>| self.has(key), |key: Seq<char>| self.entries[self.slot(key)].1@)
    }

    /// In a well-formed list the entry at position `i` is the one that the
    /// map holds under its name.
    pub proof fn lemma_entry_in_view(&self, i: int)
        requires
            self.wf(),
            0 <= i < self.entries.len(),
        ensures
            self.has(self.entries[i].0@),
            self.slot(self.entries[i].0@) == i,
            self@.contains_key(self.entries[i].0@),
            self@[self.entries[i].0@] == self.entries[i].1@,
    {
        let key = self.entries[i].0@;
        assert(self.has_before(self.entries.len() as int, key));
        let j = self.slot(key);
        if j < i {
            assert(self.entries[j].0@ != self.entries[i].0@);
        }
        if i < j {
            assert(self.entries[i].0@ != self.entries[j].0@);
        }
    }

    /// No columns.
    pub fn new() -> (columns: Self)
        ensures
            columns.wf(),
            columns@ == Map::<Seq<char>, Seq<S>>::empty(),
    {
        let columns = Self { entries: Vec::new() };
        proof {
            assert(columns@ =~= Map::<Seq<char>, Seq<S>>::empty());
        }
        columns
    }

    /// The number of names.
    pub fn len(&self) -> (n: usize)
        ensures
            n == self.entries.len(),
    {
        self.entries.len()
    }

    /// The position of the entry named `key`, if there is one.
    pub fn position(&self, key: &String) -> (found: Option<usize>)
        ensures
            match found {
                Some(i) => i < self.entries.len() && self.entries[i as int].0@ == key@,
                None => !self.has(key@),
            },
    {
        let mut i: usize = 0;
        while i < self.entries.len()
            invariant
                i <= self.entries.len(),
                !self.has_before(i as int, key@),
            decreases self.entries.len() - i,
        {
            if self.entries[i].0 == *key {
                return Some(i);
            }
            proof {
                if self.has_before(i + 1, key@) {
                    let j = choose|j: int|
                        0 <= j < i + 1 && j < self.entries.len() && (#[trigger] self.entries[j]).0@
                            == key@;
                    if j < i {
                        assert(self.has_before(i as int, key@));
                    }
                }
            }
            i += 1;
        }
        None
    }

    /// Whether there is a column named `key`.
    pub fn contains_key(&self, key: &str) -> (found: bool)
        ensures
            found == self@.contains_key(key@),
    {
        let owned = key.to_owned();
        self.position(&owned).is_some()
    }

    /// The column named `key`, if there is one.
    pub fn get(&self, key: &str) -> (column: Option<&Vec<S>>)
        requires
            self.wf(),
        ensures
            match column {
                Some(values) => self@.contains_key(key@) && values@ == self@[key@],
                None => !self@.contains_key(key@),
            },
    {
        let owned = key.to_owned();
        match self.position(&owned) {
            Some(i) => {
                proof {
                    self.lemma_entry_in_view(i as int);
                }
                Some(&self.entries[i].1)
            },
            None => None,
        }
    }

    /// Puts `values` under the name `key`, in place of the column that was
    /// there, which is returned.
    pub fn insert(&mut self, key: String, values: Vec<S>) -> (previous: Option<Vec<S>>)
        requires
            old(self).wf(),
        ensures
            final(self).wf(),
            final(self)@ == old(self)@.insert(key@, values@),
            match previous {
                Some(column) => old(self)@.contains_key(key@) && column@ == old(self)@[key@],
                None => !old(self)@.contains_key(key@),
            },
    {
        match self.position(&key) {
            Some(i) => {
                proof {
                    old(self).lemma_entry_in_view(i as int);
                }
                let mut column = values;
                std::mem::swap(&mut self.entries[i].1, &mut column);
                proof {
                    self.lemma_replaced(old(self), i as int);
                    assert(self@ =~= old(self)@.insert(key@, values@));
                }
                Some(column)
            },
            None => {
                self.entries.push((key, values));
                proof {
                    self.lemma_pushed(old(self));
                    assert(self@ =~= old(self)@.insert(key@, values@));
                }
                None
            },
        }
    }

    /// Replacing the column at position `i` changes the map at that name
    /// only.
    pub proof fn lemma_replaced(&self, before: &Self, i: int)
        requires
            before.wf(),
            0 <= i < before.entries.len(),
            self.entries.len() == before.entries.len(),
            forall|j: int| 0 <= j < before.entries.len() ==> (#[trigger] self.entries[j]).0@ == before.entries[j].0@,
            forall|j: int| 0 <= j < before.entries.len() && j != i ==> (#[trigger] self.entries[j]).1@ == before.entries[j].1@,
        ensures
            self.wf(),
            self@ =~= before@.insert(before.entries[i].0@, self.entries[i].1@),
    {
        assert forall|a: int, b: int| 0 <= a < b < self.entries.len() implies (#[trigger] self.entries[a]).0@
            != (#[trigger] self.entries[b]).0@ by {
            assert(before.entries[a].0@ != before.entries[b].0@);
        }
        let target = before@.insert(before.entries[i].0@, self.entries[i].1@);
        assert forall|key: Seq<char>| self@.contains_key(key) == target.contains_key(key) by {
            if self.has(key) {
                let j = self.slot(key);
                assert(before.entries[j].0@ == key);
                assert(before.has_before(before.entries.len() as int, key));
            }
            if before.has(key) {
                let j = before.slot(key);
                assert(self.entries[j].0@ == key);
                assert(self.has_before(self.entries.len() as int, key));
            }
            before.lemma_entry_in_view(i);
            self.lemma_entry_in_view(i);
        }
        assert forall|key: Seq<char>| self@.contains_key(key) implies self@[key] == target[key] by {
            let j = self.slot(key);
            self.lemma_entry_in_view(j);
            before.lemma_entry_in_view(j);
        }
    }

    /// Appending an entry under a new name adds that name to the map.
    pub proof fn lemma_pushed(&self, before: &Self)
        requires
            before.wf(),
            self.entries.len() == before.entries.len() + 1,
            forall|j: int| 0 <= j < before.entries.len() ==> (#[trigger] self.entries[j]).0@ == before.entries[j].0@,
            forall|j: int| 0 <= j < before.entries.len() ==> (#[trigger] self.entries[j]).1@ == before.entries[j].1@,
            !before.has(self.entries[before.entries.len() as int].0@),
        ensures
            self.wf(),
            self@ =~= before@.insert(
                self.entries[before.entries.len() as int].0@,
                self.entries[before.entries.len() as int].1@,
            ),
    {
        let last = before.entries.len() as int;
        assert forall|a: int, b: int| 0 <= a < b < self.entries.len() implies (#[trigger] self.entries[a]).0@
            != (#[trigger] self.entries[b]).0@ by {
            if b < last {
                assert(before.entries[a].0@ != before.entries[b].0@);
            } else {
                if self.entries[a].0@ == self.entries[b].0@ {
                    assert(before.entries[a].0@ == self.entries[last].0@);
                    assert(before.has_before(before.entries.len() as int, self.entries[last].0@));
                }
            }
        }
        let target = before@.insert(self.entries[last].0@, self.entries[last].1@);
        assert forall|key: Seq<char>| self@.contains_key(key) == target.contains_key(key) by {
            if self.has(key) {
                let j = self.slot(key);
                if j < last {
                    assert(before.entries[j].0@ == key);
                    assert(before.has_before(before.entries.len() as int, key));
                }
            }
            if before.has(key) {
                let j = before.slot(key);
                assert(self.entries[j].0@ == key);
                assert(self.has_before(self.entries.len() as int, key));
            }
            self.lemma_entry_in_view(last);
        }
        assert forall|key: Seq<char>| self@.contains_key(key) implies self@[key] == target[key] by {
            let j = self.slot(key);
            self.lemma_entry_in_view(j);
            if j < last {
                before.lemma_entry_in_view(j);
            }
        }
    }
}

/// What a column named `key` becomes when `more` is appended under that name
/// to the columns `before`: the old column followed by `more`, or `more`
/// alone where the name is new.
pub open spec fn appended_column<S>(before: Map<Seq<char>, Seq<S>>, key: Seq<char>, more: Seq<S>) -> Seq<S> {
    if before.contains_key(key) {
        before[key] + more
    } else {
        more
    }
}

impl<S: Copy> NamedColumns<S> {
    /// Appends a copy of `more` to the column named `key`, or starts that
    /// column with a copy of `more` where the name is new.
    pub fn append(&mut self, key: &String, more: &Vec<S>)
        requires
            old(self).wf(),
        ensures
            final(self).wf(),
            final(self)@ == old(self)@.insert(key@, appended_column(old(self)@, key@, more@)),
    {
        match self.position(key) {
            Some(i) => {
                proof {
                    old(self).lemma_entry_in_view(i as int);
                }
                extend_column(&mut self.entries[i].1, more);
                proof {
                    self.lemma_replaced(old(self), i as int);
                }
            },
            None => {
                self.entries.push((key.clone(), copy_column(more)));
                proof {
                    self.lemma_pushed(old(self));
                }
            },
        }
    }
}

} // verus!
