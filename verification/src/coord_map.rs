//! A small map keyed by signed chunk coordinates, backed by a vector of
//! entries with pairwise-distinct keys.  Its view is a mathematical `Map`
//! from coordinate to value.

use vstd::prelude::*;

verus! {

/// Entries of an association list, as a sequence of key/value pairs.
pub type Entries<V> = Seq<((i32, i32, i32), V)>;

/// Whether some entry holds the key.
pub open spec fn entries_contain<V>(s: Entries<V>, k: (i32, i32, i32)) -> bool {
    exists|i: int| 0 <= i < s.len() && (#[trigger] s[i]).0 == k
}

/// Index of the entry holding the key (meaningful when one exists).
pub open spec fn entry_index_of<V>(s: Entries<V>, k: (i32, i32, i32)) -> int {
    choose|i: int| 0 <= i < s.len() && (#[trigger] s[i]).0 == k
}

/// No two entries share a key.
pub open spec fn entries_distinct<V>(s: Entries<V>) -> bool {
    forall|i: int, j: int|
        0 <= i < j < s.len() ==> (#[trigger] s[i]).0 != (#[trigger] s[j]).0
}

/// The map an entry sequence denotes.
pub open spec fn entries_as_map<V>(s: Entries<V>) -> Map<(i32, i32, i32), V> {
    Map::new(|k: (i32, i32, i32)| entries_contain(s, k), |k: (i32, i32, i32)| s[entry_index_of(s, k)].1)
}

/// With distinct keys, any entry holding the key is the chosen one.
pub proof fn lemma_entry_index_unique<V>(s: Entries<V>, k: (i32, i32, i32), i: int)
    requires
        entries_distinct(s),
        0 <= i < s.len(),
        s[i].0 == k,
    ensures
        entry_index_of(s, k) == i,
{
    assert(entries_contain(s, k));
    let j = entry_index_of(s, k);
    if i != j {
        assert(s[i].0 != s[j].0 || s[j].0 != s[i].0);
    }
}

/// Map keyed by a chunk coordinate.  Lookups and inserts are linear scans;
/// the working sets here (loaded chunks, overlay records) stay small.
pub struct CoordMap<V> {
    entries: Vec<((i32, i32, i32), V)>,
}

impl<V> View for CoordMap<V> {
    type V = Map<(i32, i32, i32), V>;

    closed spec fn view(&self) -> Map<(i32, i32, i32), V> {
        entries_as_map(self.entries@)
    }
}

impl<V> CoordMap<V> {
    /// The backing entry sequence; exposed so that callers can iterate.
    pub closed spec fn entries_view(&self) -> Entries<V> {
        self.entries@
    }

    pub open spec fn wf(&self) -> bool {
        entries_distinct(self.entries_view())
    }

    pub proof fn lemma_view_is_entries(&self)
        ensures
            self@ == entries_as_map(self.entries_view()),
    {
    }

    /// An entry's value is the view's value at its key.
    pub proof fn lemma_entry_in_view(&self, i: int)
        requires
            self.wf(),
            0 <= i < self.entries_view().len(),
        ensures
            self@.contains_key(self.entries_view()[i].0),
            self@[self.entries_view()[i].0] == self.entries_view()[i].1,
    {
        lemma_entry_index_unique(self.entries@, self.entries@[i].0, i);
    }

    /// Every key in the view is held by some entry.
    pub proof fn lemma_view_key_has_entry(&self, k: (i32, i32, i32))
        requires
            self.wf(),
            self@.contains_key(k),
        ensures
            0 <= entry_index_of(self.entries_view(), k) < self.entries_view().len(),
            self.entries_view()[entry_index_of(self.entries_view(), k)].0 == k,
            self.entries_view()[entry_index_of(self.entries_view(), k)].1 == self@[k],
    {
    }

    pub fn new() -> (r: Self)
        ensures
            r.wf(),
            r@ =~= Map::<(i32, i32, i32), V>::empty(),
            r.entries_view().len() == 0,
    {
        CoordMap { entries: Vec::new() }
    }

    pub fn len(&self) -> (n: usize)
        ensures
            n == self.entries_view().len(),
    {
        self.entries.len()
    }

    /// Looks a key up.
    pub fn get(&self, k: (i32, i32, i32)) -> (r: Option<&V>)
        requires
            self.wf(),
        ensures
            match r {
                Some(v) => self@.contains_key(k) && self@[k] == *v,
                None => !self@.contains_key(k),
            },
    {
        let n = self.entries.len();
        let mut i: usize = 0;
        while i < n
            invariant
                n == self.entries@.len(),
                i <= n,
                self.wf(),
                forall|j: int| 0 <= j < i ==> (#[trigger] self.entries@[j]).0 != k,
            decreases n - i,
        {
            let (key, value) = &self.entries[i];
            if key.0 == k.0 && key.1 == k.1 && key.2 == k.2 {
                proof {
                    lemma_entry_index_unique(self.entries@, k, i as int);
                }
                return Some(value);
            }
            i = i + 1;
        }
        proof {
            if entries_contain(self.entries@, k) {
                let j = entry_index_of(self.entries@, k);
            }
        }
        None
    }

    /// Inserts or replaces the value at a key.
    pub fn insert(&mut self, k: (i32, i32, i32), v: V)
        requires
            old(self).wf(),
        ensures
            final(self).wf(),
            final(self)@ =~= old(self)@.insert(k, v),
    {
        let n = self.entries.len();
        let mut i: usize = 0;
        while i < n
            invariant
                n == self.entries@.len(),
                i <= n,
                self.wf(),
                self.entries@ == old(self).entries@,
                forall|j: int| 0 <= j < i ==> (#[trigger] self.entries@[j]).0 != k,
            decreases n - i,
        {
            let hit = {
                let (key, _) = &self.entries[i];
                key.0 == k.0 && key.1 == k.1 && key.2 == k.2
            };
            if hit {
                self.entries.set(i, (k, v));
                proof {
                    let olds = old(self).entries@;
                    let news = self.entries@;
                    assert forall|m: int, j: int| 0 <= m < j < news.len()
                        implies (#[trigger] news[m]).0 != (#[trigger] news[j]).0 by {
                        assert(olds[m].0 != olds[j].0);
                    }
                    lemma_entry_index_unique(olds, k, i as int);
                    lemma_entry_index_unique(news, k, i as int);
                    assert forall|key2: (i32, i32, i32)|
                        entries_contain(news, key2) == entries_contain(olds, key2) by {
                        if entries_contain(news, key2) {
                            let j = entry_index_of(news, key2);
                            if j == i {
                                assert(olds[i as int].0 == k);
                            }
                            assert(olds[j].0 == news[j].0 || j == i);
                        }
                        if entries_contain(olds, key2) {
                            let j = entry_index_of(olds, key2);
                            if j == i {
                                assert(news[i as int].0 == k);
                            }
                            assert(news[j].0 == olds[j].0 || j == i);
                        }
                    }
                    assert forall|key2: (i32, i32, i32)| entries_contain(news, key2)
                        implies entries_as_map(news)[key2] == old(self)@.insert(k, v)[key2] by {
                        let j = entry_index_of(news, key2);
                        lemma_entry_index_unique(news, key2, j);
                        if key2 == k {
                            lemma_entry_index_unique(news, k, i as int);
                        } else {
                            assert(j != i);
                            lemma_entry_index_unique(olds, key2, j);
                        }
                    }
                }
                return;
            }
            i = i + 1;
        }
        self.entries.push((k, v));
        proof {
            let olds = old(self).entries@;
            let news = self.entries@;
            assert(news == olds.push((k, v)));
            assert forall|m: int, j: int| 0 <= m < j < news.len()
                implies (#[trigger] news[m]).0 != (#[trigger] news[j]).0 by {
                if j < olds.len() {
                    assert(olds[m].0 != olds[j].0);
                } else {
                    assert(news[j].0 == k);
                    assert(news[m].0 == olds[m].0);
                }
            }
            assert forall|key2: (i32, i32, i32)| entries_contain(news, key2)
                implies entries_as_map(news)[key2] == old(self)@.insert(k, v)[key2] by {
                let j = entry_index_of(news, key2);
                lemma_entry_index_unique(news, key2, j);
                if key2 == k {
                    lemma_entry_index_unique(news, k, olds.len() as int);
                } else {
                    assert(j < olds.len());
                    lemma_entry_index_unique(olds, key2, j);
                }
            }
            assert forall|key2: (i32, i32, i32)|
                entries_contain(olds, key2) || key2 == k
                implies entries_contain(news, key2) by {
                if key2 == k {
                    assert(news[olds.len() as int].0 == k);
                } else {
                    let j = entry_index_of(olds, key2);
                    assert(news[j].0 == key2);
                }
            }
            assert forall|key2: (i32, i32, i32)| entries_contain(news, key2)
                implies entries_contain(olds, key2) || key2 == k by {
                let j = entry_index_of(news, key2);
                if j < olds.len() {
                    assert(olds[j].0 == key2);
                }
            }
        }
    }

    /// Borrows the entry at a position, for iteration.
    pub fn entry_at(&self, i: usize) -> (r: &((i32, i32, i32), V))
        requires
            i < self.entries_view().len(),
        ensures
            *r == self.entries_view()[i as int],
    {
        &self.entries[i]
    }

    /// Replaces the value of the entry at a position, keeping its key.
    pub fn set_value_at(&mut self, i: usize, v: V)
        requires
            old(self).wf(),
            i < old(self).entries_view().len(),
        ensures
            final(self).wf(),
            final(self).entries_view()
                == old(self).entries_view().update(i as int, (old(self).entries_view()[i as int].0, v)),
            final(self)@ =~= old(self)@.insert(old(self).entries_view()[i as int].0, v),
    {
        let k = {
            let (key, _) = &self.entries[i];
            (key.0, key.1, key.2)
        };
        self.entries.set(i, (k, v));
        proof {
            let olds = old(self).entries@;
            let news = self.entries@;
            assert(k == olds[i as int].0);
            assert forall|m: int, j: int| 0 <= m < j < news.len()
                implies (#[trigger] news[m]).0 != (#[trigger] news[j]).0 by {
                assert(olds[m].0 != olds[j].0);
            }
            assert forall|key2: (i32, i32, i32)|
                entries_contain(news, key2) == entries_contain(olds, key2) by {
                if entries_contain(news, key2) {
                    let j = entry_index_of(news, key2);
                    assert(olds[j].0 == news[j].0);
                }
                if entries_contain(olds, key2) {
                    let j = entry_index_of(olds, key2);
                    assert(news[j].0 == olds[j].0);
                }
            }
            assert forall|key2: (i32, i32, i32)| entries_contain(news, key2)
                implies entries_as_map(news)[key2]
                    == old(self)@.insert(k, v)[key2] by {
                let j = entry_index_of(news, key2);
                lemma_entry_index_unique(news, key2, j);
                if key2 == k {
                    lemma_entry_index_unique(news, k, i as int);
                } else {
                    assert(j != i);
                    lemma_entry_index_unique(olds, key2, j);
                }
            }
        }
    }
}

} // verus!
