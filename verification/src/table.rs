//! A small map kept as a list of entries in order of arrival.
use vstd::prelude::*;

verus! {

/// A key that can be compared for equality of its model.
pub trait TableKey: View {
    fn same_key(&self, other: &Self) -> (same: bool)
        ensures
            same == (self@ == other@),
    ;
}

impl TableKey for String {
    fn same_key(&self, other: &Self) -> (same: bool) {
        *self == *other
    }
}

/// A key made of two strings: a library's path and a path below it.
#[derive(Debug)]
pub struct ItemKey {
    pub root: String,
    pub path: String,
}

impl View for ItemKey {
    type V = (Seq<char>, Seq<char>);

    open spec fn view(&self) -> (Seq<char>, Seq<char>) {
        (self.root@, self.path@)
    }
}

impl TableKey for ItemKey {
    fn same_key(&self, other: &Self) -> (same: bool) {
        self.root == other.root && self.path == other.path
    }
}

/// A map from keys to values. No key occurs twice among the entries, and a
/// key keeps the place it first arrived at.
#[derive(Debug)]
pub struct Table<K, V> {
    pub entries: Vec<(K, V)>,
}

impl<K: TableKey, V> View for Table<K, V> {
    type V = Map<<K as View>::V, V>;

    open spec fn view(&self) -> Map<<K as View>::V, V> {
        Map::new(
            |k: <K as View>::V| exists|i: int| self.holds(i, k),
            |k: <K as View>::V| self.entries@[choose|i: int| self.holds(i, k)].1,
        )
    }
}

impl<K: TableKey, V> Table<K, V> {
    /// Entry `i` exists and has key `k`.
    pub open spec fn holds(&self, i: int, k: <K as View>::V) -> bool {
        0 <= i < self.entries@.len() && self.entries@[i].0@ == k
    }

    /// No key occurs twice.
    pub open spec fn wf(&self) -> bool {
        forall|i: int, j: int|
            0 <= i < self.entries@.len() && 0 <= j < self.entries@.len() && i != j
                ==> self.entries@[i].0@ != self.entries@[j].0@
    }

    /// Every entry is what the map gives for its key.
    pub proof fn lemma_entry(&self, i: int)
        requires
            self.wf(),
            0 <= i < self.entries@.len(),
        ensures
            self@.contains_key(self.entries@[i].0@),
            self@[self.entries@[i].0@] == self.entries@[i].1,
    {
        assert(self.holds(i, self.entries@[i].0@));
    }

    /// Every key of the map has an entry.
    pub proof fn lemma_key(&self, k: <K as View>::V) -> (i: int)
        requires
            self.wf(),
            self@.contains_key(k),
        ensures
            0 <= i < self.entries@.len(),
            self.entries@[i].0@ == k,
            self.entries@[i].1 == self@[k],
    {
        choose|i: int| self.holds(i, k)
    }

    pub fn new() -> (t: Self)
        ensures
            t.wf(),
            t@ == Map::<<K as View>::V, V>::empty(),
            t.entries@.len() == 0,
    {
        let t = Table { entries: Vec::new() };
        assert(t@ =~= Map::<<K as View>::V, V>::empty());
        t
    }

    /// The place of `key`, or the number of entries when it has none.
    pub fn place(&self, key: &K) -> (at: usize)
        requires
            self.wf(),
        ensures
            at <= self.entries@.len(),
            at < self.entries@.len() <==> self@.contains_key(key@),
            at < self.entries@.len() ==> self.entries@[at as int].0@ == key@
                && self.entries@[at as int].1 == self@[key@],
    {
        let mut at: usize = 0;
        while at < self.entries.len()
            invariant
                self.wf(),
                at <= self.entries@.len(),
                forall|j: int| 0 <= j < at ==> self.entries@[j].0@ != key@,
            decreases self.entries@.len() - at,
        {
            if self.entries[at].0.same_key(key) {
                proof {
                    self.lemma_entry(at as int);
                }
                return at;
            }
            at += 1;
        }
        at
    }

    pub fn contains_key(&self, key: &K) -> (found: bool)
        requires
            self.wf(),
        ensures
            found == self@.contains_key(key@),
    {
        self.place(key) < self.entries.len()
    }

    pub fn get(&self, key: &K) -> (value: Option<&V>)
        requires
            self.wf(),
        ensures
            match value {
                Some(v) => self@.contains_key(key@) && self@[key@] == *v,
                None => !self@.contains_key(key@),
            },
    {
        let at: usize = self.place(key);
        if at < self.entries.len() {
            Some(&self.entries[at].1)
        } else {
            None
        }
    }

    /// Sets the value of `key`, at its old place or else at the end.
    pub fn insert(&mut self, key: K, value: V)
        requires
            old(self).wf(),
        ensures
            final(self).wf(),
            final(self)@ == old(self)@.insert(key@, value),
    {
        let at: usize = self.place(&key);
        let ghost before = *self;
        if at < self.entries.len() {
            self.entries.set(at, (key, value));
        } else {
            self.entries.push((key, value));
        }
        proof {
            let ghost k = key@;
            assert forall|i: int, x: <K as View>::V| #[trigger] before.holds(i, x) implies self.holds(
                i,
                x,
            ) by {}
            assert forall|i: int, x: <K as View>::V| #[trigger] self.holds(i, x) implies i == at
                && x == k || before.holds(i, x) by {}
            assert(self.holds(at as int, k));
            assert forall|j: int| 0 <= j < before.entries@.len() && j != at implies (
            #[trigger] before.entries@[j]).0@ != k by {
                before.lemma_entry(j);
            }
            assert(self.wf());
            assert forall|x: <K as View>::V| #[trigger] self@.contains_key(x) implies self@[x]
                == before@.insert(k, value)[x] by {
                let i = self.lemma_key(x);
                if x != k {
                    assert(before.holds(i, x));
                }
            }
            assert(self@ =~= before@.insert(k, value));
        }
    }

    /// Takes the entry of `key` out; the others keep their order.
    pub fn remove(&mut self, key: &K) -> (value: Option<V>)
        requires
            old(self).wf(),
        ensures
            final(self).wf(),
            final(self)@ == old(self)@.remove(key@),
            match value {
                Some(v) => old(self)@.contains_key(key@) && old(self)@[key@] == v,
                None => !old(self)@.contains_key(key@),
            },
    {
        let at: usize = self.place(key);
        let ghost before = *self;
        if at < self.entries.len() {
            let taken = self.entries.remove(at);
            proof {
                let ghost k = key@;
                assert forall|i: int, x: <K as View>::V| #[trigger] self.holds(i, x) implies x != k
                    && before.holds(
                    if i < at {
                        i
                    } else {
                        i + 1
                    },
                    x,
                ) by {}
                assert forall|i: int, x: <K as View>::V| #[trigger]
                    before.holds(i, x) && x != k implies self.holds(
                    if i < at {
                        i
                    } else {
                        i - 1
                    },
                    x,
                ) by {}
                assert forall|i: int, j: int|
                    0 <= i < self.entries@.len() && 0 <= j < self.entries@.len() && i
                        != j implies self.entries@[i].0@ != self.entries@[j].0@ by {
                    let a = if i < at {
                        i
                    } else {
                        i + 1
                    };
                    let b = if j < at {
                        j
                    } else {
                        j + 1
                    };
                    assert(before.entries@[a].0@ != before.entries@[b].0@);
                }
                assert forall|x: <K as View>::V| #[trigger] self@.contains_key(x) implies self@[x]
                    == before@[x] by {
                    let i = self.lemma_key(x);
                    let a = if i < at {
                        i
                    } else {
                        i + 1
                    };
                    assert(before.holds(a, x));
                }
                assert(self@ =~= before@.remove(k));
            }
            Some(taken.1)
        } else {
            assert(self@ =~= before@.remove(key@));
            None
        }
    }
}

} // verus!
