use vstd::prelude::*;
use crate::key::{KeyView, ReconcileKey};

verus! {

/// One row of a keyed table.
pub struct Entry<V> {
    pub key: ReconcileKey,
    pub value: V,
}

/// Whether some row of `s` holds the key `k`.
pub open spec fn has_key<V>(s: Seq<Entry<V>>, k: KeyView) -> bool {
    exists|i: int| 0 <= i < s.len() && s[i].key@ == k
}

/// No two rows of `s` hold the same key.
pub open spec fn distinct_keys<V>(s: Seq<Entry<V>>) -> bool {
    forall|i: int, j: int|
        0 <= i < s.len() && 0 <= j < s.len() && i != j ==> s[i].key@ != s[j].key@
}

/// The map from key to value that the rows of `s` describe.
pub open spec fn entries_map<V>(s: Seq<Entry<V>>) -> Map<KeyView, V> {
    Map::new(
        |k: KeyView| has_key(s, k),
        |k: KeyView| s[choose|i: int| 0 <= i < s.len() && s[i].key@ == k].value,
    )
}

proof fn lemma_value_at<V>(s: Seq<Entry<V>>, i: int)
    requires
        distinct_keys(s),
        0 <= i < s.len(),
    ensures
        entries_map(s).contains_key(s[i].key@),
        entries_map(s)[s[i].key@] == s[i].value,
{
    let k = s[i].key@;
    assert(has_key(s, k));
    let j = choose|j: int| 0 <= j < s.len() && s[j].key@ == k;
    assert(j == i);
}

proof fn lemma_push<V>(s: Seq<Entry<V>>, e: Entry<V>)
    requires
        distinct_keys(s),
        !has_key(s, e.key@),
    ensures
        distinct_keys(s.push(e)),
        entries_map(s.push(e)) =~= entries_map(s).insert(e.key@, e.value),
{
    let t = s.push(e);
    assert forall|i: int, j: int| 0 <= i < t.len() && 0 <= j < t.len() && i != j implies t[i].key@
        != t[j].key@ by {
        if i < s.len() && j < s.len() {
            assert(s[i].key@ != s[j].key@);
        } else if i < s.len() {
            assert(t[i] == s[i]);
        } else {
            assert(t[j] == s[j]);
        }
    }
    lemma_value_at(t, s.len() as int);
    assert forall|k: KeyView| #[trigger] has_key(t, k) == (has_key(s, k) || k == e.key@) by {
        if has_key(s, k) {
            let i = choose|i: int| 0 <= i < s.len() && s[i].key@ == k;
            assert(t[i] == s[i]);
        }
        if has_key(t, k) && k != e.key@ {
            let i = choose|i: int| 0 <= i < t.len() && t[i].key@ == k;
            assert(t[i] == s[i]);
        }
    }
    assert forall|k: KeyView| has_key(s, k) implies entries_map(t)[k] == entries_map(s)[k] by {
        let i = choose|i: int| 0 <= i < s.len() && s[i].key@ == k;
        assert(t[i] == s[i]);
        lemma_value_at(s, i);
        lemma_value_at(t, i);
    }
}

proof fn lemma_update<V>(s: Seq<Entry<V>>, i: int, e: Entry<V>)
    requires
        distinct_keys(s),
        0 <= i < s.len(),
        s[i].key@ == e.key@,
    ensures
        distinct_keys(s.update(i, e)),
        entries_map(s.update(i, e)) =~= entries_map(s).insert(e.key@, e.value),
{
    let t = s.update(i, e);
    assert forall|a: int, b: int| 0 <= a < t.len() && 0 <= b < t.len() && a != b implies t[a].key@
        != t[b].key@ by {
        assert(s[a].key@ != s[b].key@);
    }
    lemma_value_at(t, i);
    assert forall|k: KeyView| #[trigger] has_key(t, k) == has_key(s, k) by {
        if has_key(s, k) {
            let j = choose|j: int| 0 <= j < s.len() && s[j].key@ == k;
            assert(t[j].key@ == k);
        }
        if has_key(t, k) {
            let j = choose|j: int| 0 <= j < t.len() && t[j].key@ == k;
            assert(s[j].key@ == k);
        }
    }
    assert forall|k: KeyView| has_key(s, k) && k != e.key@ implies entries_map(t)[k]
        == entries_map(s)[k] by {
        let j = choose|j: int| 0 <= j < s.len() && s[j].key@ == k;
        assert(t[j] == s[j]);
        lemma_value_at(s, j);
        lemma_value_at(t, j);
    }
}

proof fn lemma_remove<V>(s: Seq<Entry<V>>, i: int)
    requires
        distinct_keys(s),
        0 <= i < s.len(),
    ensures
        distinct_keys(s.remove(i)),
        entries_map(s.remove(i)) =~= entries_map(s).remove(s[i].key@),
{
    let t = s.remove(i);
    let k0 = s[i].key@;
    assert forall|a: int| 0 <= a < t.len() implies #[trigger] t[a] == s[if a < i { a } else { a + 1 }] by {}
    assert forall|a: int, b: int| 0 <= a < t.len() && 0 <= b < t.len() && a != b implies t[a].key@
        != t[b].key@ by {
        let a2 = if a < i { a } else { a + 1 };
        let b2 = if b < i { b } else { b + 1 };
        assert(t[a] == s[a2]);
        assert(t[b] == s[b2]);
    }
    assert forall|k: KeyView| #[trigger] has_key(t, k) == (has_key(s, k) && k != k0) by {
        if has_key(t, k) {
            let a = choose|a: int| 0 <= a < t.len() && t[a].key@ == k;
            let a2 = if a < i { a } else { a + 1 };
            assert(t[a] == s[a2]);
        }
        if has_key(s, k) && k != k0 {
            let a = choose|a: int| 0 <= a < s.len() && s[a].key@ == k;
            let a1 = if a < i { a } else { a - 1 };
            assert(t[a1] == s[a]);
        }
    }
    assert forall|k: KeyView| has_key(t, k) implies entries_map(t)[k] == entries_map(s)[k] by {
        let a = choose|a: int| 0 <= a < t.len() && t[a].key@ == k;
        let a2 = if a < i { a } else { a + 1 };
        assert(t[a] == s[a2]);
        lemma_value_at(s, a2);
        lemma_value_at(t, a);
    }
}

/// A table of values indexed by reconcile key, at most one row per key.
pub struct KeyedTable<V> {
    entries: Vec<Entry<V>>,
}

impl<V> KeyedTable<V> {
    /// The table as a map from key to value.
    pub closed spec fn view(&self) -> Map<KeyView, V> {
        entries_map(self.entries@)
    }

    /// No key is held twice.
    pub closed spec fn wf(&self) -> bool {
        distinct_keys(self.entries@)
    }

    pub fn new() -> (r: Self)
        ensures
            r.wf(),
            r.view() == Map::<KeyView, V>::empty(),
            r.view().dom().finite(),
    {
        let r = KeyedTable { entries: Vec::new() };
        assert(r.view() =~= Map::<KeyView, V>::empty());
        r
    }

    fn index_of(&self, k: &ReconcileKey) -> (r: Option<usize>)
        requires
            self.wf(),
        ensures
            match r {
                Some(i) => i < self.entries@.len() && self.entries@[i as int].key@ == k@,
                None => !has_key(self.entries@, k@),
            },
    {
        let mut i: usize = 0;
        while i < self.entries.len()
            invariant
                i <= self.entries@.len(),
                forall|j: int| 0 <= j < i ==> self.entries@[j].key@ != k@,
            decreases self.entries@.len() - i,
        {
            if self.entries[i].key.same(k) {
                return Some(i);
            }
            i = i + 1;
        }
        None
    }

    /// Number of keys held.
    pub fn len(&self) -> (r: usize)
        requires
            self.wf(),
        ensures
            r == self.view().len(),
            self.view().dom().finite(),
    {
        proof {
            self.lemma_len();
        }
        self.entries.len()
    }

    proof fn lemma_len(&self)
        requires
            self.wf(),
        ensures
            self.view().dom().finite(),
            self.view().len() == self.entries@.len(),
    {
        let s = self.entries@;
        let keys = s.map_values(|e: Entry<V>| e.key@);
        assert(keys.no_duplicates()) by {
            assert forall|i: int, j: int| 0 <= i < keys.len() && 0 <= j < keys.len() && i != j implies keys[i]
                != keys[j] by {
                assert(s[i].key@ != s[j].key@);
            }
        }
        assert(self.view().dom() =~= keys.to_set()) by {
            assert forall|k: KeyView| #[trigger] self.view().dom().contains(k) == keys.to_set().contains(k) by {
                if has_key(s, k) {
                    let i = choose|i: int| 0 <= i < s.len() && s[i].key@ == k;
                    assert(keys[i] == k);
                }
                if keys.contains(k) {
                    let i = choose|i: int| 0 <= i < keys.len() && keys[i] == k;
                    assert(s[i].key@ == k);
                }
            }
        }
        keys.unique_seq_to_set();
    }

    /// The keys held, each once.
    pub fn keys(&self) -> (r: Vec<ReconcileKey>)
        requires
            self.wf(),
        ensures
            forall|k: KeyView|
                #[trigger] self.view().contains_key(k) <==> exists|i: int|
                    0 <= i < r@.len() && r@[i]@ == k,
    {
        let mut r: Vec<ReconcileKey> = Vec::new();
        let mut i: usize = 0;
        while i < self.entries.len()
            invariant
                i <= self.entries@.len(),
                r@.len() == i,
                forall|j: int| 0 <= j < i ==> r@[j]@ == self.entries@[j].key@,
            decreases self.entries@.len() - i,
        {
            r.push(self.entries[i].key.duplicate());
            i = i + 1;
        }
        proof {
            assert forall|k: KeyView| #[trigger] self.view().contains_key(k) implies exists|i: int|
                0 <= i < r@.len() && r@[i]@ == k by {
                let j = choose|j: int| 0 <= j < self.entries@.len() && self.entries@[j].key@ == k;
                assert(r@[j]@ == k);
            }
            assert forall|k: KeyView| (exists|i: int| 0 <= i < r@.len() && r@[i]@ == k) implies #[trigger] self.view().contains_key(k) by {
                let j = choose|j: int| 0 <= j < r@.len() && r@[j]@ == k;
                assert(self.entries@[j].key@ == k);
                assert(has_key(self.entries@, k));
            }
        }
        r
    }

    /// Whether `k` has a row.
    pub fn contains(&self, k: &ReconcileKey) -> (r: bool)
        requires
            self.wf(),
        ensures
            r == self.view().contains_key(k@),
    {
        self.index_of(k).is_some()
    }

    /// The value held for `k`, if any.
    pub fn get(&self, k: &ReconcileKey) -> (r: Option<&V>)
        requires
            self.wf(),
        ensures
            match r {
                Some(v) => self.view().contains_key(k@) && *v == self.view()[k@],
                None => !self.view().contains_key(k@),
            },
    {
        match self.index_of(k) {
            Some(i) => {
                proof {
                    lemma_value_at(self.entries@, i as int);
                }
                Some(&self.entries[i].value)
            },
            None => None,
        }
    }

    /// Sets the value of `k`, adding a row if it had none.
    pub fn insert(&mut self, k: ReconcileKey, v: V)
        requires
            old(self).wf(),
        ensures
            final(self).wf(),
            final(self).view() == old(self).view().insert(k@, v),
    {
        match self.index_of(&k) {
            Some(i) => {
                proof {
                    lemma_update(self.entries@, i as int, Entry { key: k, value: v });
                }
                self.entries.set(i, Entry { key: k, value: v });
            },
            None => {
                proof {
                    lemma_push(self.entries@, Entry { key: k, value: v });
                }
                self.entries.push(Entry { key: k, value: v });
            },
        }
    }

    /// Removes the row of `k` and returns its value, if it had one.
    pub fn remove(&mut self, k: &ReconcileKey) -> (r: Option<V>)
        requires
            old(self).wf(),
        ensures
            final(self).wf(),
            final(self).view() == old(self).view().remove(k@),
            r == (if old(self).view().contains_key(k@) {
                Some(old(self).view()[k@])
            } else {
                None::<V>
            }),
    {
        match self.index_of(k) {
            Some(i) => {
                proof {
                    lemma_value_at(self.entries@, i as int);
                    lemma_remove(self.entries@, i as int);
                }
                let e = self.entries.remove(i);
                Some(e.value)
            },
            None => {
                assert(old(self).view().remove(k@) =~= old(self).view());
                None
            },
        }
    }
}

impl KeyedTable<u64> {
    /// A key whose value is at most `bound`, taking rows in the order they were added.
    pub fn first_at_most(&self, bound: u64) -> (r: Option<ReconcileKey>)
        requires
            self.wf(),
        ensures
            match r {
                Some(k) => self.view().contains_key(k@) && self.view()[k@] <= bound,
                None => forall|k: KeyView| #[trigger] self.view().contains_key(k) ==> self.view()[k] > bound,
            },
    {
        let mut i: usize = 0;
        while i < self.entries.len()
            invariant
                self.wf(),
                i <= self.entries@.len(),
                forall|j: int| 0 <= j < i ==> self.entries@[j].value > bound,
            decreases self.entries@.len() - i,
        {
            if self.entries[i].value <= bound {
                proof {
                    lemma_value_at(self.entries@, i as int);
                }
                return Some(self.entries[i].key.duplicate());
            }
            i = i + 1;
        }
        proof {
            assert forall|k: KeyView| #[trigger] self.view().contains_key(k) implies self.view()[k] > bound by {
                let j = choose|j: int| 0 <= j < self.entries@.len() && self.entries@[j].key@ == k;
                lemma_value_at(self.entries@, j);
            }
        }
        None
    }
}

} // verus!
