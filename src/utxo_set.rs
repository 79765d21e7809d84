use vstd::prelude::*;
use crate::types::{OutputKey, TransactionOutput};

verus! {

/// Whether no two entries of `s` share a key.
pub open spec fn keys_unique(s: Seq<(OutputKey, TransactionOutput)>) -> bool {
    forall|i: int, j: int|
        0 <= i < s.len() && 0 <= j < s.len() && #[trigger] s[i].0 == #[trigger] s[j].0 ==> i == j
}

/// Whether some entry of `s` has key `k`.
pub open spec fn has_key(s: Seq<(OutputKey, TransactionOutput)>, k: OutputKey) -> bool {
    exists|i: int| 0 <= i < s.len() && #[trigger] s[i].0 == k
}

/// The map that a list of entries with unique keys stands for.
pub open spec fn entries_map(s: Seq<(OutputKey, TransactionOutput)>) -> Map<OutputKey, TransactionOutput> {
    Map::new(
        |k: OutputKey| has_key(s, k),
        |k: OutputKey| s[choose|i: int| 0 <= i < s.len() && #[trigger] s[i].0 == k].1,
    )
}

/// The set of unspent outputs: each key names exactly one output.
pub struct UtxoSet {
    entries: Vec<(OutputKey, TransactionOutput)>,
}

impl View for UtxoSet {
    type V = Map<OutputKey, TransactionOutput>;

    closed spec fn view(&self) -> Map<OutputKey, TransactionOutput> {
        entries_map(self.entries@)
    }
}

proof fn lemma_entry_in_map(s: Seq<(OutputKey, TransactionOutput)>, i: int)
    requires
        keys_unique(s),
        0 <= i < s.len(),
    ensures
        entries_map(s).contains_key(s[i].0),
        entries_map(s)[s[i].0] == s[i].1,
{
    assert(has_key(s, s[i].0));
}

proof fn lemma_update_entry(s: Seq<(OutputKey, TransactionOutput)>, j: int, v: TransactionOutput)
    requires
        keys_unique(s),
        0 <= j < s.len(),
    ensures
        keys_unique(s.update(j, (s[j].0, v))),
        entries_map(s.update(j, (s[j].0, v))) == entries_map(s).insert(s[j].0, v),
{
    let k = s[j].0;
    let t = s.update(j, (k, v));
    assert forall|a: int, b: int|
        0 <= a < t.len() && 0 <= b < t.len() && #[trigger] t[a].0 == #[trigger] t[b].0 implies a == b by {
        assert(s[a].0 == t[a].0 && s[b].0 == t[b].0);
    }
    lemma_entry_in_map(t, j);
    assert forall|key: OutputKey| #[trigger] entries_map(t).contains_key(key) <==> entries_map(s).insert(k, v).contains_key(key) by {
        if has_key(t, key) {
            let a = choose|a: int| 0 <= a < t.len() && #[trigger] t[a].0 == key;
            assert(s[a].0 == key);
        }
        if has_key(s, key) {
            let a = choose|a: int| 0 <= a < s.len() && #[trigger] s[a].0 == key;
            assert(t[a].0 == key);
        }
    }
    assert forall|key: OutputKey| #[trigger] entries_map(t).contains_key(key) implies entries_map(t)[key] == entries_map(s).insert(k, v)[key] by {
        let a = choose|a: int| 0 <= a < t.len() && #[trigger] t[a].0 == key;
        lemma_entry_in_map(t, a);
        if key != k {
            assert(s[a].0 == key);
            lemma_entry_in_map(s, a);
        }
    }
    assert(entries_map(t) =~= entries_map(s).insert(k, v));
}

proof fn lemma_push_entry(s: Seq<(OutputKey, TransactionOutput)>, k: OutputKey, v: TransactionOutput)
    requires
        keys_unique(s),
        !has_key(s, k),
    ensures
        keys_unique(s.push((k, v))),
        entries_map(s.push((k, v))) == entries_map(s).insert(k, v),
{
    let t = s.push((k, v));
    assert forall|a: int, b: int|
        0 <= a < t.len() && 0 <= b < t.len() && #[trigger] t[a].0 == #[trigger] t[b].0 implies a == b by {
        if a < s.len() && b < s.len() {
            assert(s[a].0 == t[a].0 && s[b].0 == t[b].0);
        } else if a < s.len() {
            assert(s[a].0 == k);
        } else if b < s.len() {
            assert(s[b].0 == k);
        }
    }
    lemma_entry_in_map(t, s.len() as int);
    assert forall|key: OutputKey| #[trigger] entries_map(t).contains_key(key) <==> entries_map(s).insert(k, v).contains_key(key) by {
        if has_key(s, key) {
            let a = choose|a: int| 0 <= a < s.len() && #[trigger] s[a].0 == key;
            assert(t[a].0 == key);
        }
        if has_key(t, key) && key != k {
            let a = choose|a: int| 0 <= a < t.len() && #[trigger] t[a].0 == key;
            assert(s[a].0 == key);
        }
    }
    assert forall|key: OutputKey| #[trigger] entries_map(t).contains_key(key) implies entries_map(t)[key] == entries_map(s).insert(k, v)[key] by {
        let a = choose|a: int| 0 <= a < t.len() && #[trigger] t[a].0 == key;
        lemma_entry_in_map(t, a);
        if key != k {
            assert(s[a].0 == key);
            lemma_entry_in_map(s, a);
        }
    }
    assert(entries_map(t) =~= entries_map(s).insert(k, v));
}

proof fn lemma_remove_entry(s: Seq<(OutputKey, TransactionOutput)>, j: int)
    requires
        keys_unique(s),
        0 <= j < s.len(),
    ensures
        keys_unique(s.remove(j)),
        entries_map(s.remove(j)) == entries_map(s).remove(s[j].0),
{
    let k = s[j].0;
    let t = s.remove(j);
    assert forall|a: int, b: int|
        0 <= a < t.len() && 0 <= b < t.len() && #[trigger] t[a].0 == #[trigger] t[b].0 implies a == b by {
        let a1 = if a < j { a } else { a + 1 };
        let b1 = if b < j { b } else { b + 1 };
        assert(s[a1].0 == t[a].0 && s[b1].0 == t[b].0);
    }
    assert forall|key: OutputKey| #[trigger] entries_map(t).contains_key(key) <==> entries_map(s).remove(k).contains_key(key) by {
        if has_key(s, key) && key != k {
            let a = choose|a: int| 0 <= a < s.len() && #[trigger] s[a].0 == key;
            if a < j {
                assert(t[a].0 == key);
            } else {
                assert(a != j);
                assert(t[a - 1].0 == key);
            }
        }
        if has_key(t, key) {
            let a = choose|a: int| 0 <= a < t.len() && #[trigger] t[a].0 == key;
            let a1 = if a < j { a } else { a + 1 };
            assert(s[a1].0 == key);
        }
    }
    assert forall|key: OutputKey| #[trigger] entries_map(t).contains_key(key) implies entries_map(t)[key] == entries_map(s).remove(k)[key] by {
        let a = choose|a: int| 0 <= a < t.len() && #[trigger] t[a].0 == key;
        lemma_entry_in_map(t, a);
        let a1 = if a < j { a } else { a + 1 };
        assert(s[a1] == t[a]);
        lemma_entry_in_map(s, a1);
    }
    assert(entries_map(t) =~= entries_map(s).remove(k));
}

impl UtxoSet {
    /// The entries are keyed uniquely.
    pub closed spec fn wf(&self) -> bool {
        keys_unique(self.entries@)
    }

    /// An empty set.
    pub fn new() -> (r: UtxoSet)
        ensures
            r.wf(),
            r@ == Map::<OutputKey, TransactionOutput>::empty(),
    {
        let r = UtxoSet { entries: Vec::new() };
        assert(r@ =~= Map::<OutputKey, TransactionOutput>::empty());
        r
    }

    /// The number of unspent outputs.
    pub fn len(&self) -> (r: usize)
        requires
            self.wf(),
        ensures
            r == self@.dom().len(),
    {
        proof {
            self.lemma_len();
        }
        self.entries.len()
    }

    proof fn lemma_len(&self)
        requires
            self.wf(),
        ensures
            self@.dom().finite(),
            self@.dom().len() == self.entries@.len(),
        decreases self.entries@.len(),
    {
        let s = self.entries@;
        let keys = s.map_values(|e: (OutputKey, TransactionOutput)| e.0);
        assert(keys.no_duplicates()) by {
            assert forall|a: int, b: int| 0 <= a < keys.len() && 0 <= b < keys.len() && a != b implies keys[a] != keys[b] by {
                assert(s[a].0 == keys[a] && s[b].0 == keys[b]);
            }
        }
        assert forall|k: OutputKey| #[trigger] self@.dom().contains(k) <==> keys.to_set().contains(k) by {
            if has_key(s, k) {
                let a = choose|a: int| 0 <= a < s.len() && #[trigger] s[a].0 == k;
                assert(keys[a] == k);
            }
            if keys.contains(k) {
                let a = choose|a: int| 0 <= a < keys.len() && keys[a] == k;
                assert(s[a].0 == k);
            }
        }
        assert(self@.dom() =~= keys.to_set());
        keys.unique_seq_to_set();
    }

    /// Position of the entry with key `k`, if any.
    fn find(&self, k: &OutputKey) -> (r: Option<usize>)
        requires
            self.wf(),
        ensures
            match r {
                Some(i) => i < self.entries@.len() && self.entries@[i as int].0 == *k,
                None => !has_key(self.entries@, *k),
            },
    {
        let mut i: usize = 0;
        while i < self.entries.len()
            invariant
                i <= self.entries@.len(),
                forall|a: int| 0 <= a < i ==> #[trigger] self.entries@[a].0 != *k,
            decreases self.entries@.len() - i,
        {
            if keys_equal(&self.entries[i].0, k) {
                return Some(i);
            }
            i = i + 1;
        }
        None
    }

    /// Whether an unspent output is stored under `k`.
    pub fn contains(&self, k: &OutputKey) -> (r: bool)
        requires
            self.wf(),
        ensures
            r == self@.contains_key(*k),
    {
        match self.find(k) {
            Some(i) => {
                proof {
                    lemma_entry_in_map(self.entries@, i as int);
                }
                true
            },
            None => false,
        }
    }

    /// The output stored under `k`, if any.
    pub fn get(&self, k: &OutputKey) -> (r: Option<TransactionOutput>)
        requires
            self.wf(),
        ensures
            r == (if self@.contains_key(*k) { Some(self@[*k]) } else { None::<TransactionOutput> }),
    {
        match self.find(k) {
            Some(i) => {
                proof {
                    lemma_entry_in_map(self.entries@, i as int);
                }
                Some(self.entries[i].1)
            },
            None => None,
        }
    }

    /// Stores `v` under `k`, replacing what was there.
    pub fn insert(&mut self, k: OutputKey, v: TransactionOutput)
        requires
            old(self).wf(),
        ensures
            final(self).wf(),
            final(self)@ == old(self)@.insert(k, v),
    {
        match self.find(&k) {
            Some(i) => {
                proof {
                    lemma_update_entry(self.entries@, i as int, v);
                }
                self.entries.set(i, (k, v));
            },
            None => {
                proof {
                    lemma_push_entry(self.entries@, k, v);
                }
                self.entries.push((k, v));
            },
        }
    }

    /// Removes the output stored under `k`, if any.
    pub fn remove(&mut self, k: &OutputKey)
        requires
            old(self).wf(),
        ensures
            final(self).wf(),
            final(self)@ == old(self)@.remove(*k),
    {
        match self.find(k) {
            Some(i) => {
                proof {
                    lemma_remove_entry(self.entries@, i as int);
                }
                self.entries.remove(i);
            },
            None => {
                assert(self@ =~= self@.remove(*k));
            },
        }
    }
}

/// Whether two keys are equal, byte for byte.
pub fn keys_equal(a: &OutputKey, b: &OutputKey) -> (r: bool)
    ensures
        r == (*a == *b),
{
    let mut i: usize = 0;
    while i < 32
        invariant
            i <= 32,
            forall|j: int| 0 <= j < i ==> a@[j] == b@[j],
        decreases 32 - i,
    {
        if a[i] != b[i] {
            return false;
        }
        i = i + 1;
    }
    assert(*a =~= *b);
    true
}

} // verus!
