use vstd::prelude::*;
use crate::common::{AccountId, same_account};

verus! {

/// A key of a [`Table`]: one that the table can compare.
pub trait TableKey: Sized {
    fn same_key(&self, other: &Self) -> (r: bool)
        ensures
            r == (*self == *other),
    ;
}

impl TableKey for u64 {
    fn same_key(&self, other: &Self) -> (r: bool) {
        *self == *other
    }
}

impl TableKey for (AccountId, u64) {
    fn same_key(&self, other: &Self) -> (r: bool) {
        let same_id = self.1 == other.1;
        let same = same_account(&self.0, &other.0);
        same && same_id
    }
}

/// The map that a list of entries describes: a later entry for a key
/// replaces an earlier one.
pub open spec fn map_of<K, V>(entries: Seq<(K, Vec<V>)>) -> Map<K, Seq<V>>
    decreases entries.len(),
{
    if entries.len() == 0 {
        Map::empty()
    } else {
        map_of(entries.drop_last()).insert(entries.last().0, entries.last().1@)
    }
}

/// Whether no key occurs twice among the entries.
pub open spec fn keys_unique<K, V>(entries: Seq<(K, Vec<V>)>) -> bool {
    forall|i: int, j: int| 0 <= i < j < entries.len() ==> entries[i].0 != entries[j].0
}

/// A key lies in the map exactly when some entry holds it.
pub proof fn lemma_map_of_dom<K, V>(entries: Seq<(K, Vec<V>)>, k: K)
    ensures
        map_of(entries).contains_key(k) <==> exists|i: int|
            0 <= i < entries.len() && #[trigger] entries[i].0 == k,
    decreases entries.len(),
{
    if entries.len() > 0 {
        let prefix = entries.drop_last();
        lemma_map_of_dom(prefix, k);
        if map_of(entries).contains_key(k) && entries.last().0 != k {
            let i = choose|i: int| 0 <= i < prefix.len() && #[trigger] prefix[i].0 == k;
            assert(entries[i].0 == k);
        }
        if exists|i: int| 0 <= i < entries.len() && #[trigger] entries[i].0 == k {
            let i = choose|i: int| 0 <= i < entries.len() && #[trigger] entries[i].0 == k;
            if i < entries.len() - 1 {
                assert(prefix[i].0 == k);
            }
        }
    }
}

/// With unique keys, the value of a key is that of the entry that holds it.
pub proof fn lemma_map_of_value<K, V>(entries: Seq<(K, Vec<V>)>, i: int)
    requires
        keys_unique(entries),
        0 <= i < entries.len(),
    ensures
        map_of(entries).contains_key(entries[i].0),
        map_of(entries)[entries[i].0] == entries[i].1@,
    decreases entries.len(),
{
    let prefix = entries.drop_last();
    if i < entries.len() - 1 {
        assert(keys_unique(prefix));
        lemma_map_of_value(prefix, i);
        assert(prefix[i] == entries[i]);
    }
}

/// With unique keys, replacing the value of one entry replaces it in the map.
pub proof fn lemma_map_of_update<K, V>(entries: Seq<(K, Vec<V>)>, i: int, v: Vec<V>)
    requires
        keys_unique(entries),
        0 <= i < entries.len(),
    ensures
        map_of(entries.update(i, (entries[i].0, v))) == map_of(entries).insert(entries[i].0, v@),
    decreases entries.len(),
{
    let k = entries[i].0;
    let updated = entries.update(i, (k, v));
    let prefix = entries.drop_last();
    if i == entries.len() - 1 {
        assert(updated.drop_last() =~= prefix);
        lemma_map_of_dom(prefix, k);
        assert(map_of(updated) =~= map_of(entries).insert(k, v@));
    } else {
        assert(keys_unique(prefix));
        lemma_map_of_update(prefix, i, v);
        assert(updated.drop_last() =~= prefix.update(i, (k, v)));
        assert(entries.last().0 != k);
        assert(map_of(updated) =~= map_of(entries).insert(k, v@));
    }
}

/// A map held as a list of entries with distinct keys: the form in which the
/// contracts keep their per-raffle and per-player records.
pub struct Table<K, V> {
    pub entries: Vec<(K, Vec<V>)>,
}

impl<K, V> View for Table<K, V> {
    type V = Map<K, Seq<V>>;

    open spec fn view(&self) -> Map<K, Seq<V>> {
        map_of(self.entries@)
    }
}

/// A copy of a list of plain values.
pub fn copy_vec<V: Copy>(v: &Vec<V>) -> (r: Vec<V>)
    ensures
        r@ == v@,
{
    let mut r: Vec<V> = Vec::new();
    let mut i: usize = 0;
    while i < v.len()
        invariant
            i <= v.len(),
            r@ == v@.take(i as int),
        decreases v.len() - i,
    {
        let x = v[i];
        r.push(x);
        i = i + 1;
        assert(r@ =~= v@.take(i as int));
    }
    assert(v@.take(v.len() as int) =~= v@);
    r
}

impl<K: TableKey, V: Copy> Table<K, V> {
    /// The table's entries hold distinct keys.
    pub open spec fn wf(&self) -> bool {
        keys_unique(self.entries@)
    }

    /// An empty table.
    pub fn new() -> (r: Self)
        ensures
            r.wf(),
            r@ == Map::<K, Seq<V>>::empty(),
    {
        let r = Table { entries: Vec::new() };
        assert(r@ =~= Map::<K, Seq<V>>::empty());
        r
    }

    /// The position of the entry for `key`, if there is one.
    fn find(&self, key: &K) -> (r: Option<usize>)
        ensures
            match r {
                Some(i) => i < self.entries@.len() && self.entries@[i as int].0 == *key,
                None => forall|i: int| 0 <= i < self.entries@.len() ==> self.entries@[i].0 != *key,
            },
    {
        let mut i: usize = 0;
        while i < self.entries.len()
            invariant
                i <= self.entries@.len(),
                forall|j: int| 0 <= j < i ==> self.entries@[j].0 != *key,
            decreases self.entries.len() - i,
        {
            if self.entries[i].0.same_key(key) {
                return Some(i);
            }
            i = i + 1;
        }
        None
    }

    /// Whether `key` has an entry.
    pub fn contains_key(&self, key: &K) -> (r: bool)
        requires
            self.wf(),
        ensures
            r == self@.contains_key(*key),
    {
        proof {
            lemma_map_of_dom(self.entries@, *key);
        }
        match self.find(key) {
            Some(i) => true,
            None => false,
        }
    }

    /// A copy of the value of `key`, if it has one.
    pub fn get(&self, key: &K) -> (r: Option<Vec<V>>)
        requires
            self.wf(),
        ensures
            match r {
                Some(v) => self@.contains_key(*key) && v@ == self@[*key],
                None => !self@.contains_key(*key),
            },
    {
        proof {
            lemma_map_of_dom(self.entries@, *key);
        }
        match self.find(key) {
            Some(i) => {
                proof {
                    lemma_map_of_value(self.entries@, i as int);
                }
                Some(copy_vec(&self.entries[i].1))
            },
            None => None,
        }
    }

    /// Sets the value of `key`, replacing any earlier one.
    pub fn insert(&mut self, key: K, value: Vec<V>)
        requires
            old(self).wf(),
        ensures
            final(self).wf(),
            final(self)@ == old(self)@.insert(key, value@),
    {
        match self.find(&key) {
            Some(i) => {
                proof {
                    lemma_map_of_update(self.entries@, i as int, value);
                }
                let ghost before = self.entries@;
                self.entries.set(i, (key, value));
                assert(self.entries@ =~= before.update(i as int, (before[i as int].0, value)));
            },
            None => {
                let ghost before = self.entries@;
                self.entries.push((key, value));
                assert(self.entries@.drop_last() =~= before);
            },
        }
    }
}

} // verus!
