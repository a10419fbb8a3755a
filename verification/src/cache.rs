//! A cache of results, keyed by the target, the lap count and the player
//! count that they were calculated for.

use vstd::prelude::*;

verus! {

/// Target in milliseconds, lap count, player count.
pub type CacheKey = (u32, usize, usize);

/// A map from keys to results that keeps what is put into it until it is
/// cleared.
pub struct ResultCache<V> {
    entries: Vec<(CacheKey, V)>,
}

/// Whether some entry has the key.
pub open spec fn has_key<V>(entries: Seq<(CacheKey, V)>, key: CacheKey) -> bool {
    exists|i: int| 0 <= i < entries.len() && (#[trigger] entries[i]).0 == key
}

/// `i` is the position of the first entry with the key.
pub open spec fn is_first_with_key<V>(entries: Seq<(CacheKey, V)>, key: CacheKey, i: int) -> bool {
    &&& 0 <= i < entries.len()
    &&& entries[i].0 == key
    &&& forall|j: int| 0 <= j < i ==> (#[trigger] entries[j]).0 != key
}

/// The position of the first entry with the key.
pub open spec fn key_position<V>(entries: Seq<(CacheKey, V)>, key: CacheKey) -> int {
    choose|i: int| is_first_with_key(entries, key, i)
}

/// The first entry with a key is found at one position only.
proof fn lemma_first_with_key<V>(entries: Seq<(CacheKey, V)>, key: CacheKey, i: int)
    requires
        is_first_with_key(entries, key, i),
    ensures
        has_key(entries, key),
        key_position(entries, key) == i,
{
    let p = key_position(entries, key);
    assert(is_first_with_key(entries, key, p));
    if p < i {
        assert(entries[p].0 != key);
    }
    if i < p {
        assert(entries[i].0 != key);
    }
}

/// Where a key occurs, it occurs at a first position.
proof fn lemma_has_first<V>(entries: Seq<(CacheKey, V)>, key: CacheKey, i: int)
    requires
        0 <= i < entries.len(),
        entries[i].0 == key,
    ensures
        is_first_with_key(entries, key, key_position(entries, key)),
        key_position(entries, key) <= i,
    decreases i,
{
    if forall|j: int| 0 <= j < i ==> (#[trigger] entries[j]).0 != key {
        assert(is_first_with_key(entries, key, i));
        lemma_first_with_key(entries, key, i);
    } else {
        let j = choose|j: int| 0 <= j < i && (#[trigger] entries[j]).0 == key;
        lemma_has_first(entries, key, j);
    }
}

impl<V> View for ResultCache<V> {
    type V = Map<CacheKey, V>;

    /// Each key maps to the result of the first entry that has it.
    closed spec fn view(&self) -> Map<CacheKey, V> {
        Map::new(
            |key: CacheKey| has_key(self.entries@, key),
            |key: CacheKey| self.entries@[key_position(self.entries@, key)].1,
        )
    }
}

impl<V> ResultCache<V> {
    /// The keys in the order in which they were first stored.
    pub closed spec fn keys(&self) -> Seq<CacheKey> {
        Seq::new(self.entries@.len(), |i: int| self.entries@[i].0)
    }

    /// The keys are the keys that map to a result.
    pub proof fn lemma_keys(&self)
        ensures
            forall|key: CacheKey| self@.contains_key(key) <==> self.keys().contains(key),
    {
        assert forall|key: CacheKey| self@.contains_key(key) <==> self.keys().contains(key) by {
            if has_key(self.entries@, key) {
                let i = choose|i: int|
                    0 <= i < self.entries@.len() && (#[trigger] self.entries@[i]).0 == key;
                assert(self.keys()[i] == key);
            }
            if self.keys().contains(key) {
                let i = choose|i: int| 0 <= i < self.keys().len() && self.keys()[i] == key;
                assert(self.entries@[i].0 == key);
            }
        }
    }

    /// An empty cache.
    pub fn new() -> (cache: Self)
        ensures
            cache@ == Map::<CacheKey, V>::empty(),
            cache.keys() == Seq::<CacheKey>::empty(),
    {
        let cache = ResultCache { entries: Vec::new() };
        assert(cache@ =~= Map::<CacheKey, V>::empty());
        assert(cache.keys() =~= Seq::<CacheKey>::empty());
        cache
    }

    fn find(&self, key: &CacheKey) -> (found: Option<usize>)
        ensures
            match found {
                Some(i) => is_first_with_key(self.entries@, *key, i as int),
                None => !has_key(self.entries@, *key),
            },
    {
        let mut i: usize = 0;
        while i < self.entries.len()
            invariant
                i <= self.entries@.len(),
                forall|j: int| 0 <= j < i ==> (#[trigger] self.entries@[j]).0 != *key,
            decreases self.entries@.len() - i,
        {
            let entry = &self.entries[i];
            if entry.0.0 == key.0 && entry.0.1 == key.1 && entry.0.2 == key.2 {
                return Some(i);
            }
            i += 1;
        }
        None
    }

    /// Whether a result is stored under the key.
    pub fn contains_key(&self, key: &CacheKey) -> (found: bool)
        ensures
            found == self@.contains_key(*key),
    {
        match self.find(key) {
            Some(i) => {
                proof {
                    lemma_first_with_key(self.entries@, *key, i as int);
                }
                true
            },
            None => false,
        }
    }

    /// The result stored under the key.
    pub fn get(&self, key: &CacheKey) -> (found: Option<&V>)
        ensures
            match found {
                Some(value) => self@.contains_key(*key) && *value == self@[*key],
                None => !self@.contains_key(*key),
            },
    {
        match self.find(key) {
            Some(i) => {
                proof {
                    lemma_first_with_key(self.entries@, *key, i as int);
                }
                Some(&self.entries[i].1)
            },
            None => None,
        }
    }

    /// Stores a result under the key, in place of what was stored under it.
    /// A key that is new goes behind the keys that are there.
    pub fn insert(&mut self, key: CacheKey, value: V)
        ensures
            final(self)@ == old(self)@.insert(key, value),
            final(self).keys() == if old(self)@.contains_key(key) {
                old(self).keys()
            } else {
                old(self).keys().push(key)
            },
            old(self).keys().no_duplicates() ==> final(self).keys().no_duplicates(),
    {
        let ghost keys_before = self.keys();
        proof {
            self.lemma_keys();
        }
        let ghost before = self.entries@;
        let found = self.find(&key);
        let ghost at = match found {
            Some(i) => i as int,
            None => before.len() as int,
        };
        match found {
            Some(i) => {
                proof {
                    lemma_first_with_key(before, key, i as int);
                }
                self.entries.set(i, (key, value));
            },
            None => {
                self.entries.push((key, value));
            },
        }
        proof {
            let after = self.entries@;
            assert(is_first_with_key(after, key, at));
            lemma_first_with_key(after, key, at);
            assert forall|k: CacheKey| k != key implies (has_key(after, k) <==> has_key(before, k))
                && (has_key(before, k) ==> key_position(after, k) == key_position(before, k)
                && after[key_position(after, k)].1 == before[key_position(before, k)].1) by {
                if has_key(after, k) {
                    let j = choose|j: int| 0 <= j < after.len() && (#[trigger] after[j]).0 == k;
                    assert(j != at);
                    assert(before[j].0 == k);
                }
                if has_key(before, k) {
                    let j = choose|j: int| 0 <= j < before.len() && (#[trigger] before[j]).0 == k;
                    lemma_has_first(before, k, j);
                    let b = key_position(before, k);
                    assert(b != at);
                    assert(after[b].0 == k);
                    assert forall|j: int| 0 <= j < b implies (#[trigger] after[j]).0 != k by {
                        if j != at {
                            assert(before[j].0 != k);
                        }
                    }
                    lemma_first_with_key(after, k, b);
                }
            }
            assert(final(self)@ =~= old(self)@.insert(key, value));
            if found is Some {
                assert(self.keys() =~= keys_before);
            } else {
                assert(self.keys() =~= keys_before.push(key));
                assert(!keys_before.contains(key));
            }
        }
    }

    /// How many keys the cache holds.
    pub fn len(&self) -> (count: usize)
        ensures
            count == self.keys().len(),
    {
        self.entries.len()
    }

    /// Forgets every result.
    pub fn clear(&mut self)
        ensures
            final(self)@ == Map::<CacheKey, V>::empty(),
            final(self).keys() == Seq::<CacheKey>::empty(),
    {
        self.entries.clear();
        assert(self@ =~= Map::<CacheKey, V>::empty());
        assert(self.keys() =~= Seq::<CacheKey>::empty());
    }

    /// The key at a position below `len`.
    pub fn key_at(&self, position: usize) -> (key: CacheKey)
        requires
            position < self.keys().len(),
        ensures
            key == self.keys()[position as int],
            self@.contains_key(key),
    {
        self.entries[position].0
    }
}

} // verus!
