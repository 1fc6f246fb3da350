use vstd::prelude::*;

use crate::keys::ComponentKey;
use crate::keys::InternalEntityKey;
use crate::keys::InternalFilterKey;

verus! {

/// Keys that can be compared in executable code.
pub trait KeyEq: Copy {
    fn key_eq(&self, other: &Self) -> (r: bool)
        ensures
            r == (*self == *other),
    ;
}

impl KeyEq for InternalEntityKey {
    fn key_eq(&self, other: &Self) -> (r: bool) {
        *self == *other
    }
}

impl KeyEq for ComponentKey {
    fn key_eq(&self, other: &Self) -> (r: bool) {
        *self == *other
    }
}

impl KeyEq for InternalFilterKey {
    fn key_eq(&self, other: &Self) -> (r: bool) {
        *self == *other
    }
}

/// The map that a list of entries describes (a later entry wins).
pub open spec fn entries_to_map<K, V>(s: Seq<(K, V)>) -> Map<K, V>
    decreases s.len(),
{
    if s.len() == 0 {
        Map::empty()
    } else {
        entries_to_map(s.drop_last()).insert(s.last().0, s.last().1)
    }
}

/// The keys of a list of entries.
pub open spec fn entry_keys<K, V>(s: Seq<(K, V)>) -> Seq<K> {
    s.map_values(|p: (K, V)| p.0)
}

/// What a list of entries with distinct keys maps `k` to.
pub proof fn lemma_entries_to_map<K, V>(s: Seq<(K, V)>)
    requires
        entry_keys(s).no_duplicates(),
    ensures
        forall|k: K| #[trigger]
            entries_to_map(s).contains_key(k) <==> entry_keys(s).contains(k),
        forall|i: int| 0 <= i < s.len() ==> #[trigger] entries_to_map(s)[s[i].0] == s[i].1,
    decreases s.len(),
{
    if s.len() > 0 {
        let rest = s.drop_last();
        let n = s.len() - 1;
        assert(entry_keys(rest) =~= entry_keys(s).drop_last());
        lemma_entries_to_map(rest);
        assert(entry_keys(s)[n] == s.last().0);
        assert(entries_to_map(s) == entries_to_map(rest).insert(s.last().0, s.last().1));
        assert forall|k: K| #[trigger]
            entries_to_map(s).contains_key(k) <==> entry_keys(s).contains(k) by {
            assert(entries_to_map(rest).contains_key(k) == entry_keys(rest).contains(k));
            if entry_keys(s).contains(k) && k != s.last().0 {
                let i = choose|i: int| 0 <= i < entry_keys(s).len() && entry_keys(s)[i] == k;
                if i == n {
                    assert(false);
                }
                assert(entry_keys(rest)[i] == k);
                assert(entry_keys(rest).contains(k));
            }
            if entry_keys(rest).contains(k) {
                let i = choose|i: int| 0 <= i < entry_keys(rest).len() && entry_keys(rest)[i] == k;
                assert(entry_keys(s)[i] == k);
            }
            if k == s.last().0 {
                assert(entry_keys(s).contains(k));
            }
        }
        assert forall|i: int| 0 <= i < s.len() implies #[trigger] entries_to_map(s)[s[i].0]
            == s[i].1 by {
            if i < n {
                assert(entry_keys(s)[i] != entry_keys(s)[n]);
                assert(rest[i] == s[i]);
                assert(entries_to_map(rest)[rest[i].0] == rest[i].1);
            }
        }
    }
}

/// Entries with distinct keys, kept in a vector.
pub struct AssocMap<K, V> {
    entries: Vec<(K, V)>,
}

impl<K, V> View for AssocMap<K, V> {
    type V = Map<K, V>;

    closed spec fn view(&self) -> Map<K, V> {
        entries_to_map(self.entries@)
    }
}

impl<K: KeyEq, V> AssocMap<K, V> {
    pub closed spec fn wf(&self) -> bool {
        entry_keys(self.entries@).no_duplicates()
    }

    pub closed spec fn entries(&self) -> Seq<(K, V)> {
        self.entries@
    }

    pub fn new() -> (r: Self)
        ensures
            r.wf(),
            r@ == Map::<K, V>::empty(),
    {
        let r = AssocMap { entries: Vec::new() };
        assert(entry_keys(r.entries@) =~= Seq::<K>::empty());
        r
    }

    /// The keys, in the order they came in.
    pub fn keys(&self) -> (r: Vec<K>)
        requires
            self.wf(),
        ensures
            forall|k: K| #[trigger] r@.contains(k) <==> self@.contains_key(k),
    {
        let mut r: Vec<K> = Vec::new();
        let mut i: usize = 0;
        while i < self.entries.len()
            invariant
                i <= self.entries@.len(),
                r@ == entry_keys(self.entries@).take(i as int),
            decreases self.entries@.len() - i,
        {
            r.push(self.entries[i].0);
            proof {
                assert(entry_keys(self.entries@).take(i + 1) =~= entry_keys(self.entries@).take(
                    i as int,
                ).push(self.entries@[i as int].0));
            }
            i = i + 1;
        }
        proof {
            lemma_entries_to_map(self.entries@);
            assert(entry_keys(self.entries@).take(i as int) =~= entry_keys(self.entries@));
        }
        r
    }

    pub fn is_empty(&self) -> (r: bool)
        requires
            self.wf(),
        ensures
            r == (self@.dom() == Set::<K>::empty()),
    {
        proof {
            lemma_entries_to_map(self.entries@);
            if self.entries@.len() > 0 {
                assert(entry_keys(self.entries@)[0] == self.entries@[0].0);
                assert(self@.contains_key(self.entries@[0].0));
            } else {
                assert(self@.dom() =~= Set::<K>::empty());
            }
        }
        self.entries.len() == 0
    }

    fn find(&self, key: &K) -> (r: Option<usize>)
        requires
            self.wf(),
        ensures
            match r {
                Some(i) => i < self.entries@.len() && self.entries@[i as int].0 == *key,
                None => !entry_keys(self.entries@).contains(*key),
            },
    {
        let mut i: usize = 0;
        while i < self.entries.len()
            invariant
                i <= self.entries@.len(),
                forall|j: int| 0 <= j < i ==> self.entries@[j].0 != *key,
            decreases self.entries@.len() - i,
        {
            if self.entries[i].0.key_eq(key) {
                return Some(i);
            }
            i = i + 1;
        }
        proof {
            if entry_keys(self.entries@).contains(*key) {
                let j = choose|j: int|
                    0 <= j < entry_keys(self.entries@).len() && entry_keys(self.entries@)[j]
                        == *key;
                assert(self.entries@[j].0 == *key);
            }
        }
        None
    }

    pub fn contains_key(&self, key: &K) -> (r: bool)
        requires
            self.wf(),
        ensures
            r == self@.contains_key(*key),
    {
        proof {
            lemma_entries_to_map(self.entries@);
        }
        match self.find(key) {
            Some(i) => {
                assert(entry_keys(self.entries@)[i as int] == *key);
                true
            },
            None => false,
        }
    }

    pub fn get(&self, key: &K) -> (r: Option<&V>)
        requires
            self.wf(),
        ensures
            r == (if self@.contains_key(*key) {
                Some(&self@[*key])
            } else {
                None
            }),
    {
        proof {
            lemma_entries_to_map(self.entries@);
        }
        match self.find(key) {
            Some(i) => {
                assert(entry_keys(self.entries@)[i as int] == *key);
                Some(&self.entries[i].1)
            },
            None => None,
        }
    }

    /// Adds an entry for a key that has none.
    pub fn insert_new(&mut self, key: K, value: V)
        requires
            old(self).wf(),
            !old(self)@.contains_key(key),
        ensures
            final(self).wf(),
            final(self)@ == old(self)@.insert(key, value),
    {
        proof {
            lemma_entries_to_map(self.entries@);
        }
        self.entries.push((key, value));
        proof {
            assert(entry_keys(self.entries@) =~= entry_keys(old(self).entries@).push(key));
            assert(self.entries@.drop_last() =~= old(self).entries@);
        }
    }

    /// Takes out the entry of `key`, if any.
    pub fn remove(&mut self, key: &K) -> (r: Option<V>)
        requires
            old(self).wf(),
        ensures
            final(self).wf(),
            final(self)@ == old(self)@.remove(*key),
            r == (if old(self)@.contains_key(*key) {
                Some(old(self)@[*key])
            } else {
                None
            }),
    {
        proof {
            lemma_entries_to_map(self.entries@);
        }
        match self.find(key) {
            Some(i) => {
                let ghost s = self.entries@;
                let (_, v) = self.entries.remove(i);
                proof {
                    let t = self.entries@;
                    assert(t == s.remove(i as int));
                    assert(entry_keys(s)[i as int] == *key);
                    assert(entry_keys(t) =~= entry_keys(s).remove(i as int));
                    assert(entry_keys(t).no_duplicates()) by {
                        assert forall|a: int, b: int|
                            0 <= a < b < entry_keys(t).len() implies entry_keys(t)[a] != entry_keys(
                            t,
                        )[b] by {
                            let a2 = if a < i { a } else { a + 1 };
                            let b2 = if b < i { b } else { b + 1 };
                            assert(entry_keys(t)[a] == entry_keys(s)[a2]);
                            assert(entry_keys(t)[b] == entry_keys(s)[b2]);
                        }
                    }
                    lemma_entries_to_map(t);
                    assert forall|k: K| #[trigger]
                        entries_to_map(t).contains_key(k) == old(self)@.remove(*key).contains_key(
                            k,
                        ) by {
                        if entry_keys(t).contains(k) {
                            let j = choose|j: int| 0 <= j < entry_keys(t).len() && entry_keys(t)[j] == k;
                            let j2 = if j < i { j } else { j + 1 };
                            assert(entry_keys(s)[j2] == k);
                            assert(j2 != i);
                        }
                        if old(self)@.remove(*key).contains_key(k) {
                            let j = choose|j: int| 0 <= j < entry_keys(s).len() && entry_keys(s)[j] == k;
                            assert(j != i);
                            let j2 = if j < i { j } else { j - 1 };
                            assert(entry_keys(t)[j2] == k);
                        }
                    }
                    assert forall|k: K| #[trigger] entries_to_map(t).contains_key(k) implies entries_to_map(t)[k]
                        == old(self)@.remove(*key)[k] by {
                        let j = choose|j: int| 0 <= j < entry_keys(t).len() && entry_keys(t)[j] == k;
                        let j2 = if j < i { j } else { j + 1 };
                        assert(t[j] == s[j2]);
                    }
                    assert(entries_to_map(t) =~= old(self)@.remove(*key));
                    assert(v == s[i as int].1);
                }
                Some(v)
            },
            None => {
                proof {
                    assert(old(self)@.remove(*key) =~= old(self)@);
                }
                None
            },
        }
    }

    /// Takes out every entry.
    pub fn take_all(&mut self) -> (r: Vec<(K, V)>)
        requires
            old(self).wf(),
        ensures
            final(self).wf(),
            final(self)@ == Map::<K, V>::empty(),
            entry_keys(r@).no_duplicates(),
            entries_to_map(r@) == old(self)@,
    {
        let mut r: Vec<(K, V)> = Vec::new();
        std::mem::swap(&mut r, &mut self.entries);
        assert(entry_keys(self.entries@) =~= Seq::<K>::empty());
        r
    }
}

/// A set of keys kept in a vector without repetitions.
pub struct KeySet<K> {
    items: Vec<K>,
}

impl<K> View for KeySet<K> {
    type V = Set<K>;

    closed spec fn view(&self) -> Set<K> {
        self.items@.to_set()
    }
}

impl<K: KeyEq> KeySet<K> {
    pub closed spec fn wf(&self) -> bool {
        self.items@.no_duplicates()
    }

    /// The keys, in the order they came in.
    pub closed spec fn items(&self) -> Seq<K> {
        self.items@
    }

    pub fn new() -> (r: Self)
        ensures
            r.wf(),
            r@ == Set::<K>::empty(),
            r.items() == Seq::<K>::empty(),
    {
        let r = KeySet { items: Vec::new() };
        assert(r.items@.to_set() =~= Set::<K>::empty());
        r
    }

    pub fn contains(&self, key: &K) -> (r: bool)
        ensures
            r == self@.contains(*key),
    {
        let mut i: usize = 0;
        while i < self.items.len()
            invariant
                i <= self.items@.len(),
                forall|j: int| 0 <= j < i ==> self.items@[j] != *key,
            decreases self.items@.len() - i,
        {
            if self.items[i].key_eq(key) {
                assert(self.items@.contains(*key));
                return true;
            }
            i = i + 1;
        }
        proof {
            if self.items@.contains(*key) {
                let j = choose|j: int| 0 <= j < self.items@.len() && self.items@[j] == *key;
            }
        }
        false
    }

    pub fn is_empty(&self) -> (r: bool)
        ensures
            r == (self@ == Set::<K>::empty()),
    {
        if self.items.len() == 0 {
            assert(self@ =~= Set::<K>::empty());
            true
        } else {
            assert(self@.contains(self.items@[0]));
            false
        }
    }

    /// Adds `key` (at the end) unless it is there.
    pub fn insert(&mut self, key: K)
        requires
            old(self).wf(),
        ensures
            final(self).wf(),
            final(self)@ == old(self)@.insert(key),
            old(self)@.contains(key) ==> final(self).items() == old(self).items(),
            !old(self)@.contains(key) ==> final(self).items() == old(self).items().push(key),
    {
        if !self.contains(&key) {
            self.items.push(key);
            proof {
                assert forall|k: K| #[trigger] self.items@.contains(k) == (old(self).items@.contains(k) || k == key) by {
                    if self.items@.contains(k) && k != key {
                        let j = choose|j: int| 0 <= j < self.items@.len() && self.items@[j] == k;
                        assert(old(self).items@[j] == k);
                    }
                    if old(self).items@.contains(k) {
                        let j = choose|j: int| 0 <= j < old(self).items@.len() && old(self).items@[j] == k;
                        assert(self.items@[j] == k);
                    }
                    assert(self.items@[self.items@.len() - 1] == key);
                }
                assert forall|a: int, b: int| 0 <= a < b < self.items@.len() implies self.items@[a] != self.items@[b] by {
                    if b == self.items@.len() - 1 {
                        assert(old(self).items@[a] == self.items@[a]);
                    }
                }
                assert(self.items@.to_set() =~= old(self).items@.to_set().insert(key));
            }
        } else {
            assert(old(self)@.insert(key) =~= old(self)@);
        }
    }

    /// Drops `key` if it is there.
    pub fn remove(&mut self, key: &K)
        requires
            old(self).wf(),
        ensures
            final(self).wf(),
            final(self)@ == old(self)@.remove(*key),
    {
        let mut i: usize = 0;
        while i < self.items.len()
            invariant
                i <= self.items@.len(),
                self.items@ == old(self).items@,
                self.items@.no_duplicates(),
                forall|j: int| 0 <= j < i ==> self.items@[j] != *key,
            decreases self.items@.len() - i,
        {
            if self.items[i].key_eq(key) {
                let ghost s = self.items@;
                self.items.remove(i);
                proof {
                    let t = self.items@;
                    assert(t == s.remove(i as int));
                    assert forall|a: int, b: int| 0 <= a < b < t.len() implies t[a] != t[b] by {
                        let a2 = if a < i { a } else { a + 1 };
                        let b2 = if b < i { b } else { b + 1 };
                        assert(t[a] == s[a2]);
                        assert(t[b] == s[b2]);
                    }
                    assert forall|k: K| #[trigger] t.to_set().contains(k) == s.to_set().remove(*key).contains(k) by {
                        if t.contains(k) {
                            let j = choose|j: int| 0 <= j < t.len() && t[j] == k;
                            let j2 = if j < i { j } else { j + 1 };
                            assert(s[j2] == k);
                            assert(j2 != i);
                        }
                        if s.contains(k) && k != *key {
                            let j = choose|j: int| 0 <= j < s.len() && s[j] == k;
                            let j2 = if j < i { j } else { j - 1 };
                            assert(t[j2] == k);
                        }
                    }
                    assert(t.to_set() =~= s.to_set().remove(*key));
                }
                return;
            }
            i = i + 1;
        }
        proof {
            assert forall|k: K| #[trigger] self.items@.to_set().contains(k) == old(self)@.remove(*key).contains(k) by {
                if self.items@.contains(k) && k == *key {
                    let j = choose|j: int| 0 <= j < self.items@.len() && self.items@[j] == k;
                }
            }
            assert(self.items@.to_set() =~= old(self)@.remove(*key));
        }
    }

    /// The set is the set of the stored keys.
    pub proof fn lemma_view_is_items(&self)
        ensures
            self@ == self.items().to_set(),
    {
    }

    /// Takes out every key, in the order they came in.
    pub fn take_all(&mut self) -> (r: Vec<K>)
        requires
            old(self).wf(),
        ensures
            final(self).wf(),
            final(self)@ == Set::<K>::empty(),
            r@ == old(self).items(),
            r@.no_duplicates(),
            r@.to_set() == old(self)@,
    {
        let mut r: Vec<K> = Vec::new();
        std::mem::swap(&mut r, &mut self.items);
        assert(self.items@.to_set() =~= Set::<K>::empty());
        r
    }

    /// The keys, in the order they came in.
    pub fn as_slice(&self) -> (r: &[K])
        ensures
            r@ == self.items(),
    {
        self.items.as_slice()
    }
}

} // verus!
