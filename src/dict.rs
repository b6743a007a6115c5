//! An ordered map from `u64` keys to items that carry their own key, with
//! "greatest key at or below K" lookup and range removal.
use vstd::prelude::*;

verus! {

/// An item that a `Dict` can hold: it carries its own key.
pub trait DictItem: Sized {
    spec fn spec_key(&self) -> u64;

    fn key(&self) -> (k: u64)
        ensures
            k == self.spec_key(),
    ;
}

/// No two items of `s` have the same key.
pub open spec fn keys_unique<V: DictItem>(s: Seq<V>) -> bool {
    forall|i: int, j: int|
        0 <= i < s.len() && 0 <= j < s.len() && i != j ==> #[trigger] s[i].spec_key()
            != #[trigger] s[j].spec_key()
}

/// The map from key to item that a sequence of items describes.
pub open spec fn map_of<V: DictItem>(s: Seq<V>) -> Map<u64, V>
    decreases s.len(),
{
    if s.len() == 0 {
        Map::empty()
    } else {
        map_of(s.drop_last()).insert(s.last().spec_key(), s.last())
    }
}

/// `k` is the greatest key of `m` that is at most `key`.
pub open spec fn is_floor<V>(m: Map<u64, V>, key: u64, k: u64) -> bool {
    &&& m.contains_key(k)
    &&& k <= key
    &&& forall|k2: u64| #[trigger] m.contains_key(k2) && k2 <= key ==> k2 <= k
}

/// Some key of `m` is at most `key`.
pub open spec fn has_floor<V>(m: Map<u64, V>, key: u64) -> bool {
    exists|k2: u64| #[trigger] m.contains_key(k2) && k2 <= key
}

/// The greatest key of `m` at most `key`, if there is one.
pub open spec fn floor_key<V>(m: Map<u64, V>, key: u64) -> Option<u64> {
    if exists|k: u64| is_floor(m, key, k) {
        Some(choose|k: u64| is_floor(m, key, k))
    } else {
        None
    }
}

/// The floor of a map is unique, so any witness is the one `floor_key` picks.
pub proof fn lemma_floor_key<V>(m: Map<u64, V>, key: u64, k: u64)
    requires
        is_floor(m, key, k),
    ensures
        floor_key(m, key) == Some(k),
{
    let c = choose|c: u64| is_floor(m, key, c);
    assert(c <= k && k <= c);
}

/// A map with no key at or below `key` has no floor there.
pub proof fn lemma_no_floor<V>(m: Map<u64, V>, key: u64)
    requires
        !has_floor(m, key),
    ensures
        floor_key(m, key) == None::<u64>,
{
    if exists|k: u64| is_floor(m, key, k) {
        let c = choose|c: u64| is_floor(m, key, c);
        assert(m.contains_key(c) && c <= key);
    }
}

/// The map of a duplicate-free sequence holds each item under its key, and
/// nothing else.
pub proof fn lemma_map_of<V: DictItem>(s: Seq<V>)
    requires
        keys_unique(s),
    ensures
        forall|i: int|
            0 <= i < s.len() ==> map_of(s).contains_key(#[trigger] s[i].spec_key()) && map_of(
                s,
            )[s[i].spec_key()] == s[i],
        forall|k: u64| #[trigger]
            map_of(s).contains_key(k) ==> exists|i: int| 0 <= i < s.len() && s[i].spec_key() == k,
        map_of(s).dom().finite(),
    decreases s.len(),
{
    if s.len() > 0 {
        let t = s.drop_last();
        assert forall|i: int, j: int|
            0 <= i < t.len() && 0 <= j < t.len() && i != j implies #[trigger] t[i].spec_key()
            != #[trigger] t[j].spec_key() by {
            assert(t[i] == s[i] && t[j] == s[j]);
        }
        lemma_map_of(t);
        assert forall|i: int| 0 <= i < s.len() implies map_of(s).contains_key(
            #[trigger] s[i].spec_key(),
        ) && map_of(s)[s[i].spec_key()] == s[i] by {
            if i < s.len() - 1 {
                assert(t[i] == s[i]);
                assert(s[i].spec_key() != s[s.len() - 1].spec_key());
            }
        }
        assert forall|k: u64| #[trigger]
            map_of(s).contains_key(k) implies exists|i: int|
            0 <= i < s.len() && s[i].spec_key() == k by {
            if k == s.last().spec_key() {
                assert(s[s.len() - 1].spec_key() == k);
            } else {
                let i = choose|i: int| 0 <= i < t.len() && t[i].spec_key() == k;
                assert(s[i] == t[i]);
            }
        }
    }
}

/// Removing one item of a duplicate-free sequence removes its key from the map.
proof fn lemma_map_of_remove<V: DictItem>(s: Seq<V>, i: int)
    requires
        keys_unique(s),
        0 <= i < s.len(),
    ensures
        keys_unique(s.remove(i)),
        map_of(s.remove(i)) == map_of(s).remove(s[i].spec_key()),
{
    let r = s.remove(i);
    assert forall|a: int, b: int|
        0 <= a < r.len() && 0 <= b < r.len() && a != b implies #[trigger] r[a].spec_key()
        != #[trigger] r[b].spec_key() by {
        let a2 = if a < i { a } else { a + 1 };
        let b2 = if b < i { b } else { b + 1 };
        assert(r[a] == s[a2] && r[b] == s[b2]);
    }
    lemma_map_of(s);
    lemma_map_of(r);
    let k = s[i].spec_key();
    assert forall|k2: u64| #[trigger] map_of(r).contains_key(k2) <==> map_of(s).remove(k).contains_key(k2) by {
        if map_of(r).contains_key(k2) {
            let a = choose|a: int| 0 <= a < r.len() && r[a].spec_key() == k2;
            let a2 = if a < i { a } else { a + 1 };
            assert(r[a] == s[a2]);
        }
        if map_of(s).remove(k).contains_key(k2) {
            let a = choose|a: int| 0 <= a < s.len() && s[a].spec_key() == k2;
            assert(a != i);
            let a2 = if a < i { a } else { a - 1 };
            assert(r[a2] == s[a]);
        }
    }
    assert forall|k2: u64| #[trigger] map_of(r).contains_key(k2) implies map_of(r)[k2] == map_of(s).remove(k)[k2] by {
        let a = choose|a: int| 0 <= a < r.len() && r[a].spec_key() == k2;
        let a2 = if a < i { a } else { a + 1 };
        assert(r[a] == s[a2]);
    }
    assert(map_of(r) =~= map_of(s).remove(k));
}

/// Replacing an item by one with the same key replaces it in the map.
proof fn lemma_map_of_update<V: DictItem>(s: Seq<V>, i: int, v: V)
    requires
        keys_unique(s),
        0 <= i < s.len(),
        v.spec_key() == s[i].spec_key(),
    ensures
        keys_unique(s.update(i, v)),
        map_of(s.update(i, v)) == map_of(s).insert(v.spec_key(), v),
{
    let r = s.update(i, v);
    assert forall|a: int, b: int|
        0 <= a < r.len() && 0 <= b < r.len() && a != b implies #[trigger] r[a].spec_key()
        != #[trigger] r[b].spec_key() by {
        assert(r[a].spec_key() == s[a].spec_key() && r[b].spec_key() == s[b].spec_key());
    }
    lemma_map_of(s);
    lemma_map_of(r);
    assert forall|k2: u64| #[trigger] map_of(r).contains_key(k2) <==> map_of(s).insert(v.spec_key(), v).contains_key(k2) by {
        if map_of(r).contains_key(k2) {
            let a = choose|a: int| 0 <= a < r.len() && r[a].spec_key() == k2;
            assert(r[a].spec_key() == s[a].spec_key());
        }
        if map_of(s).contains_key(k2) {
            let a = choose|a: int| 0 <= a < s.len() && s[a].spec_key() == k2;
            assert(r[a].spec_key() == s[a].spec_key());
        }
    }
    assert forall|k2: u64| #[trigger] map_of(r).contains_key(k2) implies map_of(r)[k2] == map_of(s).insert(v.spec_key(), v)[k2] by {
        let a = choose|a: int| 0 <= a < r.len() && r[a].spec_key() == k2;
        assert(r[a].spec_key() == s[a].spec_key());
    }
    assert(map_of(r) =~= map_of(s).insert(v.spec_key(), v));
}

/// Appending an item with a new key adds it to the map.
proof fn lemma_map_of_push<V: DictItem>(s: Seq<V>, v: V)
    requires
        keys_unique(s),
        !map_of(s).contains_key(v.spec_key()),
    ensures
        keys_unique(s.push(v)),
        map_of(s.push(v)) == map_of(s).insert(v.spec_key(), v),
{
    let r = s.push(v);
    lemma_map_of(s);
    assert forall|a: int, b: int|
        0 <= a < r.len() && 0 <= b < r.len() && a != b implies #[trigger] r[a].spec_key()
        != #[trigger] r[b].spec_key() by {
        if a < s.len() {
            assert(r[a] == s[a]);
        }
        if b < s.len() {
            assert(r[b] == s[b]);
        }
    }
    assert(r.drop_last() =~= s);
}

/// Items keyed by `u64`, at most one per key.
pub struct Dict<V> {
    items: Vec<V>,
}

impl<V: DictItem> View for Dict<V> {
    type V = Map<u64, V>;

    closed spec fn view(&self) -> Map<u64, V> {
        map_of(self.items@)
    }
}

impl<V: DictItem> Dict<V> {
    /// The dictionary is well formed: its keys are unique.
    pub closed spec fn wf(&self) -> bool {
        keys_unique(self.items@)
    }

    /// Each item is stored under its own key.
    pub proof fn lemma_keys(&self)
        requires
            self.wf(),
        ensures
            forall|k: u64| #[trigger] self@.contains_key(k) ==> self@[k].spec_key() == k,
            self@.dom().finite(),
    {
        lemma_map_of(self.items@);
        assert forall|k: u64| #[trigger] self@.contains_key(k) implies self@[k].spec_key() == k by {
            let i = choose|i: int| 0 <= i < self.items@.len() && self.items@[i].spec_key() == k;
        }
    }

    pub fn empty() -> (d: Dict<V>)
        ensures
            d.wf(),
            d@ == Map::<u64, V>::empty(),
    {
        Dict { items: Vec::new() }
    }

    /// Position of the item with this key.
    fn index_of(&self, key: u64) -> (r: Option<usize>)
        requires
            self.wf(),
        ensures
            match r {
                Some(i) => i < self.items@.len() && self.items@[i as int].spec_key() == key,
                None => !self@.contains_key(key),
            },
    {
        let mut i: usize = 0;
        while i < self.items.len()
            invariant
                i <= self.items@.len(),
                forall|j: int| 0 <= j < i ==> #[trigger] self.items@[j].spec_key() != key,
            decreases self.items@.len() - i,
        {
            if self.items[i].key() == key {
                return Some(i);
            }
            i = i + 1;
        }
        proof {
            lemma_map_of(self.items@);
        }
        None
    }

    /// The key of the greatest item whose key is at most `key`.
    pub fn find(&self, key: u64) -> (r: Option<u64>)
        requires
            self.wf(),
        ensures
            r == floor_key(self@, key),
    {
        match self.find_const(key) {
            Some(v) => Some(v.key()),
            None => None,
        }
    }

    /// The greatest item whose key is at most `key`.
    pub fn find_const(&self, key: u64) -> (r: Option<&V>)
        requires
            self.wf(),
        ensures
            match r {
                Some(v) => {
                    &&& is_floor(self@, key, v.spec_key())
                    &&& self@[v.spec_key()] == *v
                    &&& floor_key(self@, key) == Some(v.spec_key())
                },
                None => !has_floor(self@, key) && floor_key(self@, key) == None::<u64>,
            },
    {
        let mut best: Option<usize> = None;
        let mut i: usize = 0;
        while i < self.items.len()
            invariant
                i <= self.items@.len(),
                match best {
                    Some(b) => {
                        &&& b < i
                        &&& self.items@[b as int].spec_key() <= key
                        &&& forall|j: int|
                            0 <= j < i && #[trigger] self.items@[j].spec_key() <= key
                                ==> self.items@[j].spec_key() <= self.items@[b as int].spec_key()
                    },
                    None => forall|j: int| 0 <= j < i ==> #[trigger] self.items@[j].spec_key() > key,
                },
            decreases self.items@.len() - i,
        {
            let k = self.items[i].key();
            if k <= key {
                match best {
                    Some(b) => {
                        if self.items[b].key() < k {
                            best = Some(i);
                        }
                    },
                    None => {
                        best = Some(i);
                    },
                }
            }
            i = i + 1;
        }
        proof {
            lemma_map_of(self.items@);
        }
        match best {
            Some(b) => {
                let v = &self.items[b];
                proof {
                    let bk = self.items@[b as int].spec_key();
                    assert forall|k2: u64| #[trigger] self@.contains_key(k2) && k2 <= key implies k2 <= bk by {
                        let j = choose|j: int| 0 <= j < self.items@.len() && self.items@[j].spec_key() == k2;
                    }
                    lemma_floor_key(self@, key, bk);
                }
                Some(v)
            },
            None => {
                proof {
                    assert forall|k2: u64| #[trigger] self@.contains_key(k2) implies k2 > key by {
                        let j = choose|j: int| 0 <= j < self.items@.len() && self.items@[j].spec_key() == k2;
                    }
                    lemma_no_floor(self@, key);
                }
                None
            },
        }
    }

    /// The item with exactly this key.
    pub fn get(&self, key: u64) -> (r: Option<&V>)
        requires
            self.wf(),
        ensures
            match r {
                Some(v) => self@.contains_key(key) && self@[key] == *v,
                None => !self@.contains_key(key),
            },
    {
        match self.index_of(key) {
            Some(i) => {
                proof {
                    lemma_map_of(self.items@);
                }
                Some(&self.items[i])
            },
            None => None,
        }
    }

    /// Adds `item`, replacing the item with the same key if there is one.
    pub fn insert(&mut self, item: V)
        requires
            old(self).wf(),
        ensures
            final(self).wf(),
            final(self)@ == old(self)@.insert(item.spec_key(), item),
    {
        let k = item.key();
        match self.index_of(k) {
            Some(i) => {
                proof {
                    lemma_map_of_update(self.items@, i as int, item);
                }
                self.items.set(i, item);
            },
            None => {
                proof {
                    lemma_map_of_push(self.items@, item);
                }
                self.items.push(item);
            },
        }
    }

    /// Removes the item with this key, if any.
    pub fn remove(&mut self, key: u64)
        requires
            old(self).wf(),
        ensures
            final(self).wf(),
            final(self)@ == old(self)@.remove(key),
    {
        match self.index_of(key) {
            Some(i) => {
                proof {
                    lemma_map_of_remove(self.items@, i as int);
                }
                self.items.remove(i);
            },
            None => {
                assert(self@.remove(key) =~= self@);
            },
        }
    }

    /// Removes every item whose key lies strictly between `start` and `end`.
    pub fn remove_range_exclusive(&mut self, start: u64, end: u64)
        requires
            old(self).wf(),
        ensures
            final(self).wf(),
            final(self)@ == old(self)@.remove_keys(Set::new(|k: u64| start < k < end)),
    {
        let ghost range = Set::new(|k: u64| start < k < end);
        let ghost orig = self@;
        let mut i: usize = 0;
        while i < self.items.len()
            invariant
                i <= self.items@.len(),
                self.wf(),
                self@.remove_keys(range) == orig.remove_keys(range),
                range == Set::new(|k: u64| start < k < end),
                forall|j: int| 0 <= j < i ==> !range.contains(#[trigger] self.items@[j].spec_key()),
            decreases self.items@.len() - i,
        {
            let k = self.items[i].key();
            if start < k && k < end {
                proof {
                    lemma_map_of_remove(self.items@, i as int);
                    let m = map_of(self.items@);
                    assert(m.remove(k).remove_keys(range) =~= m.remove_keys(range));
                }
                self.items.remove(i);
            } else {
                i = i + 1;
            }
        }
        proof {
            lemma_map_of(self.items@);
            assert(self@.remove_keys(range) =~= self@);
        }
    }

    /// Takes out the item with this key, if there is one.
    pub fn take(&mut self, key: u64) -> (r: Option<V>)
        requires
            old(self).wf(),
        ensures
            final(self).wf(),
            final(self)@ == old(self)@.remove(key),
            match r {
                Some(v) => old(self)@.contains_key(key) && old(self)@[key] == v,
                None => !old(self)@.contains_key(key),
            },
    {
        match self.index_of(key) {
            Some(i) => {
                proof {
                    lemma_map_of(self.items@);
                    lemma_map_of_remove(self.items@, i as int);
                }
                let v = self.items.remove(i);
                Some(v)
            },
            None => {
                assert(self@.remove(key) =~= self@);
                None
            },
        }
    }

    /// Takes out some item, if the dictionary holds any.
    pub fn pop(&mut self) -> (r: Option<V>)
        requires
            old(self).wf(),
        ensures
            final(self).wf(),
            match r {
                Some(v) => {
                    &&& old(self)@.contains_key(v.spec_key())
                    &&& old(self)@[v.spec_key()] == v
                    &&& final(self)@ == old(self)@.remove(v.spec_key())
                },
                None => old(self)@ == Map::<u64, V>::empty() && final(self)@ == old(self)@,
            },
    {
        if self.items.len() == 0 {
            return None;
        }
        proof {
            lemma_map_of(self.items@);
            lemma_map_of_remove(self.items@, self.items@.len() - 1);
        }
        let i = self.items.len() - 1;
        let v = self.items.remove(i);
        Some(v)
    }

    /// The items, in an unspecified order.
    pub fn iter(&self) -> (r: &Vec<V>)
        requires
            self.wf(),
        ensures
            keys_unique(r@),
            map_of(r@) == self@,
    {
        &self.items
    }
}

} // verus!
