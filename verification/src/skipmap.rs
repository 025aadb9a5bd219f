//! The key/value map layered over the ordered-set core. An entry pairs a
//! key with an optional value and orders by key alone, so a valueless probe
//! compares equal to the stored entry with the same key; `put` keeps at
//! most one entry per key by replacing through the set core's
//! insert-or-replace.

use crate::order::{keys_of, lemma_num_le_split, num_le, KeyOrd};
use crate::skiplist::SkipList;
use vstd::pervasive::unreached;
use vstd::prelude::*;

verus! {

/// One stored pairing of a key with an optional value. Ordering and
/// equality go by the key alone.
pub struct Entry<V> {
    pub key: i64,
    pub value: Option<V>,
}

impl<V> KeyOrd for Entry<V> {
    open spec fn key_spec(&self) -> int {
        self.key as int
    }

    fn key_le(&self, other: &Self) -> (r: bool) {
        self.key <= other.key
    }
}

/// The key/value map: a skip list of entries, at most one per key.
pub struct SkipMap<V> {
    list: SkipList<Entry<V>>,
}

impl<V> SkipMap<V> {
    /// The stored entries, in ascending key order.
    pub closed spec fn entries(self) -> Seq<Entry<V>> {
        self.list@
    }

    /// The underlying ordered-set core, for read-only navigation.
    pub closed spec fn list_spec(self) -> SkipList<Entry<V>> {
        self.list
    }

    /// Well-formedness: the list invariant, every stored entry carries a
    /// value, and no two stored entries share a key.
    pub closed spec fn wf(self) -> bool {
        &&& self.list.wf()
        &&& (forall|j: int|
            0 <= j < self.entries().len() ==> (#[trigger] self.entries()[j]).value is Some)
        &&& (forall|j1: int, j2: int|
            0 <= j1 < j2 < self.entries().len() ==> (#[trigger] self.entries()[j1]).key != (
            #[trigger] self.entries()[j2]).key)
    }

    /// The mathematical map this container stands for.
    pub closed spec fn map_view(self) -> Map<int, V> {
        Map::new(
            |k: int|
                exists|j: int|
                    0 <= j < self.entries().len() && (#[trigger] self.entries()[j]).key as int
                        == k,
            |k: int|
                {
                    let j = choose|j: int|
                        0 <= j < self.entries().len() && (#[trigger] self.entries()[j]).key as int
                            == k;
                    self.entries()[j].value->0
                },
        )
    }

    /// The entry at position `j` is what the map holds for its key.
    proof fn lemma_mv_at(self, j: int)
        requires
            self.wf(),
            0 <= j < self.entries().len(),
        ensures
            self.map_view().dom().contains(self.entries()[j].key as int),
            self.map_view()[self.entries()[j].key as int] == self.entries()[j].value->0,
    {
        let k = self.entries()[j].key as int;
        assert(0 <= j < self.entries().len() && self.entries()[j].key as int == k);
        let w = choose|w: int|
            0 <= w < self.entries().len() && (#[trigger] self.entries()[w]).key as int == k;
        if w < j {
            assert(self.entries()[w].key != self.entries()[j].key);
            assert(false);
        }
        if j < w {
            assert(self.entries()[j].key != self.entries()[w].key);
            assert(false);
        }
    }

    /// A key no stored entry carries is outside the map.
    proof fn lemma_mv_absent(self, k: int)
        requires
            forall|j: int|
                0 <= j < self.entries().len() ==> (#[trigger] self.entries()[j]).key as int != k,
        ensures
            !self.map_view().dom().contains(k),
    {
    }

    /// Creates an empty map.
    pub fn new() -> (r: SkipMap<V>)
        ensures
            r.wf(),
            r.map_view() == Map::<int, V>::empty(),
    {
        let r = SkipMap { list: SkipList::new() };
        proof {
            assert(r.map_view() =~= Map::<int, V>::empty());
        }
        r
    }

    /// Stores `value` under `key`; if the key was already present, its old
    /// value is replaced and handed back.
    pub fn put(&mut self, key: i64, value: V) -> (r: Option<V>)
        requires
            old(self).wf(),
        ensures
            final(self).wf(),
            final(self).map_view() == old(self).map_view().insert(key as int, value),
            (r is Some) == old(self).map_view().dom().contains(key as int),
            (r matches Some(v) ==> old(self).map_view().dom().contains(key as int) && v == old(
                self,
            ).map_view()[key as int]),
    {
        let ghost s0 = *self;
        let ghost k = key as int;
        let ghost ks = keys_of(s0.entries());
        let ghost p = num_le(ks, k);
        let ghost ne = Entry { key, value: Some(value) };
        proof {
            s0.list.lemma_view_sorted();
            lemma_num_le_split(ks, k);
            assert forall|j: int| 0 <= j < s0.entries().len() implies ks[j] == (
            #[trigger] s0.entries()[j]).key as int by {}
        }
        let r = self.list.insert_or_replace(Entry { key, value: Some(value) });
        proof {
            let m = *self;
            let hit = p >= 1 && ks[p - 1] == k;
            if hit {
                assert(m.entries() == s0.entries().update(p - 1, ne));
                assert forall|j: int| 0 <= j < m.entries().len() implies (
                #[trigger] m.entries()[j]).key == s0.entries()[j].key by {
                    if j == p - 1 {
                        assert(s0.entries()[p - 1].key as int == k);
                    }
                }
                assert(m.wf());
                assert forall|kk: int|
                    #[trigger] m.map_view().dom().contains(kk) == s0.map_view().insert(
                        k,
                        value,
                    ).dom().contains(kk) by {
                    if m.map_view().dom().contains(kk) {
                        let w = choose|w: int|
                            0 <= w < m.entries().len() && (#[trigger] m.entries()[w]).key as int
                                == kk;
                        assert(s0.entries()[w].key as int == kk);
                    }
                    if s0.map_view().dom().contains(kk) {
                        let w = choose|w: int|
                            0 <= w < s0.entries().len() && (#[trigger] s0.entries()[w]).key as int
                                == kk;
                        assert(m.entries()[w].key as int == kk);
                    }
                    if kk == k {
                        assert(m.entries()[p - 1].key as int == kk);
                    }
                }
                assert forall|kk: int|
                    m.map_view().dom().contains(kk) implies #[trigger] m.map_view()[kk] == (if kk
                    == k {
                    value
                } else {
                    s0.map_view()[kk]
                }) by {
                    if kk == k {
                        m.lemma_mv_at(p - 1);
                    } else {
                        let w = choose|w: int|
                            0 <= w < m.entries().len() && (#[trigger] m.entries()[w]).key as int
                                == kk;
                        assert(w != p - 1);
                        m.lemma_mv_at(w);
                        s0.lemma_mv_at(w);
                    }
                }
                assert(m.map_view() =~= s0.map_view().insert(k, value));
                assert(r == Some(s0.entries()[p - 1]));
                s0.lemma_mv_at(p - 1);
            } else {
                assert(m.entries() == s0.entries().insert(p, ne));
                s0.entries().insert_ensures(p, ne);
                assert forall|j: int| 0 <= j < s0.entries().len() implies (
                #[trigger] s0.entries()[j]).key as int != k by {
                    if j < p {
                        assert(ks[j] <= k);
                        if ks[j] == k {
                            assert(p >= 1 && ks[p - 1] == k);
                        }
                    } else {
                        assert(ks[j] > k);
                    }
                }
                assert forall|j1: int, j2: int|
                    0 <= j1 < j2 < m.entries().len() implies (#[trigger] m.entries()[j1]).key != (
                #[trigger] m.entries()[j2]).key by {
                    let w1 = if j1 < p {
                        j1
                    } else {
                        j1 - 1
                    };
                    let w2 = if j2 < p {
                        j2
                    } else {
                        j2 - 1
                    };
                    if j1 == p {
                        assert(m.entries()[j2] == s0.entries()[w2]);
                    } else if j2 == p {
                        assert(m.entries()[j1] == s0.entries()[w1]);
                    } else {
                        assert(m.entries()[j1] == s0.entries()[w1]);
                        assert(m.entries()[j2] == s0.entries()[w2]);
                    }
                }
                assert forall|j: int| 0 <= j < m.entries().len() implies (
                #[trigger] m.entries()[j]).value is Some by {
                    if j != p {
                        let w = if j < p {
                            j
                        } else {
                            j - 1
                        };
                        assert(m.entries()[j] == s0.entries()[w]);
                    }
                }
                assert(m.wf());
                assert forall|kk: int|
                    #[trigger] m.map_view().dom().contains(kk) == s0.map_view().insert(
                        k,
                        value,
                    ).dom().contains(kk) by {
                    if m.map_view().dom().contains(kk) && kk != k {
                        let w = choose|w: int|
                            0 <= w < m.entries().len() && (#[trigger] m.entries()[w]).key as int
                                == kk;
                        let w0 = if w < p {
                            w
                        } else {
                            w - 1
                        };
                        assert(w != p);
                        assert(s0.entries()[w0].key as int == kk);
                    }
                    if s0.map_view().dom().contains(kk) {
                        let w = choose|w: int|
                            0 <= w < s0.entries().len() && (#[trigger] s0.entries()[w]).key as int
                                == kk;
                        let w2 = if w < p {
                            w
                        } else {
                            w + 1
                        };
                        assert(m.entries()[w2].key as int == kk);
                    }
                    if kk == k {
                        assert(m.entries()[p].key as int == kk);
                    }
                }
                assert forall|kk: int|
                    m.map_view().dom().contains(kk) implies #[trigger] m.map_view()[kk] == (if kk
                    == k {
                    value
                } else {
                    s0.map_view()[kk]
                }) by {
                    if kk == k {
                        m.lemma_mv_at(p);
                    } else {
                        let w = choose|w: int|
                            0 <= w < m.entries().len() && (#[trigger] m.entries()[w]).key as int
                                == kk;
                        let w0 = if w < p {
                            w
                        } else {
                            w - 1
                        };
                        assert(w != p);
                        assert(m.entries()[w] == s0.entries()[w0]);
                        m.lemma_mv_at(w);
                        s0.lemma_mv_at(w0);
                    }
                }
                assert(m.map_view() =~= s0.map_view().insert(k, value));
                s0.lemma_mv_absent(k);
            }
        }
        match r {
            Some(e) => match e.value {
                Some(v) => Some(v),
                None => unreached(),
            },
            None => None,
        }
    }

    /// Reads the value stored under `key`, if any.
    pub fn get(&self, key: i64) -> (r: Option<&V>)
        requires
            self.wf(),
        ensures
            (r is Some) == self.map_view().dom().contains(key as int),
            (r matches Some(v) ==> self.map_view().dom().contains(key as int) && *v
                == self.map_view()[key as int]),
    {
        let ghost k = key as int;
        let ghost ks = keys_of(self.entries());
        proof {
            assert forall|j: int| 0 <= j < self.entries().len() implies ks[j] == (
            #[trigger] self.entries()[j]).key as int by {}
        }
        let probe = Entry { key, value: None };
        match self.list.find(&probe) {
            Some(e) => {
                proof {
                    let p = num_le(ks, k);
                    assert(*e == self.entries()[p - 1]);
                    self.lemma_mv_at(p - 1);
                }
                match &e.value {
                    Some(v) => Some(v),
                    None => unreached(),
                }
            },
            None => {
                proof {
                    assert forall|j: int| 0 <= j < self.entries().len() implies (
                    #[trigger] self.entries()[j]).key as int != k by {
                        assert(ks[j] != k);
                    }
                    self.lemma_mv_absent(k);
                }
                None
            },
        }
    }

    /// Deletes the entry stored under `key` and returns its value, if any;
    /// an absent key leaves the map untouched.
    pub fn del(&mut self, key: i64) -> (r: Option<V>)
        requires
            old(self).wf(),
        ensures
            final(self).wf(),
            final(self).map_view() == old(self).map_view().remove(key as int),
            (r is Some) == old(self).map_view().dom().contains(key as int),
            (r matches Some(v) ==> old(self).map_view().dom().contains(key as int) && v == old(
                self,
            ).map_view()[key as int]),
    {
        let ghost s0 = *self;
        let ghost k = key as int;
        let ghost ks = keys_of(s0.entries());
        let ghost p = num_le(ks, k);
        proof {
            assert forall|j: int| 0 <= j < s0.entries().len() implies ks[j] == (
            #[trigger] s0.entries()[j]).key as int by {}
        }
        let probe = Entry { key, value: None };
        match self.list.delete(&probe) {
            Some(e) => {
                proof {
                    let m = *self;
                    assert(e == s0.entries()[p - 1]);
                    assert(m.entries() == s0.entries().remove(p - 1));
                    s0.entries().remove_ensures(p - 1);
                    assert forall|j: int| 0 <= j < m.entries().len() implies #[trigger] m.entries()[j]
                        == s0.entries()[if j < p - 1 {
                        j
                    } else {
                        j + 1
                    }] by {}
                    assert(m.wf());
                    assert forall|kk: int|
                        #[trigger] m.map_view().dom().contains(kk) == s0.map_view().remove(
                            k,
                        ).dom().contains(kk) by {
                        if m.map_view().dom().contains(kk) {
                            let w = choose|w: int|
                                0 <= w < m.entries().len() && (#[trigger] m.entries()[w]).key as int
                                    == kk;
                            let w0 = if w < p - 1 {
                                w
                            } else {
                                w + 1
                            };
                            assert(s0.entries()[w0].key as int == kk);
                            if kk == k {
                                if w0 < p - 1 {
                                    assert(s0.entries()[w0].key != s0.entries()[p - 1].key);
                                } else {
                                    assert(s0.entries()[p - 1].key != s0.entries()[w0].key);
                                }
                                assert(false);
                            }
                        }
                        if s0.map_view().dom().contains(kk) && kk != k {
                            let w = choose|w: int|
                                0 <= w < s0.entries().len() && (#[trigger] s0.entries()[w]).key
                                    as int == kk;
                            assert(w != p - 1);
                            let w2 = if w < p - 1 {
                                w
                            } else {
                                w - 1
                            };
                            assert(m.entries()[w2].key as int == kk);
                        }
                    }
                    assert forall|kk: int|
                        m.map_view().dom().contains(kk) implies #[trigger] m.map_view()[kk]
                        == s0.map_view()[kk] by {
                        let w = choose|w: int|
                            0 <= w < m.entries().len() && (#[trigger] m.entries()[w]).key as int
                                == kk;
                        let w0 = if w < p - 1 {
                            w
                        } else {
                            w + 1
                        };
                        assert(m.entries()[w] == s0.entries()[w0]);
                        m.lemma_mv_at(w);
                        s0.lemma_mv_at(w0);
                    }
                    assert(m.map_view() =~= s0.map_view().remove(k));
                    s0.lemma_mv_at(p - 1);
                }
                match e.value {
                    Some(v) => Some(v),
                    None => unreached(),
                }
            },
            None => {
                proof {
                    assert forall|j: int| 0 <= j < s0.entries().len() implies (
                    #[trigger] s0.entries()[j]).key as int != k by {
                        assert(ks[j] != k);
                    }
                    s0.lemma_mv_absent(k);
                    assert(self.map_view() =~= s0.map_view().remove(k));
                }
                None
            },
        }
    }

    /// Finds the arena slot of the entry stored under `key`, for read-only
    /// navigation through the underlying list.
    pub fn find(&self, key: i64) -> (r: Option<usize>)
        requires
            self.wf(),
        ensures
            (r is Some) == self.map_view().dom().contains(key as int),
            (r matches Some(i) ==> self.list_spec().has_node(i)),
    {
        let ghost k = key as int;
        let ghost ks = keys_of(self.entries());
        proof {
            assert forall|j: int| 0 <= j < self.entries().len() implies ks[j] == (
            #[trigger] self.entries()[j]).key as int by {}
        }
        let probe = Entry { key, value: None };
        let r = self.list.find_node(&probe);
        proof {
            match r {
                Some(_i) => {
                    let p = num_le(ks, k);
                    assert(self.entries()[p - 1].key as int == k);
                },
                None => {
                    assert forall|j: int| 0 <= j < self.entries().len() implies (
                    #[trigger] self.entries()[j]).key as int != k by {
                        assert(ks[j] != k);
                    }
                    self.lemma_mv_absent(k);
                },
            }
        }
        r
    }

    /// Read access to the underlying ordered list of entries.
    pub fn list(&self) -> (r: &SkipList<Entry<V>>)
        requires
            self.wf(),
        ensures
            *r == self.list_spec(),
            r.wf(),
    {
        &self.list
    }
}

} // verus!
