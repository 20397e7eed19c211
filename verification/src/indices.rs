//! The in-memory index: for each key, where its entry stands.

use crate::code::Key;
use vstd::prelude::*;

verus! {

/// The number of a region of the device.
pub type RegionId = u32;

/// The generation of a region's contents.
pub type Version = u32;

/// Where an entry stands, and how long its parts are.
#[derive(Debug, Clone, Copy, PartialEq, Eq)]
pub struct Location {
    /// the region that holds the entry
    pub region: RegionId,
    /// the generation of the region that the entry belongs to
    pub version: Version,
    /// offset of the entry in the region
    pub offset: u32,
    /// length of the entry
    pub len: u32,
    /// length of the serialized key
    pub key_len: u32,
    /// length of the serialized value
    pub value_len: u32,
}

/// A key, and where its entry stands.
#[derive(Debug)]
pub struct Index<K: Key> {
    /// the key of the entry
    pub key: K,
    /// the region that holds the entry
    pub region: RegionId,
    /// the generation of the region that the entry belongs to
    pub version: Version,
    /// offset of the entry in the region
    pub offset: u32,
    /// length of the entry
    pub len: u32,
    /// length of the serialized key
    pub key_len: u32,
    /// length of the serialized value
    pub value_len: u32,
}

impl<K: Key> Index<K> {
    /// The index without its key.
    pub open spec fn location(self) -> Location {
        Location {
            region: self.region,
            version: self.version,
            offset: self.offset,
            len: self.len,
            key_len: self.key_len,
            value_len: self.value_len,
        }
    }
}

impl<K: Key> View for Index<K> {
    type V = (K::V, Location);

    open spec fn view(&self) -> (K::V, Location) {
        (self.key@, self.location())
    }
}

/// A map from keys to the places of their entries.
#[derive(Debug)]
pub struct Indices<K: Key> {
    entries: Vec<Index<K>>,
}

/// Whether entry `i` is the one of `key`.
spec fn stands_at<K: Key>(entries: Seq<Index<K>>, key: K::V, i: int) -> bool {
    0 <= i < entries.len() && entries[i].key@ == key
}

/// The map that a list of entries without repeated keys stands for.
spec fn locations<K: Key>(entries: Seq<Index<K>>) -> Map<K::V, Location> {
    Map::new(
        |key: K::V| exists|i: int| stands_at(entries, key, i),
        |key: K::V| entries[choose|i: int| stands_at(entries, key, i)].location(),
    )
}

/// Whether no key occurs twice.
spec fn keys_distinct<K: Key>(entries: Seq<Index<K>>) -> bool {
    forall|i: int, j: int|
        0 <= i < j < entries.len() ==> (#[trigger] entries[i]).key@ != (#[trigger] entries[j]).key@
}

/// The entry of a key gives its place.
proof fn lemma_location_at<K: Key>(entries: Seq<Index<K>>, i: int)
    requires
        keys_distinct(entries),
        0 <= i < entries.len(),
    ensures
        locations(entries).contains_key(entries[i].key@),
        locations(entries)[entries[i].key@] == entries[i].location(),
{
    let key = entries[i].key@;
    assert(stands_at(entries, key, i));
    let j = choose|j: int| stands_at(entries, key, j);
    assert(stands_at(entries, key, j));
    if i < j {
        assert(entries[i].key@ != entries[j].key@);
    } else if j < i {
        assert(entries[j].key@ != entries[i].key@);
    }
}

/// A map is the one that a list stands for if the two hold the same keys and
/// places.
proof fn lemma_locations_are<K: Key>(entries: Seq<Index<K>>, map: Map<K::V, Location>)
    requires
        keys_distinct(entries),
        forall|i: int|
            0 <= i < entries.len() ==> map.contains_key((#[trigger] entries[i]).key@)
                && map[entries[i].key@] == entries[i].location(),
        forall|key: K::V| #[trigger]
            map.contains_key(key) ==> exists|i: int| stands_at(entries, key, i),
    ensures
        locations(entries) == map,
{
    assert forall|key: K::V| #[trigger] map.contains_key(key) implies locations(entries)[key]
        == map[key] by {
        let i = choose|i: int| stands_at(entries, key, i);
        assert(stands_at(entries, key, i));
    }
    assert(locations(entries) =~= map);
}

impl<K: Key> View for Indices<K> {
    type V = Map<K::V, Location>;

    closed spec fn view(&self) -> Map<K::V, Location> {
        locations(self.entries@)
    }
}

impl<K: Key> Indices<K> {
    /// Each key has one place.
    pub closed spec fn wf(self) -> bool {
        keys_distinct(self.entries@)
    }

    /// An empty index.
    pub fn new() -> (r: Indices<K>)
        ensures
            r.wf(),
            r@ == Map::<K::V, Location>::empty(),
    {
        let r = Indices { entries: Vec::new() };
        proof {
            assert(r@ =~= Map::<K::V, Location>::empty());
        }
        r
    }

    /// The number of the entry that holds `key`.
    fn position(&self, key: &K) -> (r: Option<usize>)
        ensures
            match r {
                Some(i) => stands_at(self.entries@, key@, i as int),
                None => !self@.contains_key(key@),
            },
    {
        let mut i: usize = 0;
        while i < self.entries.len()
            invariant
                i <= self.entries@.len(),
                forall|j: int| 0 <= j < i ==> (#[trigger] self.entries@[j]).key@ != key@,
            decreases self.entries@.len() - i,
        {
            if self.entries[i].key.same(key) {
                return Some(i);
            }
            i = i + 1;
        }
        proof {
            assert forall|j: int| !stands_at(self.entries@, key@, j) by {
                if 0 <= j < self.entries@.len() {
                    assert(self.entries@[j].key@ != key@);
                }
            }
        }
        None
    }

    /// Records `index`, in place of what was recorded for its key.
    pub fn insert(&mut self, index: Index<K>)
        requires
            old(self).wf(),
        ensures
            final(self).wf(),
            final(self)@ == old(self)@.insert(index.key@, index.location()),
    {
        let ghost before = self.entries@;
        let ghost key = index.key@;
        match self.position(&index.key) {
            Some(i) => {
                self.entries[i] = index;
                proof {
                    let after = self.entries@;
                    assert(after =~= before.update(i as int, index));
                    assert forall|a: int, b: int| 0 <= a < b < after.len() implies (
                    #[trigger] after[a]).key@ != (#[trigger] after[b]).key@ by {
                        assert(before[a].key@ != before[b].key@);
                    }
                    let map = locations(before).insert(key, index.location());
                    assert forall|a: int| 0 <= a < after.len() implies map.contains_key(
                        (#[trigger] after[a]).key@,
                    ) && map[after[a].key@] == after[a].location() by {
                        lemma_location_at(before, a);
                        if a < i {
                            assert(before[a].key@ != before[i as int].key@);
                        } else if a > i {
                            assert(before[i as int].key@ != before[a].key@);
                        }
                    }
                    assert forall|k: K::V| #[trigger] map.contains_key(k) implies exists|a: int|
                        stands_at(after, k, a) by {
                        let a = choose|a: int| stands_at(before, k, a);
                        if k == key {
                            assert(stands_at(after, k, i as int));
                        } else {
                            assert(stands_at(before, k, a));
                            assert(stands_at(after, k, a));
                        }
                    }
                    lemma_locations_are(after, map);
                }
            },
            None => {
                self.entries.push(index);
                proof {
                    let after = self.entries@;
                    assert(after =~= before.push(index));
                    assert forall|a: int, b: int| 0 <= a < b < after.len() implies (
                    #[trigger] after[a]).key@ != (#[trigger] after[b]).key@ by {
                        if b == before.len() {
                            assert(after[a] == before[a]);
                            assert(before[a].key@ != key) by {
                                if before[a].key@ == key {
                                    assert(stands_at(before, key, a));
                                }
                            }
                        } else {
                            assert(before[a].key@ != before[b].key@);
                        }
                    }
                    let map = locations(before).insert(key, index.location());
                    assert forall|a: int| 0 <= a < after.len() implies map.contains_key(
                        (#[trigger] after[a]).key@,
                    ) && map[after[a].key@] == after[a].location() by {
                        if a < before.len() {
                            lemma_location_at(before, a);
                        }
                    }
                    assert forall|k: K::V| #[trigger] map.contains_key(k) implies exists|a: int|
                        stands_at(after, k, a) by {
                        let a = choose|a: int| stands_at(before, k, a);
                        if k == key {
                            assert(stands_at(after, k, before.len() as int));
                        } else {
                            assert(stands_at(before, k, a));
                            assert(stands_at(after, k, a));
                        }
                    }
                    lemma_locations_are(after, map);
                }
            },
        }
    }

    /// Finds what is recorded for `key`.
    pub fn lookup(&self, key: &K) -> (r: Option<&Index<K>>)
        requires
            self.wf(),
        ensures
            match r {
                Some(index) => self@.contains_key(key@) && index@ == (key@, self@[key@]),
                None => !self@.contains_key(key@),
            },
    {
        match self.position(key) {
            Some(i) => {
                proof {
                    lemma_location_at(self.entries@, i as int);
                }
                Some(&self.entries[i])
            },
            None => None,
        }
    }

    /// Forgets what is recorded for `key`.
    pub fn remove(&mut self, key: &K)
        requires
            old(self).wf(),
        ensures
            final(self).wf(),
            final(self)@ == old(self)@.remove(key@),
    {
        let ghost before = self.entries@;
        match self.position(key) {
            Some(i) => {
                let _ = self.entries.swap_remove(i);
                proof {
                    let after = self.entries@;
                    let last = before.len() - 1;
                    assert forall|a: int, b: int| 0 <= a < b < after.len() implies (
                    #[trigger] after[a]).key@ != (#[trigger] after[b]).key@ by {
                        let x = if a == i { last } else { a };
                        let y = if b == i { last } else { b };
                        assert(after[a] == before[x] && after[b] == before[y]);
                        if x < y {
                            assert(before[x].key@ != before[y].key@);
                        } else {
                            assert(before[y].key@ != before[x].key@);
                        }
                    }
                    let map = locations(before).remove(key@);
                    assert forall|a: int| 0 <= a < after.len() implies map.contains_key(
                        (#[trigger] after[a]).key@,
                    ) && map[after[a].key@] == after[a].location() by {
                        let x = if a == i { last } else { a };
                        assert(after[a] == before[x]);
                        lemma_location_at(before, x);
                        if x < i {
                            assert(before[x].key@ != before[i as int].key@);
                        } else {
                            assert(before[i as int].key@ != before[x].key@);
                        }
                    }
                    assert forall|k: K::V| #[trigger] map.contains_key(k) implies exists|a: int|
                        stands_at(after, k, a) by {
                        let a = choose|a: int| stands_at(before, k, a);
                        assert(stands_at(before, k, a));
                        let y = if a == last { i as int } else { a };
                        assert(stands_at(after, k, y));
                    }
                    lemma_locations_are(after, map);
                }
            },
            None => {
                proof {
                    assert(self@ =~= self@.remove(key@));
                }
            },
        }
    }
}

/// An index stands for its key and the place that its fields give.
pub proof fn law_index_view<K: Key>(index: Index<K>)
    ensures
        index@.0 == index.key@,
        index@.1 == index.location(),
        index.location().region == index.region,
        index.location().version == index.version,
        index.location().offset == index.offset,
        index.location().len == index.len,
        index.location().key_len == index.key_len,
        index.location().value_len == index.value_len,
{
}

} // verus!
