//! The store: what is inserted under a key can be looked up under it.
//!
//! Each operation that needs the device is a sequence of steps. A step returns
//! what has to be done outside, and the next step takes the outcome.

use crate::admission::{ask, entry_weight, may_admit, AdmissionPolicy};
use crate::bits::align_up;
use crate::buf::be_value;
use crate::checksum::xxhash64;
use crate::code::{Key, Value};
use crate::config::{buffer_pool, BufferPool, DeviceInfo, StoreConfig};
use crate::entry::{
    entry_bytes, entry_fits, entry_intact, entry_readable, is_entry, read_entry, value_part,
    write_entry,
};
use crate::footer::{EntryFooter, RegionFooter, ENTRY_FOOTER_LEN, REGION_FOOTER_LEN, REGION_MAGIC};
use crate::indices::{Index, Indices, Location, RegionId, Version};
use crate::recovery::{bytes_of, recorded, RegionRecovery};
use crate::region_log::{
    log_end, log_indices, pair_location, pair_slot_len, record_all, slot_len, written,
};
use std::marker::PhantomData;
use vstd::prelude::*;

verus! {

/// A part of a region that was handed out for writing.
#[derive(Debug, Clone, Copy, PartialEq, Eq)]
pub struct Slot {
    /// the region
    pub region: RegionId,
    /// the generation of the region
    pub version: Version,
    /// where the part starts in the region
    pub offset: usize,
}

/// The outcome of a request for a slot.
#[derive(Debug, Clone, Copy, PartialEq, Eq)]
pub enum AllocateResult {
    /// a slot of the requested length
    Allocated(Slot),
    /// the region is full, and what is left of it was handed out
    Full {
        /// how much is left
        remain: usize,
    },
}

/// An entry that is about to be written.
#[derive(Debug)]
pub struct PendingInsert<K: Key, V: Value> {
    /// the key
    pub key: K,
    /// the value
    pub value: V,
    /// length of the slot that is needed
    pub size: usize,
    /// whether a region turned out full already
    pub retried: bool,
}

/// What an insert came to.
#[derive(Debug)]
pub enum InsertStep<K: Key, V: Value> {
    /// the entry was not let in: the insert is over and returns `false`
    Rejected,
    /// a slot is needed
    Allocate(PendingInsert<K, V>),
    /// the entry is written: the slot has to be given back, then the index
    /// published
    Publish(Index<K>),
}

/// The bytes that a lookup needs.
#[derive(Debug, Clone, Copy, PartialEq, Eq)]
pub struct LoadRequest {
    /// the region, which counts as accessed
    pub region: RegionId,
    /// the generation that the region has to have
    pub version: Version,
    /// where the bytes start
    pub start: usize,
    /// where they end
    pub end: usize,
}

/// A store whose device is being opened.
pub struct Opening<AP, EC, RP> {
    /// settings of the eviction policy
    pub eviction_config: EC,
    /// the admission policy
    pub admission: AP,
    /// the reinsertion policy
    pub reinsertion: RP,
    /// bytes for region buffers
    pub buffer_pool_size: usize,
    /// number of flushers
    pub flushers: usize,
    /// number of reclaimers
    pub reclaimers: usize,
    /// how many regions may be recovered at the same time
    pub recover_concurrency: usize,
}

/// A store that has been set up but not recovered, and what has to be set up
/// around it.
pub struct Opened<K: Key, V: Value, AP, EC, RP> {
    /// the store
    pub store: Store<K, V, AP>,
    /// settings of the eviction policy
    pub eviction_config: EC,
    /// the reinsertion policy
    pub reinsertion: RP,
    /// the region buffers
    pub buffers: BufferPool,
    /// number of regions
    pub regions: usize,
    /// the regions to recover are those below this number
    pub recover_regions: RegionId,
    /// number of flushers
    pub flushers: usize,
    /// number of reclaimers
    pub reclaimers: usize,
    /// how many regions may be recovered at the same time
    pub recover_concurrency: usize,
}

/// The in-memory part of a store.
#[derive(Debug)]
pub struct Store<K: Key, V: Value, AP> {
    indices: Indices<K>,
    align: usize,
    admission: AP,
    marker: PhantomData<V>,
}

/// The place that an insert records: the slot and the lengths, as `u32`.
pub open spec fn slot_location(slot: Slot, len: nat, key_len: nat, value_len: nat) -> Location {
    Location {
        region: slot.region,
        version: slot.version,
        offset: slot.offset as u32,
        len: len as u32,
        key_len: key_len as u32,
        value_len: value_len as u32,
    }
}

/// Whether the end of a place can be computed.
pub open spec fn place_in_range(place: Location) -> bool {
    place.offset + place.len <= usize::MAX
}

impl<K: Key, V: Value> PendingInsert<K, V> {
    /// Whether `allocated` can go on from this outcome and the bytes that were
    /// handed out: a slot has room for the entry, the rest of a full region
    /// for its footer, and a region does not turn out full twice.
    pub open spec fn ready(self, result: AllocateResult, buf: Seq<u8>) -> bool {
        match result {
            AllocateResult::Allocated(_) => entry_fits(
                buf.len(),
                K::encode(self.key@).len(),
                V::encode(self.value@).len(),
            ),
            AllocateResult::Full { .. } => !self.retried && buf.len() >= REGION_FOOTER_LEN,
        }
    }

    /// Goes on with the slot that was asked for, whose bytes are `buf`: writes
    /// the entry. If the region was full, `buf` is what was left of it: writes
    /// the region footer and asks for a slot again.
    pub fn allocated(self, result: AllocateResult, buf: &mut [u8]) -> (r: InsertStep<K, V>)
        requires
            self.ready(result, old(buf)@),
        ensures
            match result {
                AllocateResult::Allocated(slot) => {
                    let key = K::encode(self.key@);
                    let value = V::encode(self.value@);
                    &&& final(buf)@ == entry_bytes(key, value, old(buf)@)
                    &&& r matches InsertStep::Publish(index) && index@ == (
                        self.key@,
                        slot_location(slot, old(buf)@.len(), key.len(), value.len()),
                    )
                },
                AllocateResult::Full { remain } => {
                    let footer = RegionFooter { magic: REGION_MAGIC, padding: remain as u64 };
                    &&& final(buf)@ == old(buf)@.take(old(buf)@.len() - REGION_FOOTER_LEN)
                        + footer.bytes()
                    &&& r == InsertStep::Allocate(PendingInsert { retried: true, ..self })
                },
            },
            ({
                let n = old(buf)@.len() as int;
                let bytes = final(buf)@;
                match result {
                    AllocateResult::Allocated(slot) => {
                        let key = K::encode(self.key@);
                        let value = V::encode(self.value@);
                        let p = (value.len() + key.len()) as int;
                        &&& bytes.len() == n
                        &&& bytes.subrange(0, value.len() as int) == value
                        &&& bytes.subrange(value.len() as int, p) == key
                        &&& be_value(bytes.subrange(n - 20, n - 16)) == key.len() as u32
                        &&& be_value(bytes.subrange(n - 16, n - 12)) == value.len() as u32
                        &&& be_value(bytes.subrange(n - 12, n - 8)) == (n as u32) - (
                        key.len() as u32) - (value.len() as u32) - 20
                        &&& be_value(bytes.subrange(n - 8, n)) == xxhash64(0, value + key)
                        &&& r matches InsertStep::Publish(index)
                        &&& index.key == self.key
                        &&& index.region == slot.region
                        &&& index.version == slot.version
                        &&& index.offset == slot.offset as u32
                        &&& index.len == n as u32
                        &&& index.key_len == key.len() as u32
                        &&& index.value_len == value.len() as u32
                    },
                    AllocateResult::Full { remain } => {
                        &&& bytes.len() == n
                        &&& bytes.take(n - 16) == old(buf)@.take(n - 16)
                        &&& be_value(bytes.subrange(n - 16, n - 8)) == remain as u64
                        &&& be_value(bytes.subrange(n - 8, n)) == 0x19970327
                        &&& r matches InsertStep::Allocate(pending)
                        &&& pending.key == self.key
                        &&& pending.value == self.value
                        &&& pending.size == self.size
                        &&& pending.retried
                    },
                }
            }),
    {
        match result {
            AllocateResult::Allocated(slot) => {
                write_entry(buf, &self.key, &self.value);
                proof {
                    crate::entry::lemma_entry_bytes_is_entry(
                        K::encode(self.key@),
                        V::encode(self.value@),
                        old(buf)@,
                    );
                }
                let key_len: usize = self.key.serialized_len();
                let value_len: usize = self.value.serialized_len();
                InsertStep::Publish(
                    Index {
                        region: slot.region,
                        version: slot.version,
                        offset: slot.offset as u32,
                        len: buf.len() as u32,
                        key_len: key_len as u32,
                        value_len: value_len as u32,
                        key: self.key,
                    },
                )
            },
            AllocateResult::Full { remain } => {
                // current region is full, write region footer and try allocate again
                let footer = RegionFooter { magic: REGION_MAGIC, padding: remain as u64 };
                footer.write(buf);
                InsertStep::Allocate(
                    PendingInsert {
                        key: self.key,
                        value: self.value,
                        size: self.size,
                        retried: true,
                    },
                )
            },
        }
    }

    /// Tells whether `allocated` accepts this outcome and these bytes.
    pub fn accepts(&self, result: &AllocateResult, buf: &[u8]) -> (b: bool)
        ensures
            b == self.ready(*result, buf@),
            match *result {
                AllocateResult::Allocated(_) => {
                    let key_len = K::encode(self.key@).len();
                    let value_len = V::encode(self.value@).len();
                    b <==> {
                        &&& key_len + value_len + 20 <= buf@.len()
                        &&& (key_len as u32) + (value_len as u32) + 20 <= buf@.len() as u32
                    }
                },
                AllocateResult::Full { .. } => b <==> !self.retried && buf@.len() >= 16,
            },
    {
        match result {
            AllocateResult::Allocated(_) => {
                let len: usize = buf.len();
                let key_len: usize = self.key.serialized_len();
                let value_len: usize = self.value.serialized_len();
                if value_len > len || key_len > len - value_len || ENTRY_FOOTER_LEN > len
                    - value_len - key_len {
                    return false;
                }
                value_len as u32 as u64 + key_len as u32 as u64 + ENTRY_FOOTER_LEN as u64
                    <= len as u32 as u64
            },
            AllocateResult::Full { .. } => !self.retried && buf.len() >= REGION_FOOTER_LEN,
        }
    }
}

impl<K: Key, V: Value, AP> View for Store<K, V, AP> {
    type V = Map<K::V, Location>;

    /// For each key, where its entry stands.
    closed spec fn view(&self) -> Map<K::V, Location> {
        self.indices@
    }
}

impl<AP, EC, RP> Opening<AP, EC, RP> {
    /// Sets up an empty store on the open device, and tells what has to be set
    /// up around it before its regions are recovered.
    pub fn device_opened<K: Key, V: Value>(self, device: &DeviceInfo) -> (r: Opened<K, V, AP, EC, RP>)
        requires
            device.region_size > 0,
            device.align > 0,
        ensures
            r.store.wf(),
            r.store@ == Map::<K::V, Location>::empty(),
            r.store.align() == device.align,
            r.store.admission() == self.admission,
            r.eviction_config == self.eviction_config,
            r.reinsertion == self.reinsertion,
            r.buffers.count == self.buffer_pool_size / device.region_size,
            r.buffers.len == device.region_size,
            r.buffers.capacity == device.region_size,
            r.regions == device.regions,
            r.recover_regions == device.regions as u32,
            r.flushers == self.flushers,
            r.reclaimers == self.reclaimers,
            r.recover_concurrency == self.recover_concurrency,
    {
        let buffers = buffer_pool(self.buffer_pool_size, device.region_size);
        let store = Store {
            indices: Indices::new(),
            align: device.align,
            admission: self.admission,
            marker: PhantomData,
        };
        Opened {
            store,
            eviction_config: self.eviction_config,
            reinsertion: self.reinsertion,
            buffers,
            regions: device.regions,
            recover_regions: device.regions as RegionId,
            flushers: self.flushers,
            reclaimers: self.reclaimers,
            recover_concurrency: self.recover_concurrency,
        }
    }
}

impl<K: Key, V: Value, AP> Store<K, V, AP> {
    /// There is a block size, each key has one place, and the end of each
    /// place can be computed.
    pub closed spec fn wf(self) -> bool {
        &&& self.align > 0
        &&& self.indices.wf()
        &&& forall|key: K::V| #[trigger]
            self@.contains_key(key) ==> place_in_range(self@[key])
    }

    /// The block size.
    pub closed spec fn align(self) -> usize {
        self.align
    }

    /// The admission policy.
    pub closed spec fn admission(self) -> AP {
        self.admission
    }

    /// Whether the slot of a key and a value can be computed.
    pub open spec fn slot_in_range(self, key: K, value: V) -> bool {
        slot_len(self.align() as int, K::encode(key@).len(), V::encode(value@).len()) <= usize::MAX
    }

    /// Starts to open a store: hands out the settings of the device, which has
    /// to be opened first.
    pub fn open<EC, DC, RP>(config: StoreConfig<EC, DC, AP, RP>) -> (r: (DC, Opening<AP, EC, RP>))
        ensures
            r.0 == config.device_config,
            r.1.eviction_config == config.eviction_config,
            r.1.admission == config.admission,
            r.1.reinsertion == config.reinsertion,
            r.1.buffer_pool_size == config.buffer_pool_size,
            r.1.flushers == config.flushers,
            r.1.reclaimers == config.reclaimers,
            r.1.recover_concurrency == config.recover_concurrency,
    {
        let opening = Opening {
            eviction_config: config.eviction_config,
            admission: config.admission,
            reinsertion: config.reinsertion,
            buffer_pool_size: config.buffer_pool_size,
            flushers: config.flushers,
            reclaimers: config.reclaimers,
            recover_concurrency: config.recover_concurrency,
        };
        (config.device_config, opening)
    }

    /// The length of the slot of an entry: value, key and footer, rounded up
    /// to whole blocks.
    pub fn serialized_len(&self, key: &K, value: &V) -> (n: usize)
        requires
            self.wf(),
            self.slot_in_range(*key, *value),
        ensures
            n == slot_len(self.align() as int, K::encode(key@).len(), V::encode(value@).len()),
            n as int % self.align() as int == 0,
            K::encode(key@).len() + V::encode(value@).len() + 20 <= n,
            n < K::encode(key@).len() + V::encode(value@).len() + 20 + self.align(),
    {
        proof {
            crate::region_log::lemma_slot_len(
                self.align as int,
                K::encode(key@).len(),
                V::encode(value@).len(),
            );
        }
        let unaligned: usize = key.serialized_len() + value.serialized_len()
            + EntryFooter::serialized_len();
        align_up(self.align, unaligned)
    }

    /// Tells whether the slot of a key and a value can be computed, as an insert
    /// needs.
    pub fn accepts(&self, key: &K, value: &V) -> (b: bool)
        requires
            self.wf(),
        ensures
            b == self.slot_in_range(*key, *value),
            forall|len: int|
                #![trigger len % self.align() as int]
                len % self.align() as int == 0 && K::encode(key@).len() + V::encode(value@).len()
                    + 20 <= len < K::encode(key@).len() + V::encode(value@).len() + 20
                    + self.align() ==> (b <==> len <= usize::MAX),
    {
        proof {
            assert forall|len: int|
                #![trigger len % self.align() as int]
                len % self.align() as int == 0 && K::encode(key@).len() + V::encode(value@).len()
                    + 20 <= len < K::encode(key@).len() + V::encode(value@).len() + 20
                    + self.align() implies (self.slot_in_range(*key, *value) <==> len
                <= usize::MAX) by {
                law_slot_in_range_iff(*self, *key, *value, len);
            }
            crate::region_log::lemma_slot_len(
                self.align as int,
                K::encode(key@).len(),
                V::encode(value@).len(),
            );
        }
        let key_len: usize = key.serialized_len();
        let value_len: usize = value.serialized_len();
        let footer_len: usize = EntryFooter::serialized_len();
        if value_len > usize::MAX - key_len || footer_len > usize::MAX - key_len - value_len {
            return false;
        }
        let unaligned: usize = key_len + value_len + footer_len;
        let rem: usize = unaligned % self.align;
        rem == 0 || self.align - rem <= usize::MAX - unaligned
    }

    /// Starts the insert of an entry that the admission policy has let in or
    /// not.
    pub fn insert_judged(&self, key: K, value: V, admitted: bool) -> (r: InsertStep<K, V>)
        requires
            self.wf(),
            admitted ==> self.slot_in_range(key, value),
        ensures
            !admitted ==> r is Rejected,
            admitted ==> r == InsertStep::Allocate(
                PendingInsert {
                    key,
                    value,
                    size: slot_len(
                        self.align() as int,
                        K::encode(key@).len(),
                        V::encode(value@).len(),
                    ) as usize,
                    retried: false,
                },
            ),
            r is Rejected <==> !admitted,
            admitted ==> {
                let len = K::encode(key@).len() + V::encode(value@).len() + 20;
                &&& r matches InsertStep::Allocate(pending)
                &&& pending.key == key
                &&& pending.value == value
                &&& pending.size as int % self.align() as int == 0
                &&& len <= pending.size < len + self.align()
                &&& !pending.retried
            },
    {
        if !admitted {
            return InsertStep::Rejected;
        }
        let size: usize = self.serialized_len(&key, &value);
        InsertStep::Allocate(PendingInsert { key, value, size, retried: false })
    }

    /// Ends an insert: records where the entry stands. Returns `true`.
    pub fn publish(&mut self, index: Index<K>) -> (r: bool)
        requires
            old(self).wf(),
            place_in_range(index.location()),
        ensures
            r,
            final(self).wf(),
            final(self)@ == old(self)@.insert(index.key@, index.location()),
            final(self).align() == old(self).align(),
            final(self).admission() == old(self).admission(),
    {
        self.indices.insert(index);
        proof {
            assert forall|key: K::V| #[trigger] self@.contains_key(key) implies place_in_range(
                self@[key],
            ) by {
                if key != index.key@ {
                    assert(old(self)@.contains_key(key));
                }
            }
        }
        true
    }

    /// Starts a lookup: asks for the bytes of the entry. `None` if there is
    /// none, and the lookup finds nothing.
    pub fn lookup(&self, key: &K) -> (r: Option<LoadRequest>)
        requires
            self.wf(),
        ensures
            r is Some <==> self@.contains_key(key@),
            r matches Some(request) ==> {
                &&& request.region == self@[key@].region
                &&& request.version == self@[key@].version
                &&& request.start == self@[key@].offset
                &&& request.end == self@[key@].offset + self@[key@].len
            },
    {
        match self.indices.lookup(key) {
            Some(index) => {
                proof {
                    assert(place_in_range(self@[key@]));
                    assert(index.location() == self@[key@]);
                }
                let start: usize = index.offset as usize;
                let end: usize = start + index.len as usize;
                Some(LoadRequest { region: index.region, version: index.version, start, end })
            },
            None => None,
        }
    }

    /// Ends a lookup, given the bytes that it asked for, `None` if the region
    /// has moved on: the value, unless the bytes are damaged.
    pub fn finish_lookup(slice: Option<&[u8]>) -> (r: Option<V>)
        requires
            slice matches Some(s) ==> entry_readable::<K, V>(s@),
        ensures
            view_of(r) == loaded_value::<V>(bytes_of(slice)),
            slice is None ==> r is None,
            slice matches Some(s) ==> {
                let n = s@.len() as int;
                let key_len = be_value(s@.subrange(n - 20, n - 16)) as int;
                let value_len = be_value(s@.subrange(n - 16, n - 12)) as int;
                let sum = xxhash64(0, s@.subrange(0, value_len + key_len));
                &&& r is Some <==> sum == be_value(s@.subrange(n - 8, n))
                &&& r matches Some(value) ==> value@ == V::decode(s@.subrange(0, value_len))
            },
    {
        let slice = match slice {
            Some(slice) => slice,
            None => return None,
        };
        match read_entry::<K, V>(slice) {
            Some((_key, value)) => Some(value),
            None => None,
        }
    }

    /// Forgets the entry of a key.
    pub fn remove(&mut self, key: &K)
        requires
            old(self).wf(),
        ensures
            final(self).wf(),
            final(self)@ == old(self)@.remove(key@),
            final(self).align() == old(self).align(),
            final(self).admission() == old(self).admission(),
    {
        self.indices.remove(key);
        proof {
            assert forall|other: K::V| #[trigger] self@.contains_key(other) implies place_in_range(
                self@[other],
            ) by {
                assert(old(self)@.contains_key(other));
            }
        }
    }

    /// Goes on with the recovery of a region, given the bytes that it asked
    /// for, and records the entry that they complete.
    pub fn recover_region(&mut self, recovery: RegionRecovery, slice: Option<&[u8]>) -> (r:
        RegionRecovery)
        requires
            old(self).wf(),
            recovery.wf(),
            recovery.ready::<K>(bytes_of(slice)),
        ensures
            r.wf(),
            r == recovery.after(bytes_of(slice)),
            final(self).wf(),
            final(self)@ == recorded(old(self)@, recovery.taken::<K>(bytes_of(slice))),
            final(self).align() == old(self).align(),
            final(self).admission() == old(self).admission(),
    {
        let r = recovery.loaded(slice, &mut self.indices);
        proof {
            let taken = recovery.taken::<K>(bytes_of(slice));
            crate::recovery::lemma_taken_in_range::<K>(recovery, bytes_of(slice));
            assert forall|key: K::V| #[trigger] self@.contains_key(key) implies place_in_range(
                self@[key],
            ) by {
                if taken is None || key != (taken->0).0 {
                    assert(old(self)@.contains_key(key));
                }
            }
        }
        r
    }
}

impl<K: Key, V: Value, AP: AdmissionPolicy<Key = K, Value = V>> Store<K, V, AP> {
    /// What an insert comes to first, given the answer of the admission
    /// policy.
    pub open spec fn judged_step(self, key: K, value: V, admitted: bool) -> InsertStep<K, V> {
        if admitted {
            InsertStep::Allocate(
                PendingInsert {
                    key,
                    value,
                    size: slot_len(
                        self.align() as int,
                        K::encode(key@).len(),
                        V::encode(value@).len(),
                    ) as usize,
                    retried: false,
                },
            )
        } else {
            InsertStep::Rejected
        }
    }

    /// Starts an insert: asks the admission policy, and for a slot if the
    /// entry is let in.
    ///
    /// The policy is handed the key and the length of key and value, and what
    /// it answers decides. The slot of an entry that it never lets in need not
    /// be computable.
    pub fn insert(&self, key: K, value: V) -> (r: InsertStep<K, V>)
        requires
            self.wf(),
            entry_weight(key, value) <= usize::MAX,
            may_admit(self.admission(), key, value, true) ==> self.slot_in_range(key, value),
        ensures
            exists|admitted: bool| #[trigger]
                may_admit(self.admission(), key, value, admitted) && r == self.judged_step(
                    key,
                    value,
                    admitted,
                ),
            exists|admitted: bool|
                {
                    &&& #[trigger] call_ensures(
                        AP::judge,
                        (
                            &self.admission(),
                            &key,
                            (K::encode(key@).len() + V::encode(value@).len()) as usize,
                        ),
                        admitted,
                    )
                    &&& r is Rejected <==> !admitted
                    &&& r is Allocate <==> admitted
                },
            r matches InsertStep::Allocate(pending) ==> {
                let len = K::encode(key@).len() + V::encode(value@).len() + 20;
                &&& pending.key == key
                &&& pending.value == value
                &&& pending.size as int % self.align() as int == 0
                &&& len <= pending.size < len + self.align()
                &&& !pending.retried
            },
    {
        let admitted = ask(&self.admission, &key, &value);
        self.insert_judged(key, value, admitted)
    }
}

/// The view of a value, if there is one.
pub open spec fn view_of<V: Value>(value: Option<V>) -> Option<V::V> {
    match value {
        Some(v) => Some(v@),
        None => None,
    }
}

/// The value that a lookup makes of the bytes that it asked for.
pub open spec fn loaded_value<V: Value>(slice: Option<Seq<u8>>) -> Option<V::V> {
    match slice {
        Some(bytes) if entry_intact(bytes) => Some(V::decode(value_part(bytes))),
        _ => None,
    }
}

/// The progress of recovering all regions.
#[derive(Debug, Clone, Copy, PartialEq, Eq)]
pub struct RecoveryTally {
    /// how many regions turned out valid
    pub recovered: usize,
}

/// The tally once a region is done.
pub open spec fn counted<E>(tally: RecoveryTally, outcome: Result<bool, E>) -> Result<
    RecoveryTally,
    E,
> {
    match outcome {
        Ok(true) => Ok(RecoveryTally { recovered: (tally.recovered + 1) as usize }),
        Ok(false) => Ok(tally),
        Err(e) => Err(e),
    }
}

/// The tally once these regions are done, one after the other, up to the first
/// error.
pub open spec fn counted_all<E>(tally: RecoveryTally, outcomes: Seq<Result<bool, E>>) -> Result<
    RecoveryTally,
    E,
>
    decreases outcomes.len(),
{
    if outcomes.len() == 0 {
        Ok(tally)
    } else {
        match counted(tally, outcomes[0]) {
            Ok(next) => counted_all(next, outcomes.skip(1)),
            Err(e) => Err(e),
        }
    }
}

/// How many of these regions turned out valid.
pub open spec fn valid_count<E>(outcomes: Seq<Result<bool, E>>) -> nat
    decreases outcomes.len(),
{
    if outcomes.len() == 0 {
        0
    } else {
        valid_count(outcomes.skip(1)) + if outcomes[0] == Ok::<bool, E>(true) {
            1nat
        } else {
            0
        }
    }
}

/// A recovery without errors counts the regions that turned out valid.
pub proof fn law_recovery_counts<E>(tally: RecoveryTally, outcomes: Seq<Result<bool, E>>)
    requires
        forall|i: int| 0 <= i < outcomes.len() ==> (#[trigger] outcomes[i]) is Ok,
        tally.recovered + outcomes.len() <= usize::MAX,
    ensures
        counted_all(tally, outcomes) == Ok::<RecoveryTally, E>(
            RecoveryTally { recovered: (tally.recovered + valid_count(outcomes)) as usize },
        ),
        valid_count(outcomes) <= outcomes.len(),
    decreases outcomes.len(),
{
    if outcomes.len() > 0 {
        assert(outcomes[0] is Ok);
        let next = counted(tally, outcomes[0])->Ok_0;
        law_recovery_counts(next, outcomes.skip(1));
    }
}

/// The first error decides the recovery of all regions, whatever the regions
/// after it came to.
pub proof fn law_recovery_fails<E>(tally: RecoveryTally, outcomes: Seq<Result<bool, E>>, i: int)
    requires
        0 <= i < outcomes.len(),
        outcomes[i] is Err,
        forall|j: int| 0 <= j < i ==> (#[trigger] outcomes[j]) is Ok,
    ensures
        counted_all(tally, outcomes) == Err::<RecoveryTally, E>(outcomes[i]->Err_0),
    decreases i,
{
    if i > 0 {
        assert(outcomes[0] is Ok);
        let next = counted(tally, outcomes[0])->Ok_0;
        law_recovery_fails(next, outcomes.skip(1), i - 1);
    }
}

impl RecoveryTally {
    /// No region is done yet.
    pub fn new() -> (r: RecoveryTally)
        ensures
            r.recovered == 0,
    {
        RecoveryTally { recovered: 0 }
    }

    /// Counts a region that is done: one more if it was valid. An error ends
    /// the recovery.
    pub fn region_done<E>(self, outcome: Result<bool, E>) -> (r: Result<RecoveryTally, E>)
        requires
            self.recovered < usize::MAX,
        ensures
            r == counted(self, outcome),
            match outcome {
                Ok(valid) => r matches Ok(tally) && tally.recovered == self.recovered + if valid {
                    1int
                } else {
                    0int
                },
                Err(e) => r == Err::<RecoveryTally, E>(e),
            },
    {
        match outcome {
            Ok(valid) => if valid {
                Ok(RecoveryTally { recovered: self.recovered + 1 })
            } else {
                Ok(self)
            },
            Err(e) => Err(e),
        }
    }
}

/// What a lookup of `key` returns, if a load of a place returns what `disk`
/// says.
pub open spec fn lookup_outcome<K: Key, V: Value>(
    index: Map<K::V, Location>,
    disk: spec_fn(Location) -> Option<Seq<u8>>,
    key: K::V,
) -> Option<V::V> {
    if index.contains_key(key) {
        loaded_value::<V>(disk(index[key]))
    } else {
        None
    }
}

/// Whether a load of the place of each key returns an entry of that key, with
/// the value that `contents` gives it.
pub open spec fn holds<K: Key, V: Value>(
    index: Map<K::V, Location>,
    disk: spec_fn(Location) -> Option<Seq<u8>>,
    contents: Map<K::V, V::V>,
) -> bool {
    &&& index.dom() == contents.dom()
    &&& forall|key: K::V| #[trigger]
        index.contains_key(key) ==> holds_entry::<K, V>(disk(index[key]), key, contents[key])
}

/// Whether the loaded bytes are an entry of this key and value, whose lengths
/// fit in the `u32` that the footer keeps.
pub open spec fn holds_entry<K: Key, V: Value>(
    slice: Option<Seq<u8>>,
    key: K::V,
    value: V::V,
) -> bool {
    &&& slice matches Some(bytes)
    &&& is_entry(bytes, K::encode(key), V::encode(value))
    &&& K::encode(key).len() <= u32::MAX
    &&& V::encode(value).len() <= u32::MAX
}

/// The store is a map: a lookup returns the value that the contents give to
/// the key, and nothing for other keys. The bytes that it loads can be read.
pub proof fn law_lookup<K: Key, V: Value>(
    index: Map<K::V, Location>,
    disk: spec_fn(Location) -> Option<Seq<u8>>,
    contents: Map<K::V, V::V>,
    key: K::V,
)
    requires
        holds::<K, V>(index, disk, contents),
    ensures
        contents.contains_key(key) ==> lookup_outcome::<K, V>(index, disk, key) == Some(
            contents[key],
        ),
        !contents.contains_key(key) ==> lookup_outcome::<K, V>(index, disk, key) is None,
        index.contains_key(key) ==> entry_readable::<K, V>(disk(index[key])->0),
{
    if contents.contains_key(key) {
        assert(index.dom().contains(key));
        assert(index.contains_key(key));
        crate::entry::law_read_of_entry::<K, V>(key, contents[key], disk(index[key])->0);
    } else {
        assert(!index.dom().contains(key));
    }
}

/// An insert gives the key its new value and keeps the other keys as they are:
/// once the entry was written to its slot and the place published, provided
/// that the slot holds what was written and the places of the other keys still
/// hold what they held.
pub proof fn law_insert<K: Key, V: Value>(
    index: Map<K::V, Location>,
    disk: spec_fn(Location) -> Option<Seq<u8>>,
    contents: Map<K::V, V::V>,
    key: K::V,
    value: V::V,
    place: Location,
    buf: Seq<u8>,
    after: spec_fn(Location) -> Option<Seq<u8>>,
)
    requires
        holds::<K, V>(index, disk, contents),
        entry_fits(buf.len(), K::encode(key).len(), V::encode(value).len()),
        K::encode(key).len() <= u32::MAX,
        V::encode(value).len() <= u32::MAX,
        after(place) == Some(entry_bytes(K::encode(key), V::encode(value), buf)),
        forall|other: K::V| #[trigger]
            index.contains_key(other) && other != key ==> after(index[other]) == disk(index[other]),
    ensures
        holds::<K, V>(index.insert(key, place), after, contents.insert(key, value)),
        lookup_outcome::<K, V>(index.insert(key, place), after, key) == Some(value),
        forall|other: K::V| #[trigger]
            contents.contains_key(other) && other != key ==> lookup_outcome::<K, V>(
                index.insert(key, place),
                after,
                other,
            ) == Some(contents[other]),
{
    let new_index = index.insert(key, place);
    let new_contents = contents.insert(key, value);
    crate::entry::lemma_entry_bytes_is_entry(K::encode(key), V::encode(value), buf);
    assert(new_index.dom() =~= new_contents.dom());
    assert forall|k: K::V| #[trigger] new_index.contains_key(k) implies holds_entry::<K, V>(
        after(new_index[k]),
        k,
        new_contents[k],
    ) by {
        if k != key {
            assert(index.contains_key(k));
        }
    }
    law_lookup::<K, V>(new_index, after, new_contents, key);
    assert forall|other: K::V| #[trigger] contents.contains_key(other) && other
        != key implies lookup_outcome::<K, V>(new_index, after, other) == Some(contents[other]) by {
        law_lookup::<K, V>(new_index, after, new_contents, other);
    }
}

/// A removed key is not found any more, and the other keys keep their values.
pub proof fn law_remove<K: Key, V: Value>(
    index: Map<K::V, Location>,
    disk: spec_fn(Location) -> Option<Seq<u8>>,
    contents: Map<K::V, V::V>,
    key: K::V,
)
    requires
        holds::<K, V>(index, disk, contents),
    ensures
        holds::<K, V>(index.remove(key), disk, contents.remove(key)),
        lookup_outcome::<K, V>(index.remove(key), disk, key) is None,
{
    let new_index = index.remove(key);
    assert(new_index.dom() =~= contents.remove(key).dom());
    assert forall|k: K::V| #[trigger] new_index.contains_key(k) implies holds_entry::<K, V>(
        disk(new_index[k]),
        k,
        contents.remove(key)[k],
    ) by {
        assert(index.contains_key(k));
    }
}

/// A place whose bytes cannot be had any more, because its region has moved
/// on, or are damaged, is as good as none.
pub proof fn law_lost_entry<K: Key, V: Value>(
    index: Map<K::V, Location>,
    disk: spec_fn(Location) -> Option<Seq<u8>>,
    key: K::V,
)
    requires
        index.contains_key(key),
        disk(index[key]) matches Some(bytes) ==> !entry_intact(bytes),
    ensures
        lookup_outcome::<K, V>(index, disk, key) is None,
{
}

/// A complete region survives a restart: after its recovery, a lookup of each
/// key in it returns the value that was first written to the region under that
/// key, as long as its offset and length fit in `u32` and loads return the
/// bytes of the region.
pub proof fn law_lookup_after_recovery<K: Key, V: Value>(
    image: Seq<u8>,
    region: RegionId,
    align: int,
    pairs: Seq<(K::V, V::V)>,
    map: Map<K::V, Location>,
    disk: spec_fn(Location) -> Option<Seq<u8>>,
    i: int,
)
    requires
        align > 0,
        written::<K, V>(image, align, pairs),
        0 <= i < pairs.len(),
        forall|j: int| 0 <= j < i ==> (#[trigger] pairs[j]).0 != pairs[i].0,
        log_end::<K, V>(align, pairs.take(i)) <= u32::MAX,
        pair_slot_len::<K, V>(align, pairs[i]) <= u32::MAX,
        forall|place: Location|
            place.region == region && place.version == 0 && place.offset + place.len <= image.len()
                ==> #[trigger] disk(place) == Some(
                image.subrange(place.offset as int, place.offset + place.len),
            ),
    ensures
        lookup_outcome::<K, V>(
            record_all(map, log_indices::<K, V>(region, align, pairs)),
            disk,
            pairs[i].0,
        ) == Some(pairs[i].1),
{
    let place = pair_location::<K, V>(region, 0, align, pairs, i);
    crate::region_log::law_recovered_key::<K, V>(region, align, pairs, map, i);
    crate::region_log::law_place_of_pair::<K, V>(image, region, 0, align, pairs, i);
    crate::entry::law_read_of_entry::<K, V>(pairs[i].0, pairs[i].1, disk(place)->0);
}

/// The place that an insert records for an entry that it appends to a log is
/// where the recovery of that log will find it.
pub proof fn law_insert_place<K: Key, V: Value>(
    slot: Slot,
    align: int,
    pairs: Seq<(K::V, V::V)>,
    pair: (K::V, V::V),
)
    requires
        align > 0,
        slot.offset == log_end::<K, V>(align, pairs),
    ensures
        ({
            let key_len = K::encode(pair.0).len();
            let value_len = V::encode(pair.1).len();
            slot_location(slot, slot_len(align, key_len, value_len) as nat, key_len, value_len)
                == pair_location::<K, V>(
                slot.region,
                slot.version,
                align,
                pairs.push(pair),
                pairs.len() as int,
            )
        }),
{
    crate::region_log::lemma_slot_len(align, K::encode(pair.0).len(), V::encode(pair.1).len());
    assert(pairs.push(pair).take(pairs.len() as int) =~= pairs);
}

/// The index that an insert comes to can be published: the end of its place can
/// be computed if that of the slot can.
pub proof fn law_insert_publishable(slot: Slot, len: usize, key_len: nat, value_len: nat)
    requires
        slot.offset + len <= usize::MAX,
    ensures
        place_in_range(slot_location(slot, len as nat, key_len, value_len)),
{
    crate::recovery::lemma_truncated(slot.offset);
    crate::recovery::lemma_truncated(len);
}

/// The slot of a key and a value can be computed if and only if the least
/// number of whole blocks with room for them and a footer fits in a `usize`.
pub proof fn law_slot_in_range_iff<K: Key, V: Value, AP>(
    store: Store<K, V, AP>,
    key: K,
    value: V,
    len: int,
)
    requires
        store.align() > 0,
        len % store.align() as int == 0,
        K::encode(key@).len() + V::encode(value@).len() + 20 <= len,
        len < K::encode(key@).len() + V::encode(value@).len() + 20 + store.align(),
    ensures
        store.slot_in_range(key, value) <==> len <= usize::MAX,
{
    crate::region_log::law_slot_len_is(
        store.align() as int,
        K::encode(key@).len(),
        V::encode(value@).len(),
        len,
    );
}

/// The answer of the policy decides, whatever the entry: an insert is rejected
/// if and only if the answer is no, and otherwise asks for a slot for this key
/// and this value, of the least number of whole blocks that has room for them
/// and a footer.
pub proof fn law_answer_decides<K: Key, V: Value, AP: AdmissionPolicy<Key = K, Value = V>>(
    store: Store<K, V, AP>,
    key: K,
    value: V,
    admitted: bool,
)
    requires
        store.align() > 0,
        admitted ==> store.slot_in_range(key, value),
    ensures
        ({
            let step = store.judged_step(key, value, admitted);
            let len = K::encode(key@).len() + V::encode(value@).len() + 20;
            &&& step is Rejected <==> !admitted
            &&& step is Allocate <==> admitted
            &&& step matches InsertStep::Allocate(pending) ==> {
                &&& pending.key == key
                &&& pending.value == value
                &&& pending.size as int % store.align() as int == 0
                &&& len <= pending.size < len + store.align()
                &&& !pending.retried
            }
        }),
{
    crate::region_log::lemma_slot_len(
        store.align() as int,
        K::encode(key@).len(),
        V::encode(value@).len(),
    );
}

/// A policy that can only say no to this key with the length of this key and
/// this value keeps the entry out, and one that can only say yes lets it in.
pub proof fn law_policy_decides<K: Key, V: Value, AP: AdmissionPolicy<Key = K, Value = V>>(
    store: Store<K, V, AP>,
    key: K,
    value: V,
    answer: bool,
    step: InsertStep<K, V>,
)
    requires
        forall|admitted: bool| #[trigger]
            call_ensures(
                AP::judge,
                (
                    &store.admission(),
                    &key,
                    (K::encode(key@).len() + V::encode(value@).len()) as usize,
                ),
                admitted,
            ) ==> admitted == answer,
        call_ensures(Store::<K, V, AP>::insert, (&store, key, value), step),
    ensures
        step is Rejected <==> !answer,
        step is Allocate <==> answer,
        step matches InsertStep::Allocate(pending) ==> pending.key == key && pending.value == value,
{
}

/// What a lookup makes of the bytes of an entry: nothing if they are gone, or if
/// the hash of value and key is not the one in the last eight bytes, and
/// otherwise the value at their start.
pub proof fn law_loaded_value<V: Value>(bytes: Seq<u8>)
    requires
        bytes.len() >= 20,
        be_value(bytes.subrange(bytes.len() - 20, bytes.len() - 16)) + be_value(
            bytes.subrange(bytes.len() - 16, bytes.len() - 12),
        ) <= bytes.len(),
    ensures
        loaded_value::<V>(None) is None,
        ({
            let n = bytes.len() as int;
            let key_len = be_value(bytes.subrange(n - 20, n - 16)) as int;
            let value_len = be_value(bytes.subrange(n - 16, n - 12)) as int;
            let sum = xxhash64(0, bytes.subrange(0, value_len + key_len));
            loaded_value::<V>(Some(bytes)) == if sum == be_value(bytes.subrange(n - 8, n)) {
                Some(V::decode(bytes.subrange(0, value_len)))
            } else {
                None
            }
        }),
{
    crate::entry::law_footer_of(bytes);
    crate::entry::law_parts_of(bytes);
    crate::entry::law_intact_iff(bytes);
}

/// A lookup of a key without a place finds nothing, and one of a key with a
/// place finds what its bytes are made into.
pub proof fn law_lookup_outcome<K: Key, V: Value>(
    index: Map<K::V, Location>,
    disk: spec_fn(Location) -> Option<Seq<u8>>,
    key: K::V,
)
    ensures
        !index.contains_key(key) ==> lookup_outcome::<K, V>(index, disk, key) is None,
        index.contains_key(key) ==> lookup_outcome::<K, V>(index, disk, key) == loaded_value::<V>(
            disk(index[key]),
        ),
{
}

/// An entry whose value or key was damaged, so that their hash is another, is
/// not found: the lookup returns nothing, whatever its length.
pub proof fn law_damaged_entry_is_not_found<K: Key, V: Value>(
    index: Map<K::V, Location>,
    disk: spec_fn(Location) -> Option<Seq<u8>>,
    key: K::V,
    value: V::V,
    bytes: Seq<u8>,
    damaged: Seq<u8>,
)
    requires
        index.contains_key(key),
        holds_entry::<K, V>(Some(bytes), key, value),
        disk(index[key]) == Some(damaged),
        damaged.len() == bytes.len(),
        damaged.skip(bytes.len() - 20) == bytes.skip(bytes.len() - 20),
        xxhash64(
            0,
            damaged.subrange(0, (V::encode(value).len() + K::encode(key).len()) as int),
        ) != xxhash64(0, V::encode(value) + K::encode(key)),
    ensures
        lookup_outcome::<K, V>(index, disk, key) is None,
{
    crate::entry::law_damage_is_noticed(bytes, K::encode(key), V::encode(value), damaged);
}

/// What a place consists of, when an insert records it.
pub proof fn law_slot_location(slot: Slot, len: nat, key_len: nat, value_len: nat)
    ensures
        ({
            let place = slot_location(slot, len, key_len, value_len);
            &&& place.region == slot.region
            &&& place.version == slot.version
            &&& place.offset == slot.offset as u32
            &&& place.len == len as u32
            &&& place.key_len == key_len as u32
            &&& place.value_len == value_len as u32
            &&& place_in_range(place) <==> slot.offset as u32 + len as u32 <= usize::MAX
        }),
{
}

/// An insert can go on with a slot if and only if value, key and footer have
/// room in it, also once the lengths are cut down to a `u32`, and with a full
/// region if and only if that was the first and has room for its footer.
pub proof fn law_pending_ready_iff<K: Key, V: Value>(
    pending: PendingInsert<K, V>,
    result: AllocateResult,
    buf: Seq<u8>,
)
    ensures
        match result {
            AllocateResult::Allocated(_) => {
                let key_len = K::encode(pending.key@).len();
                let value_len = V::encode(pending.value@).len();
                pending.ready(result, buf) <==> {
                    &&& key_len + value_len + 20 <= buf.len()
                    &&& (key_len as u32) + (value_len as u32) + 20 <= buf.len() as u32
                }
            },
            AllocateResult::Full { .. } => pending.ready(result, buf) <==> !pending.retried
                && buf.len() >= 16,
        },
{
    crate::entry::law_fits_iff(
        buf.len(),
        K::encode(pending.key@).len(),
        V::encode(pending.value@).len(),
    );
}

/// A region that is done adds one to the tally if it is valid and nothing if it
/// is not, and an error ends the recovery as it is.
pub proof fn law_counted<E>(tally: RecoveryTally, outcome: Result<bool, E>)
    requires
        tally.recovered < usize::MAX,
    ensures
        match outcome {
            Ok(valid) => counted(tally, outcome) matches Ok(next) && next.recovered
                == tally.recovered + if valid {
                1int
            } else {
                0int
            },
            Err(e) => counted(tally, outcome) == Err::<RecoveryTally, E>(e),
        },
{
}

/// The end of a place can be computed if and only if offset and length add up
/// in a `usize`.
pub proof fn law_place_in_range_iff(place: Location)
    ensures
        place_in_range(place) <==> place.offset + place.len <= usize::MAX,
{
}

/// A value is seen as its model, and as nothing only if there is no value.
pub proof fn law_view_of<V: Value>(value: Option<V>)
    ensures
        value is None ==> view_of(value) is None,
        value matches Some(v) ==> view_of(value) == Some(v@),
{
}

} // verus!
