use foyer_storage::admission::{ask, AdmissionPolicy};
use foyer_storage::code::Code;
use foyer_storage::config::{DeviceInfo, StoreConfig};
use foyer_storage::device_recovery::start_all;
use foyer_storage::entry::{can_read_entry, write_entry};
use foyer_storage::footer::{EntryFooter, RegionFooter, REGION_MAGIC};
use foyer_storage::indices::Indices;
use foyer_storage::recovery::{RecoveryAction, RegionRecovery};
use foyer_storage::region_iter::{EntryStep, RegionEntryIter};
use foyer_storage::store::{
    AllocateResult, InsertStep, LoadRequest, Opened, RecoveryTally, Slot, Store,
};

const ALIGN: usize = 64;
const REGION_SIZE: usize = 1024;

/// Lets in keys below a limit.
#[derive(Debug)]
struct Below(u64);

impl AdmissionPolicy for Below {
    type Key = u64;
    type Value = Vec<u8>;
    type Metrics = ();

    fn judge(&self, key: &u64, _weight: usize) -> bool {
        *key < self.0
    }

    fn on_insert(&self, _key: &u64, _weight: usize, _judge: bool) {}

    fn on_drop(&self, _key: &u64, _weight: usize, _judge: bool) {}
}

/// Lets in entries of up to a number of bytes.
#[derive(Debug)]
struct UpTo(usize);

impl AdmissionPolicy for UpTo {
    type Key = u64;
    type Value = Vec<u8>;
    type Metrics = ();

    fn judge(&self, _key: &u64, weight: usize) -> bool {
        weight <= self.0
    }

    fn on_insert(&self, _key: &u64, _weight: usize, _judge: bool) {}

    fn on_drop(&self, _key: &u64, _weight: usize, _judge: bool) {}
}

fn open<AP>(admission: AP) -> Opened<u64, Vec<u8>, AP, &'static str, u8> {
    let (path, opening) = Store::<u64, Vec<u8>, AP>::open(StoreConfig {
        eviction_config: "fifo",
        device_config: "/dev/cache",
        admission,
        reinsertion: 4u8,
        buffer_pool_size: 5000,
        flushers: 2,
        reclaimers: 3,
        recover_concurrency: 8,
    });
    assert_eq!(path, "/dev/cache");
    opening.device_opened(&DeviceInfo {
        align: ALIGN,
        region_size: REGION_SIZE,
        regions: 4,
    })
}

/// Regions in memory, filled one after the other. The last block of each is
/// kept for its footer.
struct Disk {
    regions: Vec<Vec<u8>>,
    current: usize,
    len: usize,
}

impl Disk {
    fn new(regions: usize) -> Disk {
        Disk {
            regions: vec![vec![0; REGION_SIZE]; regions],
            current: 0,
            len: 0,
        }
    }

    fn allocate(&mut self, size: usize) -> (AllocateResult, &mut [u8]) {
        let start = self.len;
        if start + size + ALIGN > REGION_SIZE {
            let region = self.current;
            self.current += 1;
            self.len = 0;
            let remain = REGION_SIZE - start;
            (
                AllocateResult::Full { remain },
                &mut self.regions[region][start..],
            )
        } else {
            self.len += size;
            let slot = Slot {
                region: self.current as u32,
                version: 0,
                offset: start,
            };
            (
                AllocateResult::Allocated(slot),
                &mut self.regions[self.current][start..start + size],
            )
        }
    }

    fn load(&self, request: &LoadRequest) -> &[u8] {
        &self.regions[request.region as usize][request.start..request.end]
    }
}

fn insert<AP>(store: &mut Store<u64, Vec<u8>, AP>, disk: &mut Disk, key: u64, value: &[u8]) -> bool
where
    AP: AdmissionPolicy<Key = u64, Value = Vec<u8>>,
{
    let value = value.to_vec();
    assert!(store.accepts(&key, &value));
    let mut step = store.insert(key, value);
    loop {
        step = match step {
            InsertStep::Rejected => return false,
            InsertStep::Allocate(pending) => {
                let (result, buf) = disk.allocate(pending.size);
                assert!(pending.accepts(&result, buf));
                pending.allocated(result, buf)
            }
            InsertStep::Publish(index) => return store.publish(index),
        }
    }
}

fn lookup<AP>(store: &Store<u64, Vec<u8>, AP>, disk: &Disk, key: u64) -> Option<Vec<u8>> {
    let request = store.lookup(&key)?;
    let bytes = disk.load(&request);
    assert!(can_read_entry::<u64, Vec<u8>>(bytes));
    Store::<u64, Vec<u8>, AP>::finish_lookup(Some(bytes))
}

/// Runs the recovery of a region, and tells whether it was valid and how many
/// loads it took.
fn recover<AP>(store: &mut Store<u64, Vec<u8>, AP>, disk: &Disk, region: u32) -> (bool, usize) {
    let mut recovery = RegionRecovery::new(region, REGION_SIZE, ALIGN);
    let mut loads = 0;
    loop {
        match recovery.action() {
            RecoveryAction::Load { region, start, end } => {
                loads += 1;
                let bytes = Some(&disk.regions[region as usize][start..end]);
                assert!(recovery.accepts::<u64>(bytes));
                recovery = store.recover_region(recovery, bytes);
            }
            RecoveryAction::SetEvictable(r) => {
                assert_eq!(r, region);
                return (true, loads);
            }
            RecoveryAction::Release(r) => {
                assert_eq!(r, region);
                return (false, loads);
            }
        }
    }
}

#[test]
fn open_plans_what_is_around_the_store() {
    let opened = open(Below(10));
    assert_eq!(opened.eviction_config, "fifo");
    assert_eq!(opened.reinsertion, 4);
    assert_eq!(opened.buffers.count, 4);
    assert_eq!(opened.buffers.len, REGION_SIZE);
    assert_eq!(opened.buffers.capacity, REGION_SIZE);
    assert_eq!(opened.regions, 4);
    assert_eq!(opened.recover_regions, 4);
    assert_eq!(opened.flushers, 2);
    assert_eq!(opened.reclaimers, 3);
    assert_eq!(opened.recover_concurrency, 8);
    assert!(opened.store.lookup(&1).is_none());
}

#[test]
fn slots_are_whole_blocks() {
    let store = open(Below(10)).store;
    // eight bytes of key, twenty of footer
    assert_eq!(store.serialized_len(&1, &vec![]), 64);
    assert_eq!(store.serialized_len(&1, &vec![0; 36]), 64);
    assert_eq!(store.serialized_len(&1, &vec![0; 37]), 128);
}

#[test]
fn lookup_returns_what_was_inserted() {
    let mut store = open(Below(10)).store;
    let mut disk = Disk::new(4);
    assert!(insert(&mut store, &mut disk, 1, b"one"));
    assert!(insert(&mut store, &mut disk, 2, b"two"));
    assert_eq!(lookup(&store, &disk, 1), Some(b"one".to_vec()));
    assert_eq!(lookup(&store, &disk, 2), Some(b"two".to_vec()));
    assert_eq!(lookup(&store, &disk, 3), None);
}

#[test]
fn insert_overwrites() {
    let mut store = open(Below(10)).store;
    let mut disk = Disk::new(4);
    insert(&mut store, &mut disk, 1, b"one");
    insert(&mut store, &mut disk, 2, b"two");
    insert(&mut store, &mut disk, 1, b"another");
    assert_eq!(lookup(&store, &disk, 1), Some(b"another".to_vec()));
    assert_eq!(lookup(&store, &disk, 2), Some(b"two".to_vec()));
}

#[test]
fn removed_key_is_not_found() {
    let mut store = open(Below(10)).store;
    let mut disk = Disk::new(4);
    insert(&mut store, &mut disk, 1, b"one");
    insert(&mut store, &mut disk, 2, b"two");
    store.remove(&1);
    store.remove(&7);
    assert_eq!(lookup(&store, &disk, 1), None);
    assert_eq!(lookup(&store, &disk, 2), Some(b"two".to_vec()));
}

#[test]
fn rejected_entries_are_not_inserted() {
    let mut store = open(Below(10)).store;
    let mut disk = Disk::new(4);
    assert!(!insert(&mut store, &mut disk, 10, b"ten"));
    assert_eq!(disk.len, 0);
    assert_eq!(lookup(&store, &disk, 10), None);
}

#[test]
fn policy_sees_the_bytes_of_key_and_value() {
    let mut store = open(UpTo(12)).store;
    let mut disk = Disk::new(4);
    assert!(insert(&mut store, &mut disk, 1, b"four"));
    assert!(!insert(&mut store, &mut disk, 2, b"fives"));
}

#[test]
fn judged_insert_follows_the_verdict() {
    let store = open(Below(10)).store;
    assert!(matches!(
        store.insert_judged(99, b"x".to_vec(), true),
        InsertStep::Allocate(pending) if pending.key == 99 && pending.size == 64 && !pending.retried
    ));
    assert!(matches!(
        store.insert_judged(1, b"x".to_vec(), false),
        InsertStep::Rejected
    ));
}

#[test]
fn published_index_describes_the_slot() {
    let store = open(Below(10)).store;
    let pending = match store.insert_judged(5, b"value".to_vec(), true) {
        InsertStep::Allocate(pending) => pending,
        _ => panic!(),
    };
    let mut buf = vec![0; 64];
    let slot = Slot {
        region: 3,
        version: 7,
        offset: 640,
    };
    let index = match pending.allocated(AllocateResult::Allocated(slot), &mut buf) {
        InsertStep::Publish(index) => index,
        _ => panic!(),
    };
    assert_eq!(
        (index.key, index.region, index.version, index.offset, index.len, index.key_len, index.value_len),
        (5, 3, 7, 640, 64, 8, 5)
    );
    let mut expected = vec![0; 64];
    write_entry(&mut expected, &5u64, &b"value".to_vec());
    assert_eq!(buf, expected);
}

#[test]
fn full_region_gets_a_footer_and_the_insert_goes_on() {
    let store = open(Below(10)).store;
    let pending = match store.insert_judged(5, b"value".to_vec(), true) {
        InsertStep::Allocate(pending) => pending,
        _ => panic!(),
    };
    let mut rest = vec![9; 128];
    let full = AllocateResult::Full { remain: 128 };
    let pending = match pending.allocated(full, &mut rest) {
        InsertStep::Allocate(pending) => pending,
        _ => panic!(),
    };
    assert_eq!(&rest[..112], &[9; 112]);
    assert_eq!(
        RegionFooter::read(&rest),
        RegionFooter {
            magic: REGION_MAGIC,
            padding: 128
        }
    );
    assert!(pending.retried);
    assert_eq!((pending.key, pending.size), (5, 64));
    assert!(!pending.accepts(&full, &rest));
}

#[test]
fn slots_that_are_too_short_are_not_accepted() {
    let store = open(Below(10)).store;
    let pending = match store.insert_judged(5, b"value".to_vec(), true) {
        InsertStep::Allocate(pending) => pending,
        _ => panic!(),
    };
    let slot = AllocateResult::Allocated(Slot {
        region: 0,
        version: 0,
        offset: 0,
    });
    assert!(!pending.accepts(&slot, &[0; 32]));
    assert!(pending.accepts(&slot, &[0; 33]));
    assert!(!pending.accepts(&AllocateResult::Full { remain: 15 }, &[0; 15]));
    assert!(pending.accepts(&AllocateResult::Full { remain: 16 }, &[0; 16]));
}

#[test]
fn lookup_asks_for_the_slot() {
    let mut store = open(Below(10)).store;
    let mut disk = Disk::new(4);
    insert(&mut store, &mut disk, 1, b"one");
    insert(&mut store, &mut disk, 2, &[7; 100]);
    assert_eq!(
        store.lookup(&2),
        Some(LoadRequest {
            region: 0,
            version: 0,
            start: 64,
            end: 192
        })
    );
}

#[test]
fn lost_or_damaged_entries_are_not_found() {
    let mut store = open(Below(10)).store;
    let mut disk = Disk::new(4);
    insert(&mut store, &mut disk, 1, b"one");
    assert_eq!(Store::<u64, Vec<u8>, Below>::finish_lookup(None), None);
    disk.regions[0][0] ^= 1;
    assert_eq!(lookup(&store, &disk, 1), None);
}

#[test]
fn full_region_survives_a_restart() {
    let mut store = open(Below(1000)).store;
    let mut disk = Disk::new(4);
    // lengths that put keys into the last block, before it, and across
    let values: Vec<Vec<u8>> = (0..6u8)
        .map(|i| vec![i; [0, 36, 40, 60, 130, 200][i as usize]])
        .collect();
    for (key, value) in values.iter().enumerate() {
        assert!(insert(&mut store, &mut disk, key as u64, value));
    }
    // does not fit any more: closes the first region
    assert!(insert(&mut store, &mut disk, 100, &[1; 400]));
    assert_eq!(disk.current, 1);

    let mut restarted = open(Below(1000)).store;
    let (valid, _) = recover(&mut restarted, &disk, 0);
    assert!(valid);
    for (key, value) in values.iter().enumerate() {
        assert_eq!(restarted.lookup(&(key as u64)), store.lookup(&(key as u64)));
        assert_eq!(
            lookup(&restarted, &disk, key as u64),
            Some(value.clone())
        );
    }
    // the region that it went to is not complete
    assert_eq!(recover(&mut restarted, &disk, 1), (false, 1));
    assert_eq!(lookup(&restarted, &disk, 100), None);
}

#[test]
fn recovery_loads_keys_apart_only_where_needed() {
    let mut store = open(Below(1000)).store;
    let mut disk = Disk::new(4);
    // key in the same block as the footer
    insert(&mut store, &mut disk, 1, b"short");
    // key of the second entry lies in the block before the footer
    insert(&mut store, &mut disk, 2, &[0; 50]);
    insert(&mut store, &mut disk, 3, &[0; 900]);
    let mut restarted = open(Below(1000)).store;
    // footer block, two entry blocks, one key
    assert_eq!(recover(&mut restarted, &disk, 0), (true, 4));
    assert_eq!(lookup(&restarted, &disk, 1), Some(b"short".to_vec()));
    assert_eq!(lookup(&restarted, &disk, 2), Some(vec![0; 50]));
}

#[test]
fn recovery_keeps_the_first_of_repeated_keys() {
    let mut store = open(Below(1000)).store;
    let mut disk = Disk::new(4);
    insert(&mut store, &mut disk, 1, b"old");
    insert(&mut store, &mut disk, 1, b"new");
    insert(&mut store, &mut disk, 2, &[0; 900]);
    assert_eq!(lookup(&store, &disk, 1), Some(b"new".to_vec()));
    let mut restarted = open(Below(1000)).store;
    recover(&mut restarted, &disk, 0);
    assert_eq!(lookup(&restarted, &disk, 1), Some(b"old".to_vec()));
}

#[test]
fn complete_region_without_entries_is_valid() {
    let mut disk = Disk::new(1);
    RegionFooter {
        magic: REGION_MAGIC,
        padding: REGION_SIZE as u64,
    }
    .write(&mut disk.regions[0]);
    let mut store = open(Below(1000)).store;
    assert_eq!(recover(&mut store, &disk, 0), (true, 1));
}

#[test]
fn missing_last_block_means_vacant() {
    let mut indices = Indices::<u64>::new();
    let recovery = RegionRecovery::new(5, REGION_SIZE, ALIGN);
    assert_eq!(
        recovery.action(),
        RecoveryAction::Load {
            region: 5,
            start: 960,
            end: 1024
        }
    );
    assert!(recovery.accepts::<u64>(None));
    let recovery = recovery.loaded(None, &mut indices);
    assert_eq!(recovery, RegionRecovery::Vacant(5));
    assert_eq!(recovery.action(), RecoveryAction::Release(5));
    assert!(!recovery.accepts::<u64>(None));
}

#[test]
fn implausible_footers_are_not_accepted() {
    let recovery = RegionRecovery::new(0, REGION_SIZE, ALIGN);
    let mut block = vec![0; ALIGN];
    RegionFooter {
        magic: REGION_MAGIC,
        padding: 1025,
    }
    .write(&mut block);
    assert!(!recovery.accepts::<u64>(Some(&block)));
    RegionFooter {
        magic: REGION_MAGIC,
        padding: 961,
    }
    .write(&mut block);
    assert!(!recovery.accepts::<u64>(Some(&block)));
    RegionFooter {
        magic: 1,
        padding: 1025,
    }
    .write(&mut block);
    assert!(recovery.accepts::<u64>(Some(&block)));
    assert!(!recovery.accepts::<u64>(Some(&block[..15])));

    let iter = RegionEntryIter {
        region: 0,
        align: ALIGN,
        cursor: 128,
    };
    for (key_len, value_len, padding, ok) in [
        (8, 10, 26, true),
        (8, 10, 90, true),
        (8, 10, 91, false),
        (8, 10, 27, false),
        (8, u32::MAX, 1, false),
        (7, 11, 26, false),
    ] {
        EntryFooter {
            key_len,
            value_len,
            padding,
            checksum: 0,
        }
        .write(&mut block[44..]);
        assert_eq!(iter.accepts_block::<u64>(&block), ok);
    }
}

#[test]
fn iteration_opens_at_the_padding() {
    let mut block = vec![0; ALIGN];
    assert_eq!(RegionEntryIter::footer_range(1024, 64), (960, 1024));
    assert!(RegionEntryIter::open(1, 1024, 64, Some(&block)).is_none());
    assert!(RegionEntryIter::open(1, 1024, 64, None).is_none());
    RegionFooter {
        magic: REGION_MAGIC,
        padding: 256,
    }
    .write(&mut block);
    let iter = RegionEntryIter::open(1, 1024, 64, Some(&block)).unwrap();
    assert_eq!((iter.region, iter.align, iter.cursor), (1, 64, 768));
    assert_eq!(iter.block_range(), Some((704, 768)));
    let done = RegionEntryIter { cursor: 0, ..iter };
    assert_eq!(done.block_range(), None);
}

#[test]
fn iteration_takes_a_key_from_the_block_of_the_footer() {
    let mut entry = vec![0; 64];
    write_entry(&mut entry, &77u64, &b"abc".to_vec());
    let mut iter = RegionEntryIter {
        region: 9,
        align: 64,
        cursor: 192,
    };
    let index = match iter.next::<u64>(&entry) {
        EntryStep::Entry(index) => index,
        _ => panic!(),
    };
    assert_eq!(
        (index.key, index.region, index.version, index.offset, index.len, index.key_len, index.value_len),
        (77, 9, 0, 128, 64, 8, 3)
    );
    assert_eq!(iter.cursor, 128);
}

#[test]
fn iteration_asks_for_the_blocks_of_a_key() {
    // key from 60 to 68: across two blocks
    let mut entry = vec![0; 128];
    write_entry(&mut entry, &77u64, &vec![1; 60]);
    let mut iter = RegionEntryIter {
        region: 9,
        align: 64,
        cursor: 192,
    };
    let footer = match iter.next::<u64>(&entry[64..]) {
        EntryStep::LoadKey { start, end, footer } => {
            assert_eq!((start, end), (64, 192));
            footer
        }
        _ => panic!(),
    };
    assert_eq!(iter.cursor, 192);
    assert_eq!(iter.key_range(&footer), (64, 192));
    assert!(iter.accepts_key::<u64>(&footer, &entry));
    assert!(!iter.accepts_key::<u64>(&footer, &entry[1..]));
    let index = iter.next_with_key::<u64>(footer, &entry);
    assert_eq!((index.key, index.offset, index.len), (77, 64, 128));
    assert_eq!(iter.cursor, 64);
}

#[test]
fn tally_counts_valid_regions() {
    let mut tally = RecoveryTally::new();
    for valid in [true, false, true, true] {
        tally = tally.region_done::<u8>(Ok(valid)).unwrap();
    }
    assert_eq!(tally.recovered, 3);
}

#[test]
fn first_error_ends_the_recovery() {
    let mut result = Ok(RecoveryTally::new());
    for outcome in [Ok(true), Err("first"), Ok(true), Err("second")] {
        result = match result {
            Ok(tally) => RecoveryTally::region_done(tally, outcome),
            Err(e) => Err(e),
        };
    }
    assert_eq!(result, Err("first"));
}

#[test]
fn number_keys_fill_their_slot() {
    let mut buf = vec![0; 8];
    1u64.write(&mut buf);
    assert_eq!(buf, vec![0, 0, 0, 0, 0, 0, 0, 1]);
}

#[test]
fn every_region_is_started_once() {
    let recoveries = start_all(3, REGION_SIZE, ALIGN);
    assert_eq!(recoveries.len(), 3);
    for (region, recovery) in recoveries.iter().enumerate() {
        assert_eq!(
            *recovery,
            RegionRecovery::Opening {
                region: region as u32,
                region_size: REGION_SIZE,
                align: ALIGN
            }
        );
    }
    assert!(start_all(0, 0, 0).is_empty());
}

#[test]
fn device_survives_a_restart_in_any_order_of_loads() {
    let mut store = open(Below(1000)).store;
    let mut disk = Disk::new(4);
    let value = |key: u64| vec![key as u8; 30 * (key as usize % 7)];
    let mut key = 0;
    while disk.current < 3 {
        assert!(insert(&mut store, &mut disk, key, &value(key)));
        key += 1;
    }
    for stride in [1, 3] {
        let mut restarted = open(Below(1000)).store;
        let mut recoveries = start_all(4, REGION_SIZE, ALIGN);
        let mut done = vec![None; 4];
        let mut turn = 0;
        while done.contains(&None) {
            let at = turn * stride % 4;
            turn += 1;
            match recoveries[at].action() {
                RecoveryAction::Load { region, start, end } => {
                    assert_eq!(region, at as u32);
                    let bytes = Some(&disk.regions[at][start..end]);
                    assert!(recoveries[at].accepts::<u64>(bytes));
                    recoveries[at] = restarted.recover_region(recoveries[at], bytes);
                }
                action => done[at] = Some(action),
            }
        }
        assert_eq!(
            done,
            vec![
                Some(RecoveryAction::SetEvictable(0)),
                Some(RecoveryAction::SetEvictable(1)),
                Some(RecoveryAction::SetEvictable(2)),
                Some(RecoveryAction::Release(3)),
            ]
        );
        // the last insert closed the third region and went to the fourth
        for k in 0..key - 1 {
            assert_eq!(lookup(&restarted, &disk, k), Some(value(k)));
        }
        assert_eq!(lookup(&restarted, &disk, key - 1), None);
        // and goes on from there
        assert!(insert(&mut restarted, &mut disk, 500, b"new"));
        restarted.remove(&0);
        assert_eq!(lookup(&restarted, &disk, 500), Some(b"new".to_vec()));
        assert_eq!(lookup(&restarted, &disk, 0), None);
        assert_eq!(lookup(&restarted, &disk, 1), Some(value(1)));
    }
}

#[test]
fn asking_a_policy_hands_it_key_and_weight() {
    assert!(ask(&Below(10), &9, &vec![]));
    assert!(!ask(&Below(10), &10, &vec![]));
    assert!(ask(&UpTo(12), &10, &vec![0; 4]));
    assert!(!ask(&UpTo(12), &10, &vec![0; 5]));
}

#[test]
fn repeated_keys_are_found_after_a_restart() {
    let mut store = open(Below(1000)).store;
    let mut disk = Disk::new(4);
    // key 1 three times in the first region, once in the second
    insert(&mut store, &mut disk, 1, b"first");
    insert(&mut store, &mut disk, 1, b"second");
    insert(&mut store, &mut disk, 2, &[0; 740]);
    insert(&mut store, &mut disk, 1, b"third");
    assert_eq!(disk.current, 0);
    insert(&mut store, &mut disk, 3, &[0; 740]);
    assert_eq!(disk.current, 1);
    insert(&mut store, &mut disk, 1, b"fourth");
    insert(&mut store, &mut disk, 4, &[0; 740]);
    assert_eq!(disk.current, 2);
    for (order, expected) in [([0, 1], "fourth"), ([1, 0], "first")] {
        let mut restarted = open(Below(1000)).store;
        for region in order {
            assert!(recover(&mut restarted, &disk, region).0);
        }
        assert_eq!(
            lookup(&restarted, &disk, 1),
            Some(expected.as_bytes().to_vec())
        );
        assert_eq!(lookup(&restarted, &disk, 3), Some(vec![0; 740]));
    }
}

#[test]
fn log_may_reach_into_the_last_block() {
    // three blocks of forty bytes, and sixteen bytes for the footer
    let mut region = vec![0; 136];
    for key in 0..3u64 {
        let at = key as usize * 40;
        write_entry(&mut region[at..at + 40], &key, &vec![key as u8; 12]);
    }
    RegionFooter {
        magic: REGION_MAGIC,
        padding: 16,
    }
    .write(&mut region[120..]);
    let mut indices = Indices::<u64>::new();
    let mut recovery = RegionRecovery::new(0, 136, 40);
    while let RecoveryAction::Load { start, end, .. } = recovery.action() {
        assert!(recovery.accepts::<u64>(Some(&region[start..end])));
        recovery = recovery.loaded(Some(&region[start..end]), &mut indices);
    }
    assert_eq!(recovery, RegionRecovery::Recovered(0));
    for key in 0..3u64 {
        assert_eq!(indices.lookup(&key).unwrap().offset, key as u32 * 40);
    }
}
