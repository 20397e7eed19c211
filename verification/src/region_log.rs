//! What a region holds, as a whole: the log of entries that inserts append to
//! it, and what recovery makes of it.

use crate::bits::{aligned_down, aligned_up};
use crate::buf::be_value;
use crate::code::{Key, Value};
use crate::entry::{entry_bytes, entry_fits, footer_of, is_entry};
use crate::footer::{EntryFooter, RegionFooter, ENTRY_FOOTER_LEN, REGION_FOOTER_LEN, REGION_MAGIC};
use crate::indices::{Location, RegionId, Version};
use crate::recovery::{recorded, RecoveryAction, RegionRecovery};
use crate::region_iter::{
    entry_len, entry_location, footer_plausible, key_end, key_in_block, key_of_block,
    key_of_blocks, key_start, region_complete, RegionEntryIter,
};
use vstd::prelude::*;

verus! {

/// The entry footer that ends at `cursor`.
pub open spec fn footer_at(image: Seq<u8>, cursor: int) -> EntryFooter {
    EntryFooter::parse(image.subrange(cursor - ENTRY_FOOTER_LEN, cursor))
}

/// The key of the entry that ends at `cursor`, and where the entry stands.
pub open spec fn entry_at<K: Key>(image: Seq<u8>, region: RegionId, cursor: int) -> (
    K::V,
    Location,
) {
    let footer = footer_at(image, cursor);
    (
        K::decode(image.subrange(key_start(cursor, footer), key_end(cursor, footer))),
        entry_location(region, cursor, footer),
    )
}

/// The entries of a region from the one that ends at `cursor` to the first.
pub open spec fn scan<K: Key>(image: Seq<u8>, region: RegionId, cursor: int) -> Seq<
    (K::V, Location),
>
    decreases cursor,
{
    let footer = footer_at(image, cursor);
    if cursor <= 0 || !footer_plausible(cursor, footer) {
        Seq::empty()
    } else {
        seq![entry_at::<K>(image, region, cursor)] + scan::<K>(
            image,
            region,
            cursor - entry_len(footer),
        )
    }
}

/// What is recorded once the entries were recorded, in order, on top of `map`.
pub open spec fn record_all<KV>(map: Map<KV, Location>, entries: Seq<(KV, Location)>) -> Map<
    KV,
    Location,
>
    decreases entries.len(),
{
    if entries.len() == 0 {
        map
    } else {
        record_all(map.insert(entries[0].0, entries[0].1), entries.skip(1))
    }
}

/// The last block of a region.
pub open spec fn last_block(image: Seq<u8>, align: int) -> Seq<u8> {
    image.subrange(image.len() - align, image.len() as int)
}

/// Where the walk over a region starts, as its footer says.
pub open spec fn log_cursor(image: Seq<u8>, align: int) -> int {
    image.len() - (RegionFooter::parse(last_block(image, align)).padding as usize)
}

/// Whether `recovery` is at work on the region with these contents.
pub open spec fn tracks(recovery: RegionRecovery, image: Seq<u8>) -> bool {
    match recovery {
        RegionRecovery::Opening { region_size, .. } => region_size == image.len(),
        RegionRecovery::Block(iter) => iter.cursor <= image.len(),
        RegionRecovery::KeyBlocks(iter, footer) => {
            &&& ENTRY_FOOTER_LEN <= iter.cursor <= image.len()
            &&& footer == footer_at(image, iter.cursor as int)
        },
        _ => true,
    }
}

/// The bytes that `recovery` asks for.
pub open spec fn requested(recovery: RegionRecovery, image: Seq<u8>) -> Seq<u8> {
    image.subrange(recovery.range().0, recovery.range().1)
}

/// What will be recorded once `recovery` is over, if `map` is recorded now.
pub open spec fn outcome<K: Key>(
    recovery: RegionRecovery,
    image: Seq<u8>,
    map: Map<K::V, Location>,
) -> Map<K::V, Location> {
    match recovery {
        RegionRecovery::Opening { region, align, .. } => if region_complete(
            last_block(image, align as int),
        ) {
            record_all(map, scan::<K>(image, region, log_cursor(image, align as int)))
        } else {
            map
        },
        RegionRecovery::Block(iter) => record_all(
            map,
            scan::<K>(image, iter.region, iter.cursor as int),
        ),
        RegionRecovery::KeyBlocks(iter, _) => record_all(
            map,
            scan::<K>(image, iter.region, iter.cursor as int),
        ),
        _ => map,
    }
}

/// Whether the region will turn out valid.
pub open spec fn will_be_valid(recovery: RegionRecovery, image: Seq<u8>) -> bool {
    match recovery {
        RegionRecovery::Opening { align, .. } => region_complete(last_block(image, align as int)),
        RegionRecovery::Vacant(_) => false,
        _ => true,
    }
}

/// A bound on the number of loads that are still needed.
pub open spec fn loads_left(recovery: RegionRecovery) -> nat {
    match recovery {
        RegionRecovery::Opening { region_size, .. } => (2 * region_size + 2) as nat,
        RegionRecovery::Block(iter) => (2 * iter.cursor + 1) as nat,
        RegionRecovery::KeyBlocks(iter, _) => (2 * iter.cursor) as nat,
        _ => 0,
    }
}

/// Each load brings the recovery of a region forward without changing where it
/// is heading: what will be recorded at the end is every entry of the region,
/// from the last to the first, on top of what was recorded before, and it
/// ends after finitely many loads. Whether a key is read from the block of the
/// footer or from blocks of its own makes no difference.
pub proof fn law_recovery_step<K: Key>(
    recovery: RegionRecovery,
    image: Seq<u8>,
    map: Map<K::V, Location>,
)
    requires
        recovery.wf(),
        !recovery.is_done(),
        tracks(recovery, image),
        recovery.range().1 <= image.len(),
        recovery.ready::<K>(Some(requested(recovery, image))),
    ensures
        ({
            let slice = Some(requested(recovery, image));
            let next = recovery.after(slice);
            &&& next.wf()
            &&& tracks(next, image)
            &&& next.region() == recovery.region()
            &&& outcome::<K>(next, image, recorded(map, recovery.taken::<K>(slice))) == outcome::<
                K,
            >(recovery, image, map)
            &&& will_be_valid(next, image) == will_be_valid(recovery, image)
            &&& loads_left(next) < loads_left(recovery)
        }),
{
    let bytes = requested(recovery, image);
    match recovery {
        RegionRecovery::Opening { region, region_size, align } => {
            assert(bytes =~= last_block(image, align as int));
            if region_complete(bytes) && log_cursor(image, align as int) == 0 {
                assert(scan::<K>(image, region, 0) =~= Seq::empty());
            }
        },
        RegionRecovery::Block(iter) => {
            let cursor = iter.cursor as int;
            let footer = footer_at(image, cursor);
            assert(bytes.skip(bytes.len() - ENTRY_FOOTER_LEN) =~= image.subrange(
                cursor - ENTRY_FOOTER_LEN,
                cursor,
            ));
            assert(footer_of(bytes) == footer);
            if key_in_block(iter.align as int, cursor, footer) {
                crate::bits::lemma_aligned_down(iter.align as int, key_start(cursor, footer));
                assert(key_of_block(bytes, footer) =~= image.subrange(
                    key_start(cursor, footer),
                    key_end(cursor, footer),
                ));
                lemma_scan_step::<K>(image, iter.region, cursor, map);
            }
        },
        RegionRecovery::KeyBlocks(iter, footer) => {
            let align = iter.align as int;
            let cursor = iter.cursor as int;
            crate::bits::lemma_aligned_down(align, key_start(cursor, footer));
            crate::bits::lemma_aligned_up(align, key_end(cursor, footer));
            assert(key_of_blocks(align, cursor, footer, bytes) =~= image.subrange(
                key_start(cursor, footer),
                key_end(cursor, footer),
            ));
            lemma_scan_step::<K>(image, iter.region, cursor, map);
        },
        _ => {},
    }
}

/// Recording the entries from `cursor` on is recording the one that ends
/// there, then the others.
proof fn lemma_scan_step<K: Key>(
    image: Seq<u8>,
    region: RegionId,
    cursor: int,
    map: Map<K::V, Location>,
)
    requires
        cursor > 0,
        footer_plausible(cursor, footer_at(image, cursor)),
    ensures
        ({
            let entry = entry_at::<K>(image, region, cursor);
            let rest = cursor - entry_len(footer_at(image, cursor));
            &&& record_all(map, scan::<K>(image, region, cursor)) == record_all(
                map.insert(entry.0, entry.1),
                scan::<K>(image, region, rest),
            )
            &&& rest == 0 ==> scan::<K>(image, region, rest) == Seq::<(K::V, Location)>::empty()
        }),
{
    let entry = entry_at::<K>(image, region, cursor);
    let rest = cursor - entry_len(footer_at(image, cursor));
    let all = scan::<K>(image, region, cursor);
    assert(all == seq![entry] + scan::<K>(image, region, rest));
    assert(all.skip(1) =~= scan::<K>(image, region, rest));
}

/// The length of the slot of an entry: value, key and footer, rounded up to
/// whole blocks.
pub open spec fn slot_len(align: int, key_len: nat, value_len: nat) -> int {
    aligned_up(align, key_len + value_len + ENTRY_FOOTER_LEN)
}

/// The length of the slot of a key and a value.
pub open spec fn pair_slot_len<K: Key, V: Value>(align: int, pair: (K::V, V::V)) -> int {
    slot_len(align, K::encode(pair.0).len(), V::encode(pair.1).len())
}

/// The end of the log after these pairs were appended to an empty region.
pub open spec fn log_end<K: Key, V: Value>(align: int, pairs: Seq<(K::V, V::V)>) -> int
    decreases pairs.len(),
{
    if pairs.len() == 0 {
        0
    } else {
        log_end::<K, V>(align, pairs.drop_last()) + pair_slot_len::<K, V>(align, pairs.last())
    }
}

/// Whether the region starts with the entries of these pairs, one slot after
/// the other.
pub open spec fn written<K: Key, V: Value>(
    image: Seq<u8>,
    align: int,
    pairs: Seq<(K::V, V::V)>,
) -> bool
    decreases pairs.len(),
{
    pairs.len() == 0 || {
        let start = log_end::<K, V>(align, pairs.drop_last());
        let end = log_end::<K, V>(align, pairs);
        &&& end <= image.len()
        &&& is_entry(
            image.subrange(start, end),
            K::encode(pairs.last().0),
            V::encode(pairs.last().1),
        )
        &&& written::<K, V>(image, align, pairs.drop_last())
    }
}

/// Whether the length of each slot fits in the `u32` that footers and indices
/// keep.
pub open spec fn slots_in_u32<K: Key, V: Value>(align: int, pairs: Seq<(K::V, V::V)>) -> bool {
    forall|i: int|
        0 <= i < pairs.len() ==> pair_slot_len::<K, V>(align, #[trigger] pairs[i]) <= u32::MAX
}

/// Where the pair at `i` stands in the log.
pub open spec fn pair_location<K: Key, V: Value>(
    region: RegionId,
    version: Version,
    align: int,
    pairs: Seq<(K::V, V::V)>,
    i: int,
) -> Location {
    Location {
        region,
        version,
        offset: log_end::<K, V>(align, pairs.take(i)) as u32,
        len: pair_slot_len::<K, V>(align, pairs[i]) as u32,
        key_len: K::encode(pairs[i].0).len() as u32,
        value_len: V::encode(pairs[i].1).len() as u32,
    }
}

/// The keys of the log with their places, the last pair first.
pub open spec fn log_indices<K: Key, V: Value>(
    region: RegionId,
    align: int,
    pairs: Seq<(K::V, V::V)>,
) -> Seq<(K::V, Location)> {
    Seq::new(
        pairs.len(),
        |j: int|
            {
                let i = pairs.len() - 1 - j;
                (pairs[i].0, pair_location::<K, V>(region, 0, align, pairs, i))
            },
    )
}

/// Slots are whole blocks, long enough for their entry.
pub proof fn lemma_slot_len(align: int, key_len: nat, value_len: nat)
    requires
        align > 0,
    ensures
        slot_len(align, key_len, value_len) % align == 0,
        key_len + value_len + ENTRY_FOOTER_LEN <= slot_len(align, key_len, value_len),
        slot_len(align, key_len, value_len) < key_len + value_len + ENTRY_FOOTER_LEN + align,
{
    crate::bits::lemma_aligned_up(align, key_len + value_len + ENTRY_FOOTER_LEN);
}

/// A log consists of whole blocks, and grows with each pair.
pub proof fn lemma_log_end<K: Key, V: Value>(align: int, pairs: Seq<(K::V, V::V)>)
    requires
        align > 0,
    ensures
        log_end::<K, V>(align, pairs) >= 0,
        log_end::<K, V>(align, pairs) % align == 0,
        pairs.len() > 0 ==> log_end::<K, V>(align, pairs.drop_last()) + ENTRY_FOOTER_LEN
            <= log_end::<K, V>(align, pairs) && log_end::<K, V>(align, pairs.drop_last()) + align
            <= log_end::<K, V>(align, pairs),
    decreases pairs.len(),
{
    if pairs.len() == 0 {
        vstd::arithmetic::div_mod::lemma_small_mod(0, align as nat);
    } else {
        lemma_log_end::<K, V>(align, pairs.drop_last());
        let start = log_end::<K, V>(align, pairs.drop_last());
        let key_len = K::encode(pairs.last().0).len();
        let value_len = V::encode(pairs.last().1).len();
        let n = slot_len(align, key_len, value_len);
        lemma_slot_len(align, key_len, value_len);
        assert((start + n) % align == 0) by {
            vstd::arithmetic::div_mod::lemma_add_mod_noop(start, n, align);
        }
        assert(align <= n) by {
            if n < align {
                crate::bits::lemma_multiples_apart(align, 0, n);
            }
        }
    }
}

/// The footer at the end of a log is that of its last entry.
proof fn lemma_last_entry<K: Key, V: Value>(
    image: Seq<u8>,
    region: RegionId,
    align: int,
    pairs: Seq<(K::V, V::V)>,
)
    requires
        align > 0,
        pairs.len() > 0,
        written::<K, V>(image, align, pairs),
        slots_in_u32::<K, V>(align, pairs),
    ensures
        ({
            let start = log_end::<K, V>(align, pairs.drop_last());
            let end = log_end::<K, V>(align, pairs);
            let footer = footer_at(image, end);
            &&& footer_plausible(end, footer)
            &&& entry_len(footer) == end - start
            &&& footer.key_len == K::encode(pairs.last().0).len()
            &&& footer.value_len == V::encode(pairs.last().1).len()
            &&& image.subrange(key_start(end, footer), key_end(end, footer)) == K::encode(
                pairs.last().0,
            )
            &&& entry_at::<K>(image, region, end) == (
                pairs.last().0,
                pair_location::<K, V>(region, 0, align, pairs, pairs.len() - 1),
            )
        }),
{
    let start = log_end::<K, V>(align, pairs.drop_last());
    let end = log_end::<K, V>(align, pairs);
    lemma_log_end::<K, V>(align, pairs);
    lemma_log_end::<K, V>(align, pairs.drop_last());
    let bytes = image.subrange(start, end);
    let kb = K::encode(pairs.last().0);
    let vb = V::encode(pairs.last().1);
    crate::entry::lemma_footer_of_entry(bytes, kb, vb);
    assert(bytes.skip(bytes.len() - ENTRY_FOOTER_LEN) =~= image.subrange(
        end - ENTRY_FOOTER_LEN,
        end,
    ));
    let footer = footer_at(image, end);
    assert(footer == footer_of(bytes));
    assert(image.subrange(key_start(end, footer), key_end(end, footer)) =~= kb) by {
        let payload = bytes.take((vb + kb).len() as int);
        assert(payload.skip(vb.len() as int) =~= kb);
        assert(image.subrange(key_start(end, footer), key_end(end, footer)) =~= payload.skip(
            vb.len() as int,
        ));
    }
    K::lemma_decode_encode(pairs.last().0);
    assert(pairs.take(pairs.len() - 1) =~= pairs.drop_last());
}

/// Scanning a log from its end finds every pair of it, the last one first,
/// where its insert put it.
pub proof fn law_scan_of_log<K: Key, V: Value>(
    image: Seq<u8>,
    region: RegionId,
    align: int,
    pairs: Seq<(K::V, V::V)>,
)
    requires
        align > 0,
        written::<K, V>(image, align, pairs),
        slots_in_u32::<K, V>(align, pairs),
    ensures
        scan::<K>(image, region, log_end::<K, V>(align, pairs)) == log_indices::<K, V>(
            region,
            align,
            pairs,
        ),
    decreases pairs.len(),
{
    let end = log_end::<K, V>(align, pairs);
    let found = scan::<K>(image, region, end);
    let expected = log_indices::<K, V>(region, align, pairs);
    if pairs.len() == 0 {
        assert(found =~= expected);
    } else {
        let front = pairs.drop_last();
        lemma_log_end::<K, V>(align, pairs);
        lemma_log_end::<K, V>(align, front);
        lemma_last_entry::<K, V>(image, region, align, pairs);
        law_scan_of_log::<K, V>(image, region, align, front);
        let rest = log_indices::<K, V>(region, align, front);
        assert(found =~= seq![entry_at::<K>(image, region, end)] + rest);
        assert forall|j: int| 0 <= j < expected.len() implies found[j] == expected[j] by {
            if j > 0 {
                let i = pairs.len() - 1 - j;
                assert(front.take(i) =~= pairs.take(i));
                assert(rest[j - 1] == expected[j]);
            }
        }
        assert(found =~= expected);
    }
}

/// Whether the region is a complete log of these pairs: their entries, and a
/// footer that says where they end.
pub open spec fn complete_log<K: Key, V: Value>(
    image: Seq<u8>,
    align: int,
    pairs: Seq<(K::V, V::V)>,
) -> bool {
    &&& written::<K, V>(image, align, pairs)
    &&& log_end::<K, V>(align, pairs) + REGION_FOOTER_LEN <= image.len()
    &&& align <= image.len()
    &&& region_complete(last_block(image, align))
    &&& log_cursor(image, align) == log_end::<K, V>(align, pairs)
}

/// What a log is depends on the bytes before its end alone.
pub proof fn lemma_written_prefix<K: Key, V: Value>(
    image: Seq<u8>,
    other: Seq<u8>,
    align: int,
    pairs: Seq<(K::V, V::V)>,
)
    requires
        align > 0,
        written::<K, V>(image, align, pairs),
        log_end::<K, V>(align, pairs) <= image.len(),
        log_end::<K, V>(align, pairs) <= other.len(),
        image.take(log_end::<K, V>(align, pairs)) == other.take(log_end::<K, V>(align, pairs)),
    ensures
        written::<K, V>(other, align, pairs),
    decreases pairs.len(),
{
    if pairs.len() > 0 {
        let front = pairs.drop_last();
        let start = log_end::<K, V>(align, front);
        let end = log_end::<K, V>(align, pairs);
        lemma_log_end::<K, V>(align, pairs);
        lemma_log_end::<K, V>(align, front);
        assert(image.take(end).take(start) =~= image.take(start));
        assert(other.take(end).take(start) =~= other.take(start));
        lemma_written_prefix::<K, V>(image, other, align, front);
        assert(image.take(end).subrange(start, end) =~= image.subrange(start, end));
        assert(other.take(end).subrange(start, end) =~= other.subrange(start, end));
    }
}

/// The slot of a pair has room for its entry.
pub proof fn lemma_slot_fits(align: int, key_len: nat, value_len: nat)
    requires
        align > 0,
        slot_len(align, key_len, value_len) <= u32::MAX,
    ensures
        entry_fits(slot_len(align, key_len, value_len) as nat, key_len, value_len),
{
    lemma_slot_len(align, key_len, value_len);
}

/// Writing an entry to the slot behind a log makes a log with one pair more.
pub proof fn law_write_appends<K: Key, V: Value>(
    image: Seq<u8>,
    align: int,
    pairs: Seq<(K::V, V::V)>,
    pair: (K::V, V::V),
)
    requires
        align > 0,
        written::<K, V>(image, align, pairs),
        pair_slot_len::<K, V>(align, pair) <= u32::MAX,
        log_end::<K, V>(align, pairs) + pair_slot_len::<K, V>(align, pair) <= image.len(),
    ensures
        ({
            let start = log_end::<K, V>(align, pairs);
            let end = start + pair_slot_len::<K, V>(align, pair);
            let slot = image.subrange(start, end);
            let after = image.take(start) + entry_bytes(
                K::encode(pair.0),
                V::encode(pair.1),
                slot,
            ) + image.skip(end);
            &&& entry_fits(slot.len(), K::encode(pair.0).len(), V::encode(pair.1).len())
            &&& after.len() == image.len()
            &&& written::<K, V>(after, align, pairs.push(pair))
            &&& log_end::<K, V>(align, pairs.push(pair)) == end
        }),
{
    let start = log_end::<K, V>(align, pairs);
    let kb = K::encode(pair.0);
    let vb = V::encode(pair.1);
    let end = start + slot_len(align, kb.len(), vb.len());
    let slot = image.subrange(start, end);
    let entry = entry_bytes(kb, vb, slot);
    let after = image.take(start) + entry + image.skip(end);
    lemma_log_end::<K, V>(align, pairs);
    lemma_slot_len(align, kb.len(), vb.len());
    lemma_slot_fits(align, kb.len(), vb.len());
    crate::entry::lemma_entry_bytes_is_entry(kb, vb, slot);
    assert(pairs.push(pair).drop_last() =~= pairs);
    assert(after.subrange(start, end) =~= entry);
    assert(image.take(start) =~= after.take(start));
    lemma_written_prefix::<K, V>(image, after, align, pairs);
}

/// Writing the region footer to what is left behind a log, with the length of
/// what is left as padding, makes the log complete.
pub proof fn law_footer_completes<K: Key, V: Value>(
    image: Seq<u8>,
    align: int,
    pairs: Seq<(K::V, V::V)>,
)
    requires
        align >= REGION_FOOTER_LEN,
        written::<K, V>(image, align, pairs),
        log_end::<K, V>(align, pairs) + REGION_FOOTER_LEN <= image.len(),
        align <= image.len() <= usize::MAX,
    ensures
        ({
            let end = log_end::<K, V>(align, pairs);
            let rest = image.skip(end);
            let footer = RegionFooter { magic: REGION_MAGIC, padding: rest.len() as u64 };
            let after = image.take(end) + (rest.take(rest.len() - REGION_FOOTER_LEN)
                + footer.bytes());
            &&& after.len() == image.len()
            &&& complete_log::<K, V>(after, align, pairs)
        }),
{
    let end = log_end::<K, V>(align, pairs);
    lemma_log_end::<K, V>(align, pairs);
    let rest = image.skip(end);
    let footer = RegionFooter { magic: REGION_MAGIC, padding: rest.len() as u64 };
    let front = rest.take(rest.len() - REGION_FOOTER_LEN);
    crate::footer::law_region_footer_read_of_write(Seq::empty(), footer);
    let after = image.take(end) + (front + footer.bytes());
    assert(image.take(end) =~= after.take(end));
    lemma_written_prefix::<K, V>(image, after, align, pairs);
    let block = last_block(after, align);
    let head = block.take(align - REGION_FOOTER_LEN);
    assert(block =~= head + footer.bytes());
    crate::footer::law_region_footer_read_of_write(head, footer);
}

/// Whether `recovery` is at work on a complete log and these pairs are still
/// to be found.
pub open spec fn recovering<K: Key, V: Value>(
    recovery: RegionRecovery,
    image: Seq<u8>,
    align: int,
    pairs: Seq<(K::V, V::V)>,
) -> bool {
    match recovery {
        RegionRecovery::Opening { region_size, align: a, .. } => {
            &&& a == align
            &&& region_size == image.len()
            &&& complete_log::<K, V>(image, align, pairs)
        },
        RegionRecovery::Block(iter) => {
            &&& iter.align == align
            &&& iter.cursor == log_end::<K, V>(align, pairs)
            &&& pairs.len() > 0
            &&& written::<K, V>(image, align, pairs)
        },
        RegionRecovery::KeyBlocks(iter, footer) => {
            &&& iter.align == align
            &&& iter.cursor == log_end::<K, V>(align, pairs)
            &&& pairs.len() > 0
            &&& written::<K, V>(image, align, pairs)
            &&& footer == footer_at(image, iter.cursor as int)
        },
        RegionRecovery::Recovered(_) => pairs.len() == 0,
        RegionRecovery::Vacant(_) => false,
    }
}

/// Whether the bytes that `recovery` asks for lie in the region, it can go on
/// from them, and it goes on to the same pairs or, once it has recorded the
/// last of them, to the pairs before that.
pub open spec fn goes_on<K: Key, V: Value>(
    recovery: RegionRecovery,
    image: Seq<u8>,
    align: int,
    pairs: Seq<(K::V, V::V)>,
) -> bool {
    let slice = Some(requested(recovery, image));
    let next = recovery.after(slice);
    &&& recovery.wf()
    &&& tracks(recovery, image)
    &&& 0 <= recovery.range().0 <= recovery.range().1 <= image.len()
    &&& recovery.ready::<K>(slice)
    &&& if recovery.taken::<K>(slice) is Some {
        &&& pairs.len() > 0
        &&& recovery.taken::<K>(slice) == Some(
            (
                pairs.last().0,
                pair_location::<K, V>(recovery.region(), 0, align, pairs, pairs.len() - 1),
            ),
        )
        &&& recovering::<K, V>(next, image, align, pairs.drop_last())
    } else {
        recovering::<K, V>(next, image, align, pairs)
    }
}

/// The recovery of a complete log never gets stuck: the bytes that it asks for
/// lie in the region, it can go on from them, and it goes on to the same pairs
/// or, once it has recorded one, to the pairs before that.
pub proof fn law_log_recovery_goes_on<K: Key, V: Value>(
    recovery: RegionRecovery,
    image: Seq<u8>,
    align: int,
    pairs: Seq<(K::V, V::V)>,
)
    requires
        align >= ENTRY_FOOTER_LEN,
        slots_in_u32::<K, V>(align, pairs),
        image.len() + align <= usize::MAX,
        recovering::<K, V>(recovery, image, align, pairs),
        !recovery.is_done(),
    ensures
        goes_on::<K, V>(recovery, image, align, pairs),
{
    match recovery {
        RegionRecovery::Opening { .. } => {
            lemma_opening_goes_on::<K, V>(recovery, image, align, pairs);
        },
        RegionRecovery::Block(iter) => {
            lemma_block_goes_on::<K, V>(iter, image, align, pairs);
        },
        RegionRecovery::KeyBlocks(iter, footer) => {
            lemma_key_blocks_goes_on::<K, V>(iter, footer, image, align, pairs);
        },
        _ => {},
    }
}

proof fn lemma_opening_goes_on<K: Key, V: Value>(
    recovery: RegionRecovery,
    image: Seq<u8>,
    align: int,
    pairs: Seq<(K::V, V::V)>,
)
    requires
        align >= ENTRY_FOOTER_LEN,
        slots_in_u32::<K, V>(align, pairs),
        image.len() + align <= usize::MAX,
        recovering::<K, V>(recovery, image, align, pairs),
        recovery is Opening,
    ensures
        goes_on::<K, V>(recovery, image, align, pairs),
{
    let bytes = requested(recovery, image);
    lemma_log_end::<K, V>(align, pairs);
    assert(bytes =~= last_block(image, align));
    if pairs.len() > 0 {
        lemma_log_end::<K, V>(align, pairs.drop_last());
    }
}

proof fn lemma_block_goes_on<K: Key, V: Value>(
    iter: RegionEntryIter,
    image: Seq<u8>,
    align: int,
    pairs: Seq<(K::V, V::V)>,
)
    requires
        align >= ENTRY_FOOTER_LEN,
        slots_in_u32::<K, V>(align, pairs),
        image.len() + align <= usize::MAX,
        recovering::<K, V>(RegionRecovery::Block(iter), image, align, pairs),
    ensures
        goes_on::<K, V>(RegionRecovery::Block(iter), image, align, pairs),
{
    let recovery = RegionRecovery::Block(iter);
    let bytes = requested(recovery, image);
    let end = log_end::<K, V>(align, pairs);
    let front = pairs.drop_last();
    lemma_log_end::<K, V>(align, pairs);
    lemma_log_end::<K, V>(align, front);
    lemma_last_entry::<K, V>(image, iter.region, align, pairs);
    lemma_rest_ok::<K, V>(align, pairs);
    let footer = footer_at(image, end);
    assert(bytes.skip(bytes.len() - ENTRY_FOOTER_LEN) =~= image.subrange(
        end - ENTRY_FOOTER_LEN,
        end,
    ));
    assert(footer_of(bytes) == footer);
    if key_in_block(align, end, footer) {
        assert(key_start(end, footer) >= end - align) by {
            crate::bits::lemma_aligned_down(align, key_start(end, footer));
        }
        assert(key_of_block(bytes, footer) =~= image.subrange(
            key_start(end, footer),
            key_end(end, footer),
        ));
        K::lemma_decode_encode(pairs.last().0);
        assert(iter.advanced(footer).cursor == log_end::<K, V>(align, front));
    }
}

proof fn lemma_key_blocks_goes_on<K: Key, V: Value>(
    iter: RegionEntryIter,
    footer: EntryFooter,
    image: Seq<u8>,
    align: int,
    pairs: Seq<(K::V, V::V)>,
)
    requires
        align >= ENTRY_FOOTER_LEN,
        slots_in_u32::<K, V>(align, pairs),
        image.len() + align <= usize::MAX,
        recovering::<K, V>(RegionRecovery::KeyBlocks(iter, footer), image, align, pairs),
    ensures
        goes_on::<K, V>(RegionRecovery::KeyBlocks(iter, footer), image, align, pairs),
{
    let recovery = RegionRecovery::KeyBlocks(iter, footer);
    let bytes = requested(recovery, image);
    let end = log_end::<K, V>(align, pairs);
    let front = pairs.drop_last();
    lemma_log_end::<K, V>(align, pairs);
    lemma_log_end::<K, V>(align, front);
    lemma_last_entry::<K, V>(image, iter.region, align, pairs);
    lemma_rest_ok::<K, V>(align, pairs);
    let lo = aligned_down(align, key_start(end, footer));
    let hi = aligned_up(align, key_end(end, footer));
    assert(0 <= lo <= key_start(end, footer)) by {
        crate::bits::lemma_aligned_down(align, key_start(end, footer));
    }
    assert(key_end(end, footer) <= hi <= end) by {
        crate::bits::lemma_aligned_up(align, key_end(end, footer));
    }
    assert(key_of_blocks(align, end, footer, bytes) =~= image.subrange(
        key_start(end, footer),
        key_end(end, footer),
    ));
    K::lemma_decode_encode(pairs.last().0);
    assert(iter.advanced(footer).cursor == log_end::<K, V>(align, front));
}

/// Before the last pair of a log there is nothing, or at least one block.
proof fn lemma_rest_ok<K: Key, V: Value>(align: int, pairs: Seq<(K::V, V::V)>)
    requires
        align > 0,
        pairs.len() > 0,
    ensures
        ({
            let rest = log_end::<K, V>(align, pairs.drop_last());
            if pairs.drop_last().len() == 0 {
                rest == 0
            } else {
                align <= rest
            }
        }),
{
    let front = pairs.drop_last();
    if front.len() > 0 {
        lemma_log_end::<K, V>(align, front);
        lemma_log_end::<K, V>(align, front.drop_last());
    }
}

/// Recovering a complete log records each of its pairs where its insert put
/// it, the last one first, and finds the region valid.
pub proof fn law_recovery_of_log<K: Key, V: Value>(
    image: Seq<u8>,
    region: RegionId,
    align: usize,
    pairs: Seq<(K::V, V::V)>,
    map: Map<K::V, Location>,
)
    requires
        align > 0,
        image.len() <= usize::MAX,
        slots_in_u32::<K, V>(align as int, pairs),
        complete_log::<K, V>(image, align as int, pairs),
    ensures
        ({
            let recovery = RegionRecovery::Opening {
                region,
                region_size: image.len() as usize,
                align,
            };
            &&& outcome::<K>(recovery, image, map) == record_all(
                map,
                log_indices::<K, V>(region, align as int, pairs),
            )
            &&& will_be_valid(recovery, image)
        }),
{
    law_scan_of_log::<K, V>(image, region, align as int, pairs);
}

/// After a log was recovered, a key stands where the first of its pairs was
/// put: later pairs of the same key are recorded before it and replaced.
pub proof fn law_recovered_key<K: Key, V: Value>(
    region: RegionId,
    align: int,
    pairs: Seq<(K::V, V::V)>,
    map: Map<K::V, Location>,
    i: int,
)
    requires
        0 <= i < pairs.len(),
        forall|j: int| 0 <= j < i ==> (#[trigger] pairs[j]).0 != pairs[i].0,
    ensures
        ({
            let recovered = record_all(map, log_indices::<K, V>(region, align, pairs));
            &&& recovered.contains_key(pairs[i].0)
            &&& recovered[pairs[i].0] == pair_location::<K, V>(region, 0, align, pairs, i)
        }),
    decreases pairs.len(),
{
    let front = pairs.drop_last();
    let last = pairs.len() - 1;
    let all = log_indices::<K, V>(region, align, pairs);
    let rest = log_indices::<K, V>(region, align, front);
    lemma_log_indices_step::<K, V>(region, align, pairs);
    let next = map.insert(all[0].0, all[0].1);
    assert(record_all(map, all) == record_all(next, rest));
    if i < last {
        law_recovered_key::<K, V>(region, align, front, next, i);
        assert(front.take(i) =~= pairs.take(i));
    } else {
        law_recovery_keeps_other_keys::<K, V>(region, align, front, next, pairs[i].0);
    }
}

/// Recovering a log changes nothing for keys that are not in it.
pub proof fn law_recovery_keeps_other_keys<K: Key, V: Value>(
    region: RegionId,
    align: int,
    pairs: Seq<(K::V, V::V)>,
    map: Map<K::V, Location>,
    key: K::V,
)
    requires
        forall|j: int| 0 <= j < pairs.len() ==> (#[trigger] pairs[j]).0 != key,
    ensures
        ({
            let recovered = record_all(map, log_indices::<K, V>(region, align, pairs));
            &&& recovered.contains_key(key) == map.contains_key(key)
            &&& map.contains_key(key) ==> recovered[key] == map[key]
        }),
    decreases pairs.len(),
{
    if pairs.len() > 0 {
        let all = log_indices::<K, V>(region, align, pairs);
        let next = map.insert(all[0].0, all[0].1);
        lemma_log_indices_step::<K, V>(region, align, pairs);
        law_recovery_keeps_other_keys::<K, V>(region, align, pairs.drop_last(), next, key);
    }
}

/// The places of a log are that of its last pair, then those of the pairs
/// before it.
proof fn lemma_log_indices_step<K: Key, V: Value>(
    region: RegionId,
    align: int,
    pairs: Seq<(K::V, V::V)>,
)
    requires
        pairs.len() > 0,
    ensures
        ({
            let all = log_indices::<K, V>(region, align, pairs);
            &&& all.len() == pairs.len()
            &&& all[0] == (
                pairs.last().0,
                pair_location::<K, V>(region, 0, align, pairs, pairs.len() - 1),
            )
            &&& all.skip(1) == log_indices::<K, V>(region, align, pairs.drop_last())
        }),
{
    let all = log_indices::<K, V>(region, align, pairs);
    let front = pairs.drop_last();
    let rest = log_indices::<K, V>(region, align, front);
    assert forall|j: int| 0 <= j < rest.len() implies all.skip(1)[j] == rest[j] by {
        let i = front.len() - 1 - j;
        assert(front.take(i) =~= pairs.take(i));
    }
    assert(all.skip(1) =~= rest);
}

/// The end of the recovery of a region, and what is recorded then, if every
/// load brings the bytes that were asked for.
pub open spec fn run<K: Key>(
    recovery: RegionRecovery,
    image: Seq<u8>,
    map: Map<K::V, Location>,
) -> (RegionRecovery, Map<K::V, Location>)
    decreases loads_left(recovery),
{
    let slice = Some(requested(recovery, image));
    let next = recovery.after(slice);
    if recovery.is_done() || loads_left(next) >= loads_left(recovery) {
        (recovery, map)
    } else {
        run::<K>(next, image, recorded(map, recovery.taken::<K>(slice)))
    }
}

/// Whether every load of the recovery lies in the region and can be taken.
pub open spec fn can_run<K: Key>(recovery: RegionRecovery, image: Seq<u8>) -> bool
    decreases loads_left(recovery),
{
    let slice = Some(requested(recovery, image));
    let next = recovery.after(slice);
    recovery.is_done() || {
        &&& recovery.range().1 <= image.len()
        &&& recovery.ready::<K>(slice)
        &&& loads_left(next) < loads_left(recovery) ==> can_run::<K>(next, image)
    }
}

/// The recovery of any region, whatever it holds, runs to its end if every load
/// can be taken. It ends with the region recovered or vacant, and never with
/// another region: recovered, with every entry recorded, if the region is
/// heading there, and otherwise vacant.
pub proof fn law_run_ends<K: Key>(
    recovery: RegionRecovery,
    image: Seq<u8>,
    map: Map<K::V, Location>,
)
    requires
        recovery.wf(),
        tracks(recovery, image),
        can_run::<K>(recovery, image),
    ensures
        run::<K>(recovery, image, map) == (
            if will_be_valid(recovery, image) {
                RegionRecovery::Recovered(recovery.region())
            } else {
                RegionRecovery::Vacant(recovery.region())
            },
            outcome::<K>(recovery, image, map),
        ),
    decreases loads_left(recovery),
{
    if !recovery.is_done() {
        let slice = Some(requested(recovery, image));
        law_recovery_step::<K>(recovery, image, map);
        law_run_ends::<K>(
            recovery.after(slice),
            image,
            recorded(map, recovery.taken::<K>(slice)),
        );
    }
}

/// Recovering a region finds it valid if and only if its last block says that
/// it was completely written. Otherwise the region is vacant and nothing is
/// recorded.
pub proof fn law_region_recovered_iff_complete<K: Key>(
    image: Seq<u8>,
    region: RegionId,
    align: usize,
    map: Map<K::V, Location>,
)
    requires
        0 < align <= image.len(),
        image.len() + align <= usize::MAX,
        can_run::<K>(
            RegionRecovery::Opening { region, region_size: image.len() as usize, align },
            image,
        ),
    ensures
        ({
            let end = run::<K>(
                RegionRecovery::Opening { region, region_size: image.len() as usize, align },
                image,
                map,
            );
            if region_complete(last_block(image, align as int)) {
                &&& end.0 == RegionRecovery::Recovered(region)
                &&& end.1 == record_all(
                    map,
                    scan::<K>(image, region, log_cursor(image, align as int)),
                )
            } else {
                &&& end.0 == RegionRecovery::Vacant(region)
                &&& end.1 == map
            }
        }),
{
    law_run_ends::<K>(
        RegionRecovery::Opening { region, region_size: image.len() as usize, align },
        image,
        map,
    );
}

/// The recovery of a complete log runs to its end: the region is found valid,
/// and each pair is recorded where its insert put it, the last one first.
pub proof fn law_recovery_runs<K: Key, V: Value>(
    image: Seq<u8>,
    region: RegionId,
    align: usize,
    pairs: Seq<(K::V, V::V)>,
    map: Map<K::V, Location>,
)
    requires
        align >= ENTRY_FOOTER_LEN,
        image.len() + align <= usize::MAX,
        slots_in_u32::<K, V>(align as int, pairs),
        complete_log::<K, V>(image, align as int, pairs),
    ensures
        run::<K>(
            RegionRecovery::Opening { region, region_size: image.len() as usize, align },
            image,
            map,
        ) == (
            RegionRecovery::Recovered(region),
            record_all(map, log_indices::<K, V>(region, align as int, pairs)),
        ),
{
    let recovery = RegionRecovery::Opening { region, region_size: image.len() as usize, align };
    law_recovery_of_log::<K, V>(image, region, align, pairs, map);
    lemma_run::<K, V>(recovery, image, align as int, pairs, map);
}

/// A recovery that is at work on a complete log runs to the outcome that it is
/// heading for.
proof fn lemma_run<K: Key, V: Value>(
    recovery: RegionRecovery,
    image: Seq<u8>,
    align: int,
    pairs: Seq<(K::V, V::V)>,
    map: Map<K::V, Location>,
)
    requires
        align >= ENTRY_FOOTER_LEN,
        image.len() + align <= usize::MAX,
        slots_in_u32::<K, V>(align, pairs),
        recovering::<K, V>(recovery, image, align, pairs),
    ensures
        run::<K>(recovery, image, map) == (
            RegionRecovery::Recovered(recovery.region()),
            outcome::<K>(recovery, image, map),
        ),
    decreases loads_left(recovery),
{
    if !recovery.is_done() {
        let slice = Some(requested(recovery, image));
        let next = recovery.after(slice);
        law_log_recovery_goes_on::<K, V>(recovery, image, align, pairs);
        law_recovery_step::<K>(recovery, image, map);
        let left = if recovery.taken::<K>(slice) is Some {
            pairs.drop_last()
        } else {
            pairs
        };
        lemma_run::<K, V>(next, image, align, left, recorded(map, recovery.taken::<K>(slice)));
    }
}

/// The place of a pair consists of whole blocks and holds its entry, as long
/// as its offset and its length fit in the `u32` that indices keep.
pub proof fn law_place_of_pair<K: Key, V: Value>(
    image: Seq<u8>,
    region: RegionId,
    version: Version,
    align: int,
    pairs: Seq<(K::V, V::V)>,
    i: int,
)
    requires
        align > 0,
        written::<K, V>(image, align, pairs),
        0 <= i < pairs.len(),
        log_end::<K, V>(align, pairs.take(i)) <= u32::MAX,
        pair_slot_len::<K, V>(align, pairs[i]) <= u32::MAX,
    ensures
        ({
            let place = pair_location::<K, V>(region, version, align, pairs, i);
            &&& place.offset + place.len <= image.len()
            &&& is_entry(
                image.subrange(place.offset as int, place.offset + place.len),
                K::encode(pairs[i].0),
                V::encode(pairs[i].1),
            )
            &&& place.key_len == K::encode(pairs[i].0).len()
            &&& place.value_len == V::encode(pairs[i].1).len()
            &&& place.offset as int % align == 0
            &&& place.len as int % align == 0
        }),
    decreases pairs.len(),
{
    let front = pairs.drop_last();
    if i < pairs.len() - 1 {
        assert(front.take(i) =~= pairs.take(i));
        law_place_of_pair::<K, V>(image, region, version, align, front, i);
    } else {
        assert(pairs.take(i) =~= front);
        lemma_log_end::<K, V>(align, pairs);
        lemma_log_end::<K, V>(align, front);
        lemma_slot_len(align, K::encode(pairs[i].0).len(), V::encode(pairs[i].1).len());
    }
}

/// What a recovery says has to be loaded is what it goes on from: the bytes of
/// its region from `start` to `end`.
pub proof fn law_action_loads_requested(recovery: RegionRecovery, image: Seq<u8>)
    requires
        recovery.wf(),
        recovery !is Recovered,
        recovery !is Vacant,
    ensures
        recovery.next_action() matches RecoveryAction::Load { region, start, end } && region
            == recovery.region() && image.subrange(start as int, end as int) == requested(
            recovery,
            image,
        ),
{
    if let RegionRecovery::KeyBlocks(iter, footer) = recovery {
        crate::bits::lemma_aligned_down(iter.align as int, key_start(iter.cursor as int, footer));
        crate::bits::lemma_aligned_up(iter.align as int, key_end(iter.cursor as int, footer));
    }
}

/// What a recovery goes on from: the last block of the region, the block before
/// the cursor, or the blocks from the one in which the key starts to the one in
/// which it ends.
pub proof fn law_requested(recovery: RegionRecovery, image: Seq<u8>, start: int, end: int)
    requires
        recovery.wf(),
    ensures
        match recovery {
            RegionRecovery::Opening { region_size, align, .. } => requested(recovery, image)
                == image.subrange(region_size - align, region_size as int),
            RegionRecovery::Block(iter) => requested(recovery, image) == image.subrange(
                iter.cursor - iter.align,
                iter.cursor as int,
            ),
            RegionRecovery::KeyBlocks(iter, footer) => {
                let key_end = iter.cursor - 20 - footer.padding;
                let key_start = key_end - footer.key_len;
                start % iter.align as int == 0 && start <= key_start < start + iter.align && end
                    % iter.align as int == 0 && key_end <= end < key_end + iter.align ==> requested(
                    recovery,
                    image,
                ) == image.subrange(start, end)
            },
            _ => true,
        },
{
    if let RegionRecovery::KeyBlocks(iter, footer) = recovery {
        let align = iter.align as int;
        let stop = iter.cursor - 20 - footer.padding;
        if start % align == 0 && start <= stop - footer.key_len < start + align && end % align == 0
            && stop <= end < stop + align {
            crate::bits::law_rounds_down_to(align, stop - footer.key_len, start);
            crate::bits::law_rounds_up_to(align, stop, end);
        }
    }
}

/// A region turns out valid if and only if its last eight bytes spell the magic
/// number, and the walk over it starts where the eight bytes before them say.
pub proof fn law_image_complete_iff(
    image: Seq<u8>,
    region: RegionId,
    region_size: usize,
    align: usize,
)
    requires
        16 <= align <= region_size,
        image.len() == region_size,
    ensures
        will_be_valid(RegionRecovery::Opening { region, region_size, align }, image) <==> be_value(
            image.subrange(region_size - 8, region_size as int),
        ) == 0x19970327,
        log_cursor(image, align as int) == region_size - (be_value(
            image.subrange(region_size - 16, region_size - 8),
        ) as usize),
{
    let n = region_size as int;
    let block = last_block(image, align as int);
    crate::region_iter::law_complete_iff(block);
    crate::footer::law_region_footer_fields(block);
    assert(block.subrange(align - 8, align as int) =~= image.subrange(n - 8, n));
    assert(block.subrange(align - 16, align - 8) =~= image.subrange(n - 16, n - 8));
}

/// The slot of an entry is the least number of whole blocks that has room for
/// its key, its value and a footer of twenty bytes.
pub proof fn law_slot_len_is(align: int, key_len: nat, value_len: nat, len: int)
    requires
        align > 0,
        len % align == 0,
        key_len + value_len + 20 <= len < key_len + value_len + 20 + align,
    ensures
        slot_len(align, key_len, value_len) == len,
{
    crate::bits::law_rounds_up_to(align, key_len + value_len + 20int, len);
}

} // verus!
