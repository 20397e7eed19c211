//! The recovery of all regions of a device. The regions are recovered at the
//! same time: their loads come in any order, and the entries that they
//! complete are recorded in one index as they come.

use crate::code::{Key, Value};
use crate::footer::ENTRY_FOOTER_LEN;
use crate::indices::{Location, RegionId};
use crate::recovery::{recorded, RecoveryAction, RegionRecovery};
use crate::region_iter::region_complete;
use crate::region_log::{
    complete_log, goes_on, last_block, loads_left, log_end, pair_location, pair_slot_len,
    recovering, requested, slots_in_u32, tracks, will_be_valid,
};
use crate::store::{holds, holds_entry, lookup_outcome};
use vstd::prelude::*;

verus! {

/// The recoveries of the regions below `regions`, none of them begun.
pub open spec fn openings(regions: nat, region_size: usize, align: usize) -> Seq<RegionRecovery> {
    Seq::new(
        regions,
        |i: int| RegionRecovery::Opening { region: i as RegionId, region_size, align },
    )
}

/// Starts the recovery of each region below `regions`.
pub fn start_all(regions: RegionId, region_size: usize, align: usize) -> (r: Vec<RegionRecovery>)
    requires
        regions > 0 ==> 0 < align <= region_size,
        regions > 0 ==> region_size + align <= usize::MAX,
    ensures
        r@ == openings(regions as nat, region_size, align),
        forall|i: int| 0 <= i < r@.len() ==> (#[trigger] r@[i]).wf(),
        r@.len() == regions,
        forall|i: RegionId|
            i < regions ==> #[trigger] r@[i as int] == (RegionRecovery::Opening {
                region: i,
                region_size,
                align,
            }),
{
    let mut r: Vec<RegionRecovery> = Vec::new();
    let mut region: RegionId = 0;
    while region < regions
        invariant
            region <= regions,
            regions > 0 ==> 0 < align <= region_size,
            regions > 0 ==> region_size + align <= usize::MAX,
            r@ == openings(region as nat, region_size, align),
        decreases regions - region,
    {
        r.push(RegionRecovery::new(region, region_size, align));
        region = region + 1;
        proof {
            assert(r@ =~= openings(region as nat, region_size, align));
        }
    }
    r
}

/// How far the recovery of a device has come.
#[verifier::reject_recursive_types(KV)]
pub struct DeviceState<KV> {
    /// how far the recovery of each region has come
    pub recoveries: Seq<RegionRecovery>,
    /// what is recorded
    pub index: Map<KV, Location>,
}

/// A load: the region that it is for, and the bytes that it brought.
pub struct Load {
    /// the region
    pub region: int,
    /// the bytes
    pub slice: Option<Seq<u8>>,
}

/// The state once a load was handed to the recovery of its region.
pub open spec fn handed<K: Key>(state: DeviceState<K::V>, load: Load) -> DeviceState<K::V> {
    let recovery = state.recoveries[load.region];
    DeviceState {
        recoveries: state.recoveries.update(load.region, recovery.after(load.slice)),
        index: recorded(state.index, recovery.taken::<K>(load.slice)),
    }
}

/// The state once these loads were handed over, in this order.
pub open spec fn handed_all<K: Key>(state: DeviceState<K::V>, loads: Seq<Load>) -> DeviceState<K::V>
    decreases loads.len(),
{
    if loads.len() == 0 {
        state
    } else {
        handed_all::<K>(handed::<K>(state, loads[0]), loads.skip(1))
    }
}

/// Whether each of these loads is for a region of the device, whose recovery
/// can go on from it. A recovery that is over takes no load.
pub open spec fn takes_all<K: Key>(state: DeviceState<K::V>, loads: Seq<Load>) -> bool
    decreases loads.len(),
{
    loads.len() == 0 || {
        &&& 0 <= loads[0].region < state.recoveries.len()
        &&& state.recoveries[loads[0].region].ready::<K>(loads[0].slice)
        &&& takes_all::<K>(handed::<K>(state, loads[0]), loads.skip(1))
    }
}

/// Whether each of these loads is for a region whose recovery is not over, and
/// brings the bytes of the region that were asked for.
pub open spec fn loads_from<K: Key>(
    images: Seq<Seq<u8>>,
    state: DeviceState<K::V>,
    loads: Seq<Load>,
) -> bool
    decreases loads.len(),
{
    loads.len() == 0 || {
        let region = loads[0].region;
        let recovery = state.recoveries[region];
        &&& 0 <= region < state.recoveries.len()
        &&& !recovery.is_done()
        &&& loads[0].slice == Some(requested(recovery, images[region]))
        &&& loads_from::<K>(images, handed::<K>(state, loads[0]), loads.skip(1))
    }
}

/// Whether the recovery of every region is over.
pub open spec fn all_done(recoveries: Seq<RegionRecovery>) -> bool {
    forall|r: int| 0 <= r < recoveries.len() ==> (#[trigger] recoveries[r]).is_done()
}

/// Once all regions are done, each region number of the device had exactly one
/// thing done with it, and no other number was touched: there is one recovery
/// for each number, and it ends by making that region evictable or by releasing
/// it as clean. This holds whatever the loads brought and in whatever order
/// they came.
pub proof fn law_each_region_done_once<K: Key>(
    regions: RegionId,
    region_size: usize,
    align: usize,
    index: Map<K::V, Location>,
    loads: Seq<Load>,
)
    requires
        takes_all::<K>(
            DeviceState { recoveries: openings(regions as nat, region_size, align), index },
            loads,
        ),
        all_done(
            handed_all::<K>(
                DeviceState { recoveries: openings(regions as nat, region_size, align), index },
                loads,
            ).recoveries,
        ),
    ensures
        ({
            let end = handed_all::<K>(
                DeviceState { recoveries: openings(regions as nat, region_size, align), index },
                loads,
            ).recoveries;
            &&& end.len() == regions
            &&& forall|r: int|
                0 <= r < regions ==> {
                    ||| (#[trigger] end[r]).next_action() == RecoveryAction::SetEvictable(
                        r as RegionId,
                    )
                    ||| end[r].next_action() == RecoveryAction::Release(r as RegionId)
                }
        }),
{
    let start = DeviceState { recoveries: openings(regions as nat, region_size, align), index };
    lemma_regions_kept::<K>(start, loads);
    let end = handed_all::<K>(start, loads).recoveries;
    assert forall|r: int| 0 <= r < regions implies {
        ||| (#[trigger] end[r]).next_action() == RecoveryAction::SetEvictable(r as RegionId)
        ||| end[r].next_action() == RecoveryAction::Release(r as RegionId)
    } by {
        assert(start.recoveries[r].region() == r as RegionId);
        assert(end[r].is_done());
    }
}

/// Loads keep each recovery at its place and at its region.
proof fn lemma_regions_kept<K: Key>(state: DeviceState<K::V>, loads: Seq<Load>)
    requires
        takes_all::<K>(state, loads),
    ensures
        ({
            let end = handed_all::<K>(state, loads).recoveries;
            &&& end.len() == state.recoveries.len()
            &&& forall|r: int|
                0 <= r < end.len() ==> (#[trigger] end[r]).region()
                    == state.recoveries[r].region()
        }),
    decreases loads.len(),
{
    if loads.len() > 0 {
        let next = handed::<K>(state, loads[0]);
        lemma_regions_kept::<K>(next, loads.skip(1));
        let end = handed_all::<K>(state, loads).recoveries;
        assert forall|r: int| 0 <= r < end.len() implies (#[trigger] end[r]).region()
            == state.recoveries[r].region() by {
            assert(end[r].region() == next.recoveries[r].region());
        }
    }
}

/// Whether the recoveries are at work on regions with these contents.
pub open spec fn at_work_on(recoveries: Seq<RegionRecovery>, images: Seq<Seq<u8>>) -> bool {
    &&& recoveries.len() == images.len()
    &&& forall|r: int|
        0 <= r < recoveries.len() ==> (#[trigger] recoveries[r]).wf() && tracks(
            recoveries[r],
            images[r],
        )
}

/// Whether each of these loads lies in its region and can be taken.
pub open spec fn loads_fit<K: Key>(
    images: Seq<Seq<u8>>,
    state: DeviceState<K::V>,
    loads: Seq<Load>,
) -> bool
    decreases loads.len(),
{
    loads.len() == 0 || {
        &&& state.recoveries[loads[0].region].range().1 <= images[loads[0].region].len()
        &&& state.recoveries[loads[0].region].ready::<K>(loads[0].slice)
        &&& loads_fit::<K>(images, handed::<K>(state, loads[0]), loads.skip(1))
    }
}

/// A region of a device is made evictable if and only if its last block says
/// that it was completely written, and released as clean otherwise, in whatever
/// order the loads of the regions come, as long as they can be taken.
pub proof fn law_evictable_iff_complete<K: Key>(
    images: Seq<Seq<u8>>,
    region_size: usize,
    align: usize,
    index: Map<K::V, Location>,
    loads: Seq<Load>,
)
    requires
        images.len() <= RegionId::MAX,
        0 < align <= region_size,
        region_size + align <= usize::MAX,
        forall|r: int| 0 <= r < images.len() ==> (#[trigger] images[r]).len() == region_size,
        loads_from::<K>(
            images,
            DeviceState { recoveries: openings(images.len(), region_size, align), index },
            loads,
        ),
        loads_fit::<K>(
            images,
            DeviceState { recoveries: openings(images.len(), region_size, align), index },
            loads,
        ),
        all_done(
            handed_all::<K>(
                DeviceState { recoveries: openings(images.len(), region_size, align), index },
                loads,
            ).recoveries,
        ),
    ensures
        ({
            let end = handed_all::<K>(
                DeviceState { recoveries: openings(images.len(), region_size, align), index },
                loads,
            ).recoveries;
            &&& end.len() == images.len()
            &&& forall|r: int|
                0 <= r < images.len() ==> (#[trigger] end[r]).next_action() == (
                if region_complete(last_block(images[r], align as int)) {
                    RecoveryAction::SetEvictable(r as RegionId)
                } else {
                    RecoveryAction::Release(r as RegionId)
                })
        }),
{
    let start = DeviceState { recoveries: openings(images.len(), region_size, align), index };
    lemma_validity_kept::<K>(images, start, loads);
    let end = handed_all::<K>(start, loads).recoveries;
    assert forall|r: int| 0 <= r < images.len() implies (#[trigger] end[r]).next_action() == (
    if region_complete(last_block(images[r], align as int)) {
        RecoveryAction::SetEvictable(r as RegionId)
    } else {
        RecoveryAction::Release(r as RegionId)
    }) by {
        assert(end[r].is_done());
        assert(end[r].region() == start.recoveries[r].region());
    }
}

/// A load that can be taken keeps the recoveries at work on their regions. The
/// one that it is for stays at its region, heads for the same end, and needs
/// fewer loads.
proof fn lemma_stays_at_work<K: Key>(
    images: Seq<Seq<u8>>,
    state: DeviceState<K::V>,
    load: Load,
)
    requires
        at_work_on(state.recoveries, images),
        0 <= load.region < images.len(),
        !state.recoveries[load.region].is_done(),
        load.slice == Some(requested(state.recoveries[load.region], images[load.region])),
        state.recoveries[load.region].range().1 <= images[load.region].len(),
        state.recoveries[load.region].ready::<K>(load.slice),
    ensures
        ({
            let before = state.recoveries[load.region];
            let after = handed::<K>(state, load).recoveries[load.region];
            &&& at_work_on(handed::<K>(state, load).recoveries, images)
            &&& after.region() == before.region()
            &&& will_be_valid(after, images[load.region]) == will_be_valid(
                before,
                images[load.region],
            )
            &&& loads_left(after) < loads_left(before)
        }),
{
    let at = load.region;
    let next = handed::<K>(state, load);
    assert(state.recoveries[at].wf());
    crate::region_log::law_recovery_step::<K>(state.recoveries[at], images[at], state.index);
    assert forall|r: int| 0 <= r < next.recoveries.len() implies (#[trigger] next.recoveries[r]).wf()
        && tracks(next.recoveries[r], images[r]) by {
        if r != at {
            assert(next.recoveries[r] == state.recoveries[r]);
        }
    }
}

/// Loads keep each recovery at its region, and heading for the same end.
proof fn lemma_validity_kept<K: Key>(
    images: Seq<Seq<u8>>,
    state: DeviceState<K::V>,
    loads: Seq<Load>,
)
    requires
        at_work_on(state.recoveries, images),
        loads_from::<K>(images, state, loads),
        loads_fit::<K>(images, state, loads),
    ensures
        ({
            let end = handed_all::<K>(state, loads).recoveries;
            &&& end.len() == images.len()
            &&& forall|r: int|
                0 <= r < end.len() ==> {
                    &&& (#[trigger] end[r]).region() == state.recoveries[r].region()
                    &&& will_be_valid(end[r], images[r]) == will_be_valid(
                        state.recoveries[r],
                        images[r],
                    )
                }
        }),
    decreases loads.len(),
{
    if loads.len() > 0 {
        let at = loads[0].region;
        let next = handed::<K>(state, loads[0]);
        lemma_stays_at_work::<K>(images, state, loads[0]);
        lemma_validity_kept::<K>(images, next, loads.skip(1));
        let end = handed_all::<K>(state, loads).recoveries;
        assert forall|r: int| 0 <= r < end.len() implies {
            &&& (#[trigger] end[r]).region() == state.recoveries[r].region()
            &&& will_be_valid(end[r], images[r]) == will_be_valid(state.recoveries[r], images[r])
        } by {
            assert(end[r].region() == next.recoveries[r].region());
        }
    }
}

/// A bound on the number of loads that all regions still need.
pub open spec fn total_loads_left(recoveries: Seq<RegionRecovery>) -> nat
    decreases recoveries.len(),
{
    if recoveries.len() == 0 {
        0
    } else {
        total_loads_left(recoveries.drop_last()) + loads_left(recoveries.last())
    }
}

/// The recovery of a device ends: each load that can be taken leaves fewer to
/// come.
pub proof fn law_device_recovery_ends<K: Key>(
    images: Seq<Seq<u8>>,
    state: DeviceState<K::V>,
    loads: Seq<Load>,
)
    requires
        at_work_on(state.recoveries, images),
        loads_from::<K>(images, state, loads),
        loads_fit::<K>(images, state, loads),
    ensures
        loads.len() + total_loads_left(handed_all::<K>(state, loads).recoveries)
            <= total_loads_left(state.recoveries),
    decreases loads.len(),
{
    if loads.len() > 0 {
        let at = loads[0].region;
        let next = handed::<K>(state, loads[0]);
        lemma_stays_at_work::<K>(images, state, loads[0]);
        lemma_total_update(state.recoveries, at, next.recoveries[at]);
        law_device_recovery_ends::<K>(images, next, loads.skip(1));
    }
}

/// The total changes with one recovery by as much as its own bound.
proof fn lemma_total_update(recoveries: Seq<RegionRecovery>, at: int, recovery: RegionRecovery)
    requires
        0 <= at < recoveries.len(),
    ensures
        total_loads_left(recoveries.update(at, recovery)) == total_loads_left(recoveries)
            - loads_left(recoveries[at]) + loads_left(recovery),
    decreases recoveries.len(),
{
    let updated = recoveries.update(at, recovery);
    if at == recoveries.len() - 1 {
        assert(updated.drop_last() =~= recoveries.drop_last());
    } else {
        assert(updated.drop_last() =~= recoveries.drop_last().update(at, recovery));
        lemma_total_update(recoveries.drop_last(), at, recovery);
    }
}

/// Whether the regions of a device hold these pairs: each region is a complete
/// log of its pairs, or was not completely written and holds none.
pub open spec fn device_holds<K: Key, V: Value>(
    images: Seq<Seq<u8>>,
    region_size: usize,
    align: usize,
    pairs: Seq<Seq<(K::V, V::V)>>,
) -> bool {
    &&& images.len() == pairs.len()
    &&& images.len() <= RegionId::MAX
    &&& forall|r: int|
        0 <= r < images.len() ==> {
            &&& (#[trigger] images[r]).len() == region_size
            &&& slots_in_u32::<K, V>(align as int, pairs[r])
            &&& if region_complete(last_block(images[r], align as int)) {
                complete_log::<K, V>(images[r], align as int, pairs[r])
            } else {
                pairs[r].len() == 0
            }
        }
}

/// Whether region `r` holds a pair of this key at `i`.
pub open spec fn key_at<KV, VV>(pairs: Seq<Seq<(KV, VV)>>, key: KV, r: int, i: int) -> bool {
    0 <= r < pairs.len() && 0 <= i < pairs[r].len() && pairs[r][i].0 == key
}

/// Whether the pair at `i` of region `r` is the only one of its key on the
/// device.
pub open spec fn only_pair<KV, VV>(pairs: Seq<Seq<(KV, VV)>>, r: int, i: int) -> bool {
    &&& key_at(pairs, pairs[r][i].0, r, i)
    &&& forall|s: int, j: int| #[trigger]
        key_at(pairs, pairs[r][i].0, s, j) ==> s == r && j == i
}

/// Whether the pair at `i` of region `r` is the first one of `key` in that
/// region.
pub open spec fn first_at<KV, VV>(pairs: Seq<Seq<(KV, VV)>>, key: KV, r: int, i: int) -> bool {
    &&& key_at(pairs, key, r, i)
    &&& forall|j: int| 0 <= j < i ==> (#[trigger] pairs[r][j]).0 != key
}

/// Whether these contents are those of the device: they have its keys, each
/// with the value of the first of its pairs in some region.
pub open spec fn contents_of<KV, VV>(contents: Map<KV, VV>, pairs: Seq<Seq<(KV, VV)>>) -> bool {
    &&& forall|key: KV, r: int, i: int| #[trigger]
        key_at(pairs, key, r, i) ==> contents.contains_key(key)
    &&& forall|key: KV| #[trigger]
        contents.contains_key(key) ==> exists|r: int, i: int| #[trigger]
            first_at(pairs, key, r, i) && contents[key] == pairs[r][i].1
}

/// Whether loads of places in the regions return the bytes that stand there.
pub open spec fn disk_of(
    disk: spec_fn(Location) -> Option<Seq<u8>>,
    images: Seq<Seq<u8>>,
) -> bool {
    forall|place: Location|
        place.region < images.len() && place.version == 0 && place.offset + place.len
            <= images[place.region as int].len() ==> #[trigger] disk(place) == Some(
            images[place.region as int].subrange(
                place.offset as int,
                place.offset + place.len,
            ),
        )
}

/// Whether the recovery of a region is on course: the pairs from `left` on are
/// recorded, those before it are still to be found.
spec fn region_on_course<K: Key, V: Value>(
    recovery: RegionRecovery,
    region: int,
    image: Seq<u8>,
    align: usize,
    pairs: Seq<(K::V, V::V)>,
    left: int,
) -> bool {
    &&& recovery.region() == region
    &&& 0 <= left <= pairs.len()
    &&& if region_complete(last_block(image, align as int)) {
        recovering::<K, V>(recovery, image, align as int, pairs.take(left))
    } else {
        &&& pairs.len() == 0
        &&& recovery == (RegionRecovery::Opening {
            region: region as RegionId,
            region_size: image.len() as usize,
            align,
        }) || recovery == RegionRecovery::Vacant(region as RegionId)
    }
}

/// A load keeps the recovery of a region on course. It can be taken, and what
/// it records is the last pair that was still to be found, at its place.
proof fn lemma_region_step<K: Key, V: Value>(
    recovery: RegionRecovery,
    region: int,
    image: Seq<u8>,
    align: usize,
    pairs: Seq<(K::V, V::V)>,
    left: int,
) -> (next_left: int)
    requires
        align >= ENTRY_FOOTER_LEN,
        align <= image.len(),
        image.len() + align <= usize::MAX,
        0 <= region <= RegionId::MAX,
        slots_in_u32::<K, V>(align as int, pairs),
        region_on_course::<K, V>(recovery, region, image, align, pairs, left),
        !recovery.is_done(),
    ensures
        ({
            let slice = Some(requested(recovery, image));
            &&& recovery.range().1 <= image.len()
            &&& recovery.ready::<K>(slice)
            &&& region_on_course::<K, V>(
                recovery.after(slice),
                region,
                image,
                align,
                pairs,
                next_left,
            )
            &&& match recovery.taken::<K>(slice) {
                Some(entry) => {
                    &&& 0 <= next_left == left - 1
                    &&& entry == (
                        pairs[next_left].0,
                        pair_location::<K, V>(
                            region as RegionId,
                            0,
                            align as int,
                            pairs,
                            next_left,
                        ),
                    )
                },
                None => next_left == left,
            }
        }),
{
    let slice = Some(requested(recovery, image));
    if region_complete(last_block(image, align as int)) {
        let rest = pairs.take(left);
        crate::region_log::law_log_recovery_goes_on::<K, V>(recovery, image, align as int, rest);
        lemma_goes_on_region::<K, V>(recovery, image, align as int, rest);
        if recovery.taken::<K>(slice) is Some {
            assert(rest.drop_last() =~= pairs.take(left - 1));
            assert(rest.take(left - 1) =~= pairs.take(left - 1));
            left - 1
        } else {
            left
        }
    } else {
        assert(slice->0 =~= last_block(image, align as int));
        left
    }
}

/// A recovery stays at its region.
proof fn lemma_goes_on_region<K: Key, V: Value>(
    recovery: RegionRecovery,
    image: Seq<u8>,
    align: int,
    pairs: Seq<(K::V, V::V)>,
)
    requires
        goes_on::<K, V>(recovery, image, align, pairs),
    ensures
        recovery.after(Some(requested(recovery, image))).region() == recovery.region(),
{
}

/// Whether the recovery of the device is on course.
spec fn on_course<K: Key, V: Value>(
    recoveries: Seq<RegionRecovery>,
    images: Seq<Seq<u8>>,
    align: usize,
    pairs: Seq<Seq<(K::V, V::V)>>,
    left: Seq<int>,
) -> bool {
    &&& recoveries.len() == images.len()
    &&& left.len() == images.len()
    &&& forall|r: int|
        0 <= r < images.len() ==> region_on_course::<K, V>(
            #[trigger] recoveries[r],
            r,
            images[r],
            align,
            pairs[r],
            left[r],
        )
}

/// Whether the pair at `i` of region `r` was found and is the one whose place
/// is recorded for its key. No pair of the key before it was found in its
/// region.
spec fn stands_for<K: Key, V: Value>(
    index: Map<K::V, Location>,
    align: usize,
    pairs: Seq<Seq<(K::V, V::V)>>,
    left: Seq<int>,
    key: K::V,
    r: int,
    i: int,
) -> bool {
    &&& key_at(pairs, key, r, i)
    &&& left[r] <= i
    &&& index.contains_key(key)
    &&& index[key] == pair_location::<K, V>(r as RegionId, 0, align as int, pairs[r], i)
    &&& forall|j: int| left[r] <= j < i ==> (#[trigger] pairs[r][j]).0 != key
}

/// Whether what is recorded is on course for `key`: once a pair of it was
/// found, one of those that were found stands for it.
spec fn key_recorded<K: Key, V: Value>(
    index: Map<K::V, Location>,
    align: usize,
    pairs: Seq<Seq<(K::V, V::V)>>,
    left: Seq<int>,
    key: K::V,
) -> bool {
    (exists|r: int, i: int|
        #![trigger key_at(pairs, key, r, i)]
        key_at(pairs, key, r, i) && left[r] <= i) ==> exists|r: int, i: int|
        stands_for::<K, V>(index, align, pairs, left, key, r, i)
}

/// Whether every key that is recorded is one that was found.
spec fn only_found<KV, VV>(
    index: Map<KV, Location>,
    pairs: Seq<Seq<(KV, VV)>>,
    left: Seq<int>,
) -> bool {
    forall|key: KV| #[trigger]
        index.contains_key(key) ==> exists|r: int, i: int|
            #![trigger key_at(pairs, key, r, i)]
            key_at(pairs, key, r, i) && left[r] <= i
}

/// Recording the last pair that was still to be found in a region keeps every
/// key on course.
proof fn lemma_key_step<K: Key, V: Value>(
    index: Map<K::V, Location>,
    align: usize,
    pairs: Seq<Seq<(K::V, V::V)>>,
    left: Seq<int>,
    at: int,
    key: K::V,
)
    requires
        left.len() == pairs.len(),
        0 <= at < pairs.len(),
        0 < left[at] <= pairs[at].len(),
        key_recorded::<K, V>(index, align, pairs, left, key),
    ensures
        ({
            let n = left[at] - 1;
            key_recorded::<K, V>(
                index.insert(
                    pairs[at][n].0,
                    pair_location::<K, V>(at as RegionId, 0, align as int, pairs[at], n),
                ),
                align,
                pairs,
                left.update(at, n),
                key,
            )
        }),
{
    let n = left[at] - 1;
    let place = pair_location::<K, V>(at as RegionId, 0, align as int, pairs[at], n);
    let next = index.insert(pairs[at][n].0, place);
    let next_left = left.update(at, n);
    if pairs[at][n].0 == key {
        assert(stands_for::<K, V>(next, align, pairs, next_left, key, at, n));
    } else if exists|r: int, i: int|
        #![trigger key_at(pairs, key, r, i)]
        key_at(pairs, key, r, i) && next_left[r] <= i {
        let (r, i) = choose|r: int, i: int|
            #![trigger key_at(pairs, key, r, i)]
            key_at(pairs, key, r, i) && next_left[r] <= i;
        assert(key_at(pairs, key, r, i) && left[r] <= i);
        let (s, j) = choose|s: int, j: int|
            stands_for::<K, V>(index, align, pairs, left, key, s, j);
        assert(stands_for::<K, V>(index, align, pairs, left, key, s, j));
        assert(stands_for::<K, V>(next, align, pairs, next_left, key, s, j));
    }
}

/// A load keeps the recovery of a device on course.
proof fn lemma_device_step<K: Key, V: Value>(
    images: Seq<Seq<u8>>,
    region_size: usize,
    align: usize,
    pairs: Seq<Seq<(K::V, V::V)>>,
    state: DeviceState<K::V>,
    left: Seq<int>,
    load: Load,
) -> (next_left: Seq<int>)
    requires
        ENTRY_FOOTER_LEN <= align <= region_size,
        region_size + align <= usize::MAX,
        device_holds::<K, V>(images, region_size, align, pairs),
        on_course::<K, V>(state.recoveries, images, align, pairs, left),
        0 <= load.region < images.len(),
        !state.recoveries[load.region].is_done(),
        load.slice == Some(requested(state.recoveries[load.region], images[load.region])),
    ensures
        state.recoveries[load.region].ready::<K>(load.slice),
        state.recoveries[load.region].range().1 <= images[load.region].len(),
        on_course::<K, V>(
            handed::<K>(state, load).recoveries,
            images,
            align,
            pairs,
            next_left,
        ),
        forall|key: K::V| #[trigger]
            key_recorded::<K, V>(state.index, align, pairs, left, key) ==> key_recorded::<K, V>(
                handed::<K>(state, load).index,
                align,
                pairs,
                next_left,
                key,
            ),
        only_found(state.index, pairs, left) ==> only_found(
            handed::<K>(state, load).index,
            pairs,
            next_left,
        ),
{
    let r = load.region;
    let recovery = state.recoveries[r];
    assert(region_on_course::<K, V>(state.recoveries[r], r, images[r], align, pairs[r], left[r]));
    assert(images[r].len() == region_size);
    let n = lemma_region_step::<K, V>(recovery, r, images[r], align, pairs[r], left[r]);
    let next_left = left.update(r, n);
    let next = handed::<K>(state, load);
    assert forall|s: int| 0 <= s < images.len() implies region_on_course::<K, V>(
        #[trigger] next.recoveries[s],
        s,
        images[s],
        align,
        pairs[s],
        next_left[s],
    ) by {
        if s != r {
            assert(next.recoveries[s] == state.recoveries[s]);
        }
    }
    assert forall|key: K::V| #[trigger]
        key_recorded::<K, V>(state.index, align, pairs, left, key) implies key_recorded::<K, V>(
        next.index,
        align,
        pairs,
        next_left,
        key,
    ) by {
        if recovery.taken::<K>(load.slice) is Some {
            lemma_key_step::<K, V>(state.index, align, pairs, left, r, key);
        } else {
            assert(next_left =~= left);
        }
    }
    if only_found(state.index, pairs, left) {
        assert forall|key: K::V| #[trigger] next.index.contains_key(key) implies exists|
            s: int,
            j: int,
        |
            #![trigger key_at(pairs, key, s, j)]
            key_at(pairs, key, s, j) && next_left[s] <= j by {
            if state.index.contains_key(key) {
                let (s, j) = choose|s: int, j: int|
                    #![trigger key_at(pairs, key, s, j)]
                    key_at(pairs, key, s, j) && left[s] <= j;
                assert(key_at(pairs, key, s, j) && next_left[s] <= j);
            } else {
                assert(key_at(pairs, key, r, n) && next_left[r] <= n);
            }
        }
    }
    next_left
}

/// A recovery of a device that is on course stays so, whatever loads come.
proof fn lemma_device_run<K: Key, V: Value>(
    images: Seq<Seq<u8>>,
    region_size: usize,
    align: usize,
    pairs: Seq<Seq<(K::V, V::V)>>,
    state: DeviceState<K::V>,
    left: Seq<int>,
    loads: Seq<Load>,
) -> (end_left: Seq<int>)
    requires
        ENTRY_FOOTER_LEN <= align <= region_size,
        region_size + align <= usize::MAX,
        device_holds::<K, V>(images, region_size, align, pairs),
        on_course::<K, V>(state.recoveries, images, align, pairs, left),
        loads_from::<K>(images, state, loads),
    ensures
        takes_all::<K>(state, loads),
        loads_fit::<K>(images, state, loads),
        on_course::<K, V>(
            handed_all::<K>(state, loads).recoveries,
            images,
            align,
            pairs,
            end_left,
        ),
        forall|key: K::V| #[trigger]
            key_recorded::<K, V>(state.index, align, pairs, left, key) ==> key_recorded::<K, V>(
                handed_all::<K>(state, loads).index,
                align,
                pairs,
                end_left,
                key,
            ),
        only_found(state.index, pairs, left) ==> only_found(
            handed_all::<K>(state, loads).index,
            pairs,
            end_left,
        ),
    decreases loads.len(),
{
    if loads.len() == 0 {
        left
    } else {
        let next = handed::<K>(state, loads[0]);
        let next_left = lemma_device_step::<K, V>(
            images,
            region_size,
            align,
            pairs,
            state,
            left,
            loads[0],
        );
        lemma_device_run::<K, V>(
            images,
            region_size,
            align,
            pairs,
            next,
            next_left,
            loads.skip(1),
        )
    }
}

/// Runs the recovery of a device from its start.
proof fn lemma_device_recovered<K: Key, V: Value>(
    images: Seq<Seq<u8>>,
    region_size: usize,
    align: usize,
    pairs: Seq<Seq<(K::V, V::V)>>,
    index: Map<K::V, Location>,
    loads: Seq<Load>,
) -> (left: Seq<int>)
    requires
        ENTRY_FOOTER_LEN <= align <= region_size,
        region_size + align <= usize::MAX,
        device_holds::<K, V>(images, region_size, align, pairs),
        loads_from::<K>(
            images,
            DeviceState { recoveries: openings(images.len(), region_size, align), index },
            loads,
        ),
    ensures
        ({
            let start = DeviceState {
                recoveries: openings(images.len(), region_size, align),
                index,
            };
            let end = handed_all::<K>(start, loads);
            &&& takes_all::<K>(start, loads)
            &&& loads_fit::<K>(images, start, loads)
            &&& left.len() == images.len()
            &&& all_done(end.recoveries) ==> forall|r: int|
                0 <= r < images.len() ==> #[trigger] left[r] == 0
            &&& forall|key: K::V| #[trigger]
                key_recorded::<K, V>(end.index, align, pairs, left, key)
            &&& index == Map::<K::V, Location>::empty() ==> only_found(end.index, pairs, left)
        }),
{
    let start = DeviceState { recoveries: openings(images.len(), region_size, align), index };
    let all = Seq::new(images.len(), |r: int| pairs[r].len() as int);
    assert forall|r: int| 0 <= r < images.len() implies region_on_course::<K, V>(
        #[trigger] start.recoveries[r],
        r,
        images[r],
        align,
        pairs[r],
        all[r],
    ) by {
        assert(images[r].len() == region_size);
        assert(pairs[r].take(all[r]) =~= pairs[r]);
    }
    let left = lemma_device_run::<K, V>(images, region_size, align, pairs, start, all, loads);
    let end = handed_all::<K>(start, loads);
    assert forall|key: K::V| #[trigger]
        key_recorded::<K, V>(end.index, align, pairs, left, key) by {
        assert(key_recorded::<K, V>(start.index, align, pairs, all, key));
    }
    if all_done(end.recoveries) {
        assert forall|r: int| 0 <= r < images.len() implies #[trigger] left[r] == 0 by {
            assert(end.recoveries[r].is_done());
        }
    }
    left
}

/// The recovery of a device whose regions are complete logs or not completely
/// written never gets stuck, in whatever order the loads of the regions come.
pub proof fn law_device_recovery_goes_on<K: Key, V: Value>(
    images: Seq<Seq<u8>>,
    region_size: usize,
    align: usize,
    pairs: Seq<Seq<(K::V, V::V)>>,
    index: Map<K::V, Location>,
    loads: Seq<Load>,
)
    requires
        ENTRY_FOOTER_LEN <= align <= region_size,
        region_size + align <= usize::MAX,
        device_holds::<K, V>(images, region_size, align, pairs),
        loads_from::<K>(
            images,
            DeviceState { recoveries: openings(images.len(), region_size, align), index },
            loads,
        ),
    ensures
        takes_all::<K>(
            DeviceState { recoveries: openings(images.len(), region_size, align), index },
            loads,
        ),
        loads_fit::<K>(
            images,
            DeviceState { recoveries: openings(images.len(), region_size, align), index },
            loads,
        ),
{
    let _ = lemma_device_recovered::<K, V>(images, region_size, align, pairs, index, loads);
}

/// After a reopen every key that stands in the complete regions of a device is
/// found, also one with several entries: once all regions are recovered, in
/// whatever order their loads came, a lookup returns the value of one of them,
/// namely of the first entry of the key in some region, as long as the offsets
/// of its entries fit in `u32`.
pub proof fn law_repeated_key_after_reopen<K: Key, V: Value>(
    images: Seq<Seq<u8>>,
    region_size: usize,
    align: usize,
    pairs: Seq<Seq<(K::V, V::V)>>,
    index: Map<K::V, Location>,
    loads: Seq<Load>,
    disk: spec_fn(Location) -> Option<Seq<u8>>,
    key: K::V,
)
    requires
        ENTRY_FOOTER_LEN <= align <= region_size,
        region_size + align <= usize::MAX,
        device_holds::<K, V>(images, region_size, align, pairs),
        loads_from::<K>(
            images,
            DeviceState { recoveries: openings(images.len(), region_size, align), index },
            loads,
        ),
        all_done(
            handed_all::<K>(
                DeviceState { recoveries: openings(images.len(), region_size, align), index },
                loads,
            ).recoveries,
        ),
        disk_of(disk, images),
        exists|r: int, i: int| key_at(pairs, key, r, i),
        forall|r: int, i: int| #[trigger]
            key_at(pairs, key, r, i) ==> log_end::<K, V>(align as int, pairs[r].take(i))
                <= u32::MAX,
    ensures
        ({
            let end = handed_all::<K>(
                DeviceState { recoveries: openings(images.len(), region_size, align), index },
                loads,
            );
            exists|r: int, i: int| #[trigger]
                first_at(pairs, key, r, i) && lookup_outcome::<K, V>(end.index, disk, key) == Some(
                    pairs[r][i].1,
                )
        }),
{
    let start = DeviceState { recoveries: openings(images.len(), region_size, align), index };
    let end = handed_all::<K>(start, loads);
    let left = lemma_device_recovered::<K, V>(images, region_size, align, pairs, index, loads);
    assert(key_recorded::<K, V>(end.index, align, pairs, left, key));
    let (s, j) = choose|s: int, j: int| key_at(pairs, key, s, j);
    assert(key_at(pairs, key, s, j));
    assert(left[s] == 0);
    assert(key_at(pairs, key, s, j) && left[s] <= j);
    let (r, i) = choose|r: int, i: int|
        stands_for::<K, V>(end.index, align, pairs, left, key, r, i);
    assert(stands_for::<K, V>(end.index, align, pairs, left, key, r, i));
    assert(key_at(pairs, key, r, i));
    assert(left[r] == 0);
    assert(first_at(pairs, key, r, i));
    lemma_pair_loads::<K, V>(images, region_size, align, pairs, disk, r, i);
    crate::entry::law_read_of_entry::<K, V>(key, pairs[r][i].1, disk(end.index[key])->0);
}

/// Everything in the complete regions of a device is found again after a
/// reopen: once all regions are recovered, in whatever order their loads came,
/// a lookup of a key that stands in exactly one entry of the device returns the
/// value of that entry, as long as its offset fits in `u32`.
pub proof fn law_lookup_after_reopen<K: Key, V: Value>(
    images: Seq<Seq<u8>>,
    region_size: usize,
    align: usize,
    pairs: Seq<Seq<(K::V, V::V)>>,
    index: Map<K::V, Location>,
    loads: Seq<Load>,
    disk: spec_fn(Location) -> Option<Seq<u8>>,
    r: int,
    i: int,
)
    requires
        ENTRY_FOOTER_LEN <= align <= region_size,
        region_size + align <= usize::MAX,
        device_holds::<K, V>(images, region_size, align, pairs),
        loads_from::<K>(
            images,
            DeviceState { recoveries: openings(images.len(), region_size, align), index },
            loads,
        ),
        all_done(
            handed_all::<K>(
                DeviceState { recoveries: openings(images.len(), region_size, align), index },
                loads,
            ).recoveries,
        ),
        disk_of(disk, images),
        only_pair(pairs, r, i),
        log_end::<K, V>(align as int, pairs[r].take(i)) <= u32::MAX,
    ensures
        lookup_outcome::<K, V>(
            handed_all::<K>(
                DeviceState { recoveries: openings(images.len(), region_size, align), index },
                loads,
            ).index,
            disk,
            pairs[r][i].0,
        ) == Some(pairs[r][i].1),
{
    let key = pairs[r][i].0;
    assert(key_at(pairs, key, r, i));
    assert forall|s: int, j: int| #[trigger] key_at(pairs, key, s, j) implies log_end::<K, V>(
        align as int,
        pairs[s].take(j),
    ) <= u32::MAX by {
        assert(s == r && j == i);
    }
    law_repeated_key_after_reopen::<K, V>(
        images,
        region_size,
        align,
        pairs,
        index,
        loads,
        disk,
        key,
    );
}

/// A load of the place of a pair returns its entry.
proof fn lemma_pair_loads<K: Key, V: Value>(
    images: Seq<Seq<u8>>,
    region_size: usize,
    align: usize,
    pairs: Seq<Seq<(K::V, V::V)>>,
    disk: spec_fn(Location) -> Option<Seq<u8>>,
    r: int,
    i: int,
)
    requires
        align > 0,
        device_holds::<K, V>(images, region_size, align, pairs),
        disk_of(disk, images),
        0 <= r < pairs.len(),
        0 <= i < pairs[r].len(),
        log_end::<K, V>(align as int, pairs[r].take(i)) <= u32::MAX,
    ensures
        holds_entry::<K, V>(
            disk(pair_location::<K, V>(r as RegionId, 0, align as int, pairs[r], i)),
            pairs[r][i].0,
            pairs[r][i].1,
        ),
{
    assert(images[r].len() == region_size);
    assert(pair_slot_len::<K, V>(align as int, pairs[r][i]) <= u32::MAX);
    crate::region_log::law_place_of_pair::<K, V>(
        images[r],
        r as RegionId,
        0,
        align as int,
        pairs[r],
        i,
    );
    crate::region_log::lemma_slot_len(
        align as int,
        K::encode(pairs[r][i].0).len(),
        V::encode(pairs[r][i].1).len(),
    );
}

/// A reopened store is a map: the index that is recovered, in whatever order
/// the loads came, holds contents of the complete regions and nothing else.
/// Every key of them is there, with the value of the first of its entries in
/// some region. Lookups, inserts and removals go on from there.
pub proof fn law_reopened_store_holds<K: Key, V: Value>(
    images: Seq<Seq<u8>>,
    region_size: usize,
    align: usize,
    pairs: Seq<Seq<(K::V, V::V)>>,
    loads: Seq<Load>,
    disk: spec_fn(Location) -> Option<Seq<u8>>,
) -> (contents: Map<K::V, V::V>)
    requires
        ENTRY_FOOTER_LEN <= align <= region_size,
        region_size + align <= usize::MAX,
        device_holds::<K, V>(images, region_size, align, pairs),
        loads_from::<K>(
            images,
            DeviceState {
                recoveries: openings(images.len(), region_size, align),
                index: Map::<K::V, Location>::empty(),
            },
            loads,
        ),
        all_done(
            handed_all::<K>(
                DeviceState {
                    recoveries: openings(images.len(), region_size, align),
                    index: Map::<K::V, Location>::empty(),
                },
                loads,
            ).recoveries,
        ),
        disk_of(disk, images),
        forall|key: K::V, r: int, i: int| #[trigger]
            key_at(pairs, key, r, i) ==> log_end::<K, V>(align as int, pairs[r].take(i))
                <= u32::MAX,
    ensures
        contents_of(contents, pairs),
        holds::<K, V>(
            handed_all::<K>(
                DeviceState {
                    recoveries: openings(images.len(), region_size, align),
                    index: Map::<K::V, Location>::empty(),
                },
                loads,
            ).index,
            disk,
            contents,
        ),
{
    let empty = Map::<K::V, Location>::empty();
    let start = DeviceState {
        recoveries: openings(images.len(), region_size, align),
        index: empty,
    };
    let index = handed_all::<K>(start, loads).index;
    let left = lemma_device_recovered::<K, V>(images, region_size, align, pairs, empty, loads);
    let contents = Map::new(
        |key: K::V| index.contains_key(key),
        |key: K::V|
            {
                let (r, i) = choose|r: int, i: int|
                    stands_for::<K, V>(index, align, pairs, left, key, r, i);
                pairs[r][i].1
            },
    );
    assert forall|key: K::V, r: int, i: int| #[trigger]
        key_at(pairs, key, r, i) implies contents.contains_key(key) by {
        assert(left[r] == 0);
        assert(key_at(pairs, key, r, i) && left[r] <= i);
        assert(key_recorded::<K, V>(index, align, pairs, left, key));
    }
    assert forall|key: K::V| #[trigger] index.contains_key(key) implies holds_entry::<K, V>(
        disk(index[key]),
        key,
        contents[key],
    ) && exists|r: int, i: int| #[trigger]
        first_at(pairs, key, r, i) && contents[key] == pairs[r][i].1 by {
        let (s, j) = choose|s: int, j: int|
            #![trigger key_at(pairs, key, s, j)]
            key_at(pairs, key, s, j) && left[s] <= j;
        assert(key_at(pairs, key, s, j) && left[s] <= j);
        assert(key_recorded::<K, V>(index, align, pairs, left, key));
        let (r, i) = choose|r: int, i: int|
            stands_for::<K, V>(index, align, pairs, left, key, r, i);
        assert(stands_for::<K, V>(index, align, pairs, left, key, r, i));
        assert(key_at(pairs, key, r, i));
        assert(left[r] == 0);
        assert(first_at(pairs, key, r, i));
        lemma_pair_loads::<K, V>(images, region_size, align, pairs, disk, r, i);
    }
    assert(index.dom() =~= contents.dom());
    contents
}

/// A reopened store is the map that it was, if the pairs of each key on the
/// device have the same value: it holds exactly the pairs of the complete
/// regions.
pub proof fn law_reopened_store_is_the_same<K: Key, V: Value>(
    images: Seq<Seq<u8>>,
    region_size: usize,
    align: usize,
    pairs: Seq<Seq<(K::V, V::V)>>,
    loads: Seq<Load>,
    disk: spec_fn(Location) -> Option<Seq<u8>>,
    contents: Map<K::V, V::V>,
)
    requires
        ENTRY_FOOTER_LEN <= align <= region_size,
        region_size + align <= usize::MAX,
        device_holds::<K, V>(images, region_size, align, pairs),
        loads_from::<K>(
            images,
            DeviceState {
                recoveries: openings(images.len(), region_size, align),
                index: Map::<K::V, Location>::empty(),
            },
            loads,
        ),
        all_done(
            handed_all::<K>(
                DeviceState {
                    recoveries: openings(images.len(), region_size, align),
                    index: Map::<K::V, Location>::empty(),
                },
                loads,
            ).recoveries,
        ),
        disk_of(disk, images),
        forall|key: K::V, r: int, i: int| #[trigger]
            key_at(pairs, key, r, i) ==> log_end::<K, V>(align as int, pairs[r].take(i))
                <= u32::MAX,
        forall|key: K::V, r: int, i: int| #[trigger]
            key_at(pairs, key, r, i) ==> contents.contains_key(key) && contents[key]
                == pairs[r][i].1,
        forall|key: K::V| #[trigger]
            contents.contains_key(key) ==> exists|r: int, i: int| key_at(pairs, key, r, i),
    ensures
        holds::<K, V>(
            handed_all::<K>(
                DeviceState {
                    recoveries: openings(images.len(), region_size, align),
                    index: Map::<K::V, Location>::empty(),
                },
                loads,
            ).index,
            disk,
            contents,
        ),
{
    let found = law_reopened_store_holds::<K, V>(images, region_size, align, pairs, loads, disk);
    assert forall|key: K::V| #[trigger] found.contains_key(key) implies contents.contains_key(key)
        && contents[key] == found[key] by {
        let (r, i) = choose|r: int, i: int| #[trigger]
            first_at(pairs, key, r, i) && found[key] == pairs[r][i].1;
        assert(key_at(pairs, key, r, i));
    }
    assert forall|key: K::V| #[trigger] contents.contains_key(key) implies found.contains_key(
        key,
    ) by {
        let (r, i) = choose|r: int, i: int| key_at(pairs, key, r, i);
        assert(key_at(pairs, key, r, i));
    }
    assert(found =~= contents);
}

/// The recovery of a device starts with the recovery of each of its regions,
/// in the order of their numbers.
pub proof fn law_openings(regions: RegionId, region_size: usize, align: usize, region: RegionId)
    ensures
        openings(regions as nat, region_size, align).len() == regions,
        region < regions ==> openings(regions as nat, region_size, align)[region as int]
            == (RegionRecovery::Opening { region, region_size, align }),
{
}

} // verus!
