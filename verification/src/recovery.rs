//! The recovery of the index of one region: a state machine that is handed
//! the bytes it asks for, and records the entries that it finds.

use crate::bits::{aligned_down, aligned_up};
use crate::buf::be_value;
use crate::code::Key;
use crate::entry::footer_of;
use crate::footer::{EntryFooter, RegionFooter, REGION_FOOTER_LEN, REGION_MAGIC};
use crate::indices::{Indices, Location, RegionId};
use crate::region_iter::{
    cursor_ok, entry_len, entry_location, footer_plausible, key_end, key_in_block, key_of_block, key_of_blocks, key_start,
    region_complete, region_readable, EntryStep, RegionEntryIter,
};
use vstd::prelude::*;

verus! {

/// How far the recovery of a region has come.
#[derive(Debug, Clone, Copy, PartialEq, Eq)]
pub enum RegionRecovery {
    /// the last block of the region is needed
    Opening {
        /// the region
        region: RegionId,
        /// length of the region
        region_size: usize,
        /// block size of the device
        align: usize,
    },
    /// the block that ends at the cursor is needed
    Block(RegionEntryIter),
    /// the blocks that cover the key of the entry with this footer are needed
    KeyBlocks(RegionEntryIter, EntryFooter),
    /// every entry is recorded
    Recovered(RegionId),
    /// the region holds nothing to recover
    Vacant(RegionId),
}

/// What the recovery of a region needs done next.
#[derive(Debug, Clone, Copy, PartialEq, Eq)]
pub enum RecoveryAction {
    /// load these bytes of the region and hand them to `loaded`
    Load {
        /// the region
        region: RegionId,
        /// where the bytes start
        start: usize,
        /// where they end
        end: usize,
    },
    /// make the region evictable: the recovery is done, the region is valid
    SetEvictable(RegionId),
    /// hand the region out as clean: the recovery is done, the region is not
    /// valid
    Release(RegionId),
}

/// The bytes of a slice, if there is one.
pub open spec fn bytes_of(slice: Option<&[u8]>) -> Option<Seq<u8>> {
    match slice {
        Some(s) => Some(s@),
        None => None,
    }
}

/// The state of a recovery whose walk stands at `iter`.
pub open spec fn walking(iter: RegionEntryIter) -> RegionRecovery {
    if iter.cursor == 0 {
        RegionRecovery::Recovered(iter.region)
    } else {
        RegionRecovery::Block(iter)
    }
}

/// What is recorded once `taken` was recorded on top of `map`.
pub open spec fn recorded<KV>(map: Map<KV, Location>, taken: Option<(KV, Location)>) -> Map<
    KV,
    Location,
> {
    match taken {
        Some(entry) => map.insert(entry.0, entry.1),
        None => map,
    }
}

impl RegionRecovery {
    /// The bytes that are needed next lie behind the start of the region.
    pub open spec fn wf(self) -> bool {
        match self {
            RegionRecovery::Opening { region_size, align, .. } => {
                &&& 0 < align <= region_size
                &&& region_size + align <= usize::MAX
            },
            RegionRecovery::Block(iter) => iter.wf() && iter.align <= iter.cursor,
            RegionRecovery::KeyBlocks(iter, footer) => {
                &&& iter.wf()
                &&& iter.align <= iter.cursor
                &&& footer_plausible(iter.cursor as int, footer)
            },
            _ => true,
        }
    }

    /// The number of the region.
    pub open spec fn region(self) -> RegionId {
        match self {
            RegionRecovery::Opening { region, .. } => region,
            RegionRecovery::Block(iter) => iter.region,
            RegionRecovery::KeyBlocks(iter, _) => iter.region,
            RegionRecovery::Recovered(region) => region,
            RegionRecovery::Vacant(region) => region,
        }
    }

    /// The block size of the device, one once the recovery is over.
    pub open spec fn block_size(self) -> int {
        match self {
            RegionRecovery::Opening { align, .. } => align as int,
            RegionRecovery::Block(iter) => iter.align as int,
            RegionRecovery::KeyBlocks(iter, _) => iter.align as int,
            _ => 1,
        }
    }

    /// Where the bytes that are needed next start and end.
    pub open spec fn range(self) -> (int, int) {
        match self {
            RegionRecovery::Opening { region_size, align, .. } => (
                region_size - align,
                region_size as int,
            ),
            RegionRecovery::Block(iter) => (iter.cursor - iter.align, iter.cursor as int),
            RegionRecovery::KeyBlocks(iter, footer) => (
                aligned_down(iter.align as int, key_start(iter.cursor as int, footer)),
                aligned_up(iter.align as int, key_end(iter.cursor as int, footer)),
            ),
            _ => (0, 0),
        }
    }

    /// Whether the recovery is over.
    pub open spec fn is_done(self) -> bool {
        self is Recovered || self is Vacant
    }

    /// What has to be done next.
    pub open spec fn next_action(self) -> RecoveryAction {
        match self {
            RegionRecovery::Recovered(region) => RecoveryAction::SetEvictable(region),
            RegionRecovery::Vacant(region) => RecoveryAction::Release(region),
            _ => RecoveryAction::Load {
                region: self.region(),
                start: self.range().0 as usize,
                end: self.range().1 as usize,
            },
        }
    }

    /// Whether `loaded` can go on from these bytes: they are as many as were
    /// asked for and spell footers and keys that can be taken.
    pub open spec fn ready<K: Key>(self, slice: Option<Seq<u8>>) -> bool {
        match self {
            RegionRecovery::Opening { region_size, align, .. } => slice matches Some(block) ==> {
                &&& region_readable(region_size as int, block)
                &&& region_complete(block) ==> cursor_ok(
                    align as int,
                    region_size - (RegionFooter::parse(block).padding as usize),
                )
            },
            RegionRecovery::Block(iter) => {
                &&& slice matches Some(block)
                &&& iter.block_ready::<K>(block)
                &&& cursor_ok(iter.align as int, iter.cursor - entry_len(footer_of(block)))
            },
            RegionRecovery::KeyBlocks(iter, footer) => {
                &&& slice matches Some(blocks)
                &&& iter.key_ready::<K>(footer, blocks)
                &&& cursor_ok(iter.align as int, iter.cursor - entry_len(footer))
            },
            _ => false,
        }
    }

    /// The state that follows once the bytes were handed over.
    pub open spec fn after(self, slice: Option<Seq<u8>>) -> RegionRecovery {
        match self {
            RegionRecovery::Opening { region, region_size, align } => match slice {
                Some(block) if region_complete(block) => walking(
                    RegionEntryIter {
                        region,
                        align,
                        cursor: (region_size - (RegionFooter::parse(block).padding
                            as usize)) as usize,
                    },
                ),
                _ => RegionRecovery::Vacant(region),
            },
            RegionRecovery::Block(iter) => {
                let footer = footer_of(slice->0);
                if key_in_block(iter.align as int, iter.cursor as int, footer) {
                    walking(iter.advanced(footer))
                } else {
                    RegionRecovery::KeyBlocks(iter, footer)
                }
            },
            RegionRecovery::KeyBlocks(iter, footer) => walking(iter.advanced(footer)),
            _ => self,
        }
    }

    /// The entry that is recorded when the bytes are handed over, if any.
    pub open spec fn taken<K: Key>(self, slice: Option<Seq<u8>>) -> Option<(K::V, Location)> {
        match self {
            RegionRecovery::Block(iter) => {
                let block = slice->0;
                let footer = footer_of(block);
                if key_in_block(iter.align as int, iter.cursor as int, footer) {
                    Some(
                        (
                            K::decode(key_of_block(block, footer)),
                            entry_location(iter.region, iter.cursor as int, footer),
                        ),
                    )
                } else {
                    None
                }
            },
            RegionRecovery::KeyBlocks(iter, footer) => Some(
                (
                    K::decode(
                        key_of_blocks(iter.align as int, iter.cursor as int, footer, slice->0),
                    ),
                    entry_location(iter.region, iter.cursor as int, footer),
                ),
            ),
            _ => None,
        }
    }

    /// Starts the recovery of a region.
    pub fn new(region: RegionId, region_size: usize, align: usize) -> (r: RegionRecovery)
        requires
            0 < align <= region_size,
            region_size + align <= usize::MAX,
        ensures
            r == (RegionRecovery::Opening { region, region_size, align }),
            r.wf(),
    {
        RegionRecovery::Opening { region, region_size, align }
    }

    /// Tells what has to be done next.
    pub fn action(&self) -> (r: RecoveryAction)
        requires
            self.wf(),
        ensures
            r == self.next_action(),
            match *self {
                RegionRecovery::Opening { region, region_size, align } => r
                    == (RecoveryAction::Load {
                    region,
                    start: (region_size - align) as usize,
                    end: region_size,
                }),
                RegionRecovery::Block(iter) => r == (RecoveryAction::Load {
                    region: iter.region,
                    start: (iter.cursor - iter.align) as usize,
                    end: iter.cursor,
                }),
                RegionRecovery::KeyBlocks(iter, footer) => {
                    let align = iter.align as int;
                    let key_end = iter.cursor - 20 - footer.padding;
                    let key_start = key_end - footer.key_len;
                    &&& r matches RecoveryAction::Load { region, start, end }
                    &&& region == iter.region
                    &&& start as int % align == 0
                    &&& start <= key_start < start + align
                    &&& end as int % align == 0
                    &&& key_end <= end < key_end + align
                },
                RegionRecovery::Recovered(region) => r == RecoveryAction::SetEvictable(region),
                RegionRecovery::Vacant(region) => r == RecoveryAction::Release(region),
            },
    {
        match self {
            RegionRecovery::Opening { region, region_size, align } => {
                let (start, end) = RegionEntryIter::footer_range(*region_size, *align);
                RecoveryAction::Load { region: *region, start, end }
            },
            RegionRecovery::Block(iter) => RecoveryAction::Load {
                region: iter.region,
                start: iter.cursor - iter.align,
                end: iter.cursor,
            },
            RegionRecovery::KeyBlocks(iter, footer) => {
                let (start, end) = iter.key_range(footer);
                RecoveryAction::Load { region: iter.region, start, end }
            },
            RegionRecovery::Recovered(region) => RecoveryAction::SetEvictable(*region),
            RegionRecovery::Vacant(region) => RecoveryAction::Release(*region),
        }
    }

    /// Goes on from the bytes that were asked for, `None` if the region has
    /// none, and records the entry that they complete.
    pub fn loaded<K: Key>(self, slice: Option<&[u8]>, indices: &mut Indices<K>) -> (r: RegionRecovery)
        requires
            self.wf(),
            self.ready::<K>(bytes_of(slice)),
            old(indices).wf(),
        ensures
            r.wf(),
            r == self.after(bytes_of(slice)),
            final(indices).wf(),
            final(indices)@ == recorded(old(indices)@, self.taken::<K>(bytes_of(slice))),
            self matches RegionRecovery::Opening { region, region_size, align } ==> {
                let n = slice->0@.len() as int;
                let magic = be_value(slice->0@.subrange(n - 8, n));
                let cursor = region_size - be_value(slice->0@.subrange(n - 16, n - 8)) as usize;
                &&& final(indices)@ == old(indices)@
                &&& slice is None || magic != 0x19970327 ==> r == RegionRecovery::Vacant(region)
                &&& slice is Some && magic == 0x19970327 ==> r == (if cursor == 0 {
                    RegionRecovery::Recovered(region)
                } else {
                    RegionRecovery::Block(RegionEntryIter { region, align, cursor: cursor as usize })
                })
            },
    {
        proof {
            if self is Opening {
                law_opening_step::<K>(self, bytes_of(slice));
            }
        }
        match self {
            RegionRecovery::Opening { region, region_size, align } => {
                match RegionEntryIter::open(region, region_size, align, slice) {
                    Some(iter) => RegionRecovery::resume(iter),
                    None => RegionRecovery::Vacant(region),
                }
            },
            RegionRecovery::Block(iter) => {
                let mut iter = iter;
                match slice {
                    Some(block) => match iter.next::<K>(block) {
                        EntryStep::Entry(index) => {
                            indices.insert(index);
                            RegionRecovery::resume(iter)
                        },
                        EntryStep::LoadKey { footer, .. } => RegionRecovery::KeyBlocks(
                            iter,
                            footer,
                        ),
                    },
                    None => self,
                }
            },
            RegionRecovery::KeyBlocks(iter, footer) => {
                let mut iter = iter;
                match slice {
                    Some(blocks) => {
                        let index = iter.next_with_key::<K>(footer, blocks);
                        indices.insert(index);
                        RegionRecovery::resume(iter)
                    },
                    None => self,
                }
            },
            _ => self,
        }
    }

    /// The recovery whose walk stands at `iter`.
    fn resume(iter: RegionEntryIter) -> (r: RegionRecovery)
        requires
            cursor_ok(iter.align as int, iter.cursor as int),
        ensures
            r == walking(iter),
    {
        match iter.block_range() {
            Some(_) => RegionRecovery::Block(iter),
            None => RegionRecovery::Recovered(iter.region),
        }
    }

    /// Tells whether `loaded` can go on from these bytes.
    pub fn accepts<K: Key>(&self, slice: Option<&[u8]>) -> (b: bool)
        requires
            self.wf(),
        ensures
            b == self.ready::<K>(bytes_of(slice)),
            *self matches RegionRecovery::Opening { region_size, align, .. } ==> {
                let n = slice->0@.len() as int;
                let magic = be_value(slice->0@.subrange(n - 8, n));
                let cursor = region_size - be_value(slice->0@.subrange(n - 16, n - 8)) as usize;
                b <==> slice is None || n >= 16 && (magic != 0x19970327 || cursor == 0 || align
                    <= cursor)
            },
            *self is Block || *self is KeyBlocks ==> (b ==> slice is Some),
            *self is Recovered || *self is Vacant ==> !b,
    {
        proof {
            if *self is Opening {
                law_opening_step::<K>(*self, bytes_of(slice));
            }
        }
        match self {
            RegionRecovery::Opening { region_size, align, .. } => match slice {
                Some(block) => {
                    if block.len() < REGION_FOOTER_LEN {
                        return false;
                    }
                    let footer = RegionFooter::read(block);
                    if footer.magic != REGION_MAGIC {
                        return true;
                    }
                    let padding: usize = footer.padding as usize;
                    padding <= *region_size && (padding == *region_size || *align <= *region_size
                        - padding)
                },
                None => true,
            },
            RegionRecovery::Block(iter) => match slice {
                Some(block) => iter.accepts_block::<K>(block),
                None => false,
            },
            RegionRecovery::KeyBlocks(iter, footer) => match slice {
                Some(blocks) => iter.accepts_key::<K>(footer, blocks),
                None => false,
            },
            _ => false,
        }
    }
}

/// Whether the next load can consist of whole blocks: the region does, or the
/// part of it before the cursor.
pub open spec fn on_block_boundary(recovery: RegionRecovery) -> bool {
    match recovery {
        RegionRecovery::Opening { region_size, align, .. } => region_size as int % align as int
            == 0,
        RegionRecovery::Block(iter) => iter.cursor as int % iter.align as int == 0,
        _ => true,
    }
}

/// Loads consist of whole blocks, also where a key starts or ends inside one.
pub proof fn law_loads_whole_blocks(recovery: RegionRecovery, align: int)
    requires
        recovery.wf(),
        !recovery.is_done(),
        on_block_boundary(recovery),
        align == recovery.block_size(),
    ensures
        recovery.range().0 % align == 0,
        recovery.range().1 % align == 0,
        0 <= recovery.range().0 <= recovery.range().1,
{
    match recovery {
        RegionRecovery::Opening { region_size, .. } => {
            vstd::arithmetic::div_mod::lemma_mod_sub_multiples_vanish(region_size as int, align);
        },
        RegionRecovery::Block(iter) => {
            vstd::arithmetic::div_mod::lemma_mod_sub_multiples_vanish(iter.cursor as int, align);
        },
        RegionRecovery::KeyBlocks(iter, footer) => {
            crate::bits::lemma_aligned_down(align, key_start(iter.cursor as int, footer));
            crate::bits::lemma_aligned_up(align, key_end(iter.cursor as int, footer));
        },
        _ => {},
    }
}

/// The end of the place of a recovered entry does not lie behind the cursor.
pub proof fn lemma_taken_in_range<K: Key>(recovery: RegionRecovery, slice: Option<Seq<u8>>)
    requires
        recovery.wf(),
        recovery.ready::<K>(slice),
    ensures
        recovery.taken::<K>(slice) matches Some(entry) ==> entry.1.offset + entry.1.len
            <= usize::MAX,
{
    match recovery {
        RegionRecovery::Block(iter) => {
            lemma_truncated((iter.cursor - entry_len(footer_of(slice->0))) as usize);
            lemma_truncated(entry_len(footer_of(slice->0)) as usize);
        },
        RegionRecovery::KeyBlocks(iter, footer) => {
            lemma_truncated((iter.cursor - entry_len(footer)) as usize);
            lemma_truncated(entry_len(footer) as usize);
        },
        _ => {},
    }
}

/// Cutting a number down to a `u32` does not make it larger.
pub proof fn lemma_truncated(x: usize)
    ensures
        (x as u32) <= x,
{
    assert((x as u32) <= x) by (bit_vector);
}

/// A recovery that is not over asks for the last block of its region, for the
/// block before its cursor, or for the whole blocks that cover the key, from
/// the one in which the key starts to the one in which it ends. One that is
/// over hands on its region, which is evictable if it is valid and clean if it
/// is not.
pub proof fn law_action(recovery: RegionRecovery)
    requires
        recovery.wf(),
    ensures
        match recovery {
            RegionRecovery::Opening { region, region_size, align } => recovery.next_action()
                == (RecoveryAction::Load {
                region,
                start: (region_size - align) as usize,
                end: region_size,
            }),
            RegionRecovery::Block(iter) => recovery.next_action() == (RecoveryAction::Load {
                region: iter.region,
                start: (iter.cursor - iter.align) as usize,
                end: iter.cursor,
            }),
            RegionRecovery::KeyBlocks(iter, footer) => {
                let align = iter.align as int;
                let key_end = iter.cursor - 20 - footer.padding;
                let key_start = key_end - footer.key_len;
                &&& recovery.next_action() matches RecoveryAction::Load { region, start, end }
                &&& region == iter.region
                &&& start as int % align == 0
                &&& start <= key_start < start + align
                &&& end as int % align == 0
                &&& key_end <= end < key_end + align
            },
            RegionRecovery::Recovered(region) => recovery.next_action()
                == RecoveryAction::SetEvictable(region),
            RegionRecovery::Vacant(region) => recovery.next_action() == RecoveryAction::Release(
                region,
            ),
        },
{
    if let RegionRecovery::KeyBlocks(iter, footer) = recovery {
        crate::bits::lemma_aligned_down(iter.align as int, key_start(iter.cursor as int, footer));
        crate::bits::lemma_aligned_up(iter.align as int, key_end(iter.cursor as int, footer));
    }
}

/// A recovery can go on wherever there is a block size, rounding up to it stays
/// in range, and what it asks for lies behind the start of the region.
pub proof fn law_wf_iff(recovery: RegionRecovery)
    ensures
        recovery.wf() <==> match recovery {
            RegionRecovery::Opening { region_size, align, .. } => 0 < align <= region_size
                && region_size + align <= usize::MAX,
            RegionRecovery::Block(iter) => 0 < iter.align <= iter.cursor && iter.cursor + iter.align
                <= usize::MAX,
            RegionRecovery::KeyBlocks(iter, footer) => {
                &&& 0 < iter.align <= iter.cursor
                &&& iter.cursor + iter.align <= usize::MAX
                &&& footer.value_len + footer.key_len + footer.padding <= u32::MAX
                &&& footer.value_len + footer.key_len + footer.padding + 20 <= iter.cursor
            },
            _ => true,
        },
{
}

/// What a recovery makes of the last block of its region, and whether it can.
///
/// Without the block, and with one that does not end in the magic number, the
/// region is vacant. With the number, the walk starts where the padding before
/// it says. Nothing is recorded yet. Each block of sixteen bytes that does not
/// end in the number is accepted, and of the others those whose padding leaves
/// nothing, or at least one block.
pub proof fn law_opening_step<K: Key>(recovery: RegionRecovery, slice: Option<Seq<u8>>)
    requires
        recovery is Opening,
    ensures
        recovery matches RegionRecovery::Opening { region, region_size, align } ==> {
            let n = slice->0.len() as int;
            let magic = be_value(slice->0.subrange(n - 8, n));
            let cursor = region_size - be_value(slice->0.subrange(n - 16, n - 8)) as usize;
            &&& recovery.taken::<K>(slice) is None
            &&& recovery.ready::<K>(slice) <==> slice is None || n >= 16 && (magic != 0x19970327
                || cursor == 0 || align <= cursor)
            &&& slice is None ==> recovery.after(slice) == RegionRecovery::Vacant(region)
            &&& slice is Some && n >= 16 && magic != 0x19970327 ==> recovery.after(slice)
                == RegionRecovery::Vacant(region)
            &&& slice is Some && n >= 16 && magic == 0x19970327 && cursor >= 0 ==> recovery.after(
                slice,
            ) == (if cursor == 0 {
                RegionRecovery::Recovered(region)
            } else {
                RegionRecovery::Block(RegionEntryIter { region, align, cursor: cursor as usize })
            })
        },
{
    if slice is Some && slice->0.len() >= 16 {
        crate::region_iter::law_complete_iff(slice->0);
        crate::footer::law_region_footer_fields(slice->0);
    }
}

/// A region whose last block does not end in the magic number is handed out as
/// clean, and what is recorded stays as it is.
pub proof fn law_incomplete_region_is_released<K: Key>(
    region: RegionId,
    region_size: usize,
    align: usize,
    block: Seq<u8>,
    map: Map<K::V, Location>,
)
    requires
        block.len() >= 16,
        be_value(block.subrange(block.len() - 8, block.len() as int)) != 0x19970327,
    ensures
        ({
            let opening = RegionRecovery::Opening { region, region_size, align };
            &&& opening.ready::<K>(Some(block))
            &&& opening.after(Some(block)).is_done()
            &&& opening.after(Some(block)).next_action() == RecoveryAction::Release(region)
            &&& recorded(map, opening.taken::<K>(Some(block))) == map
        }),
{
    law_opening_step::<K>(RegionRecovery::Opening { region, region_size, align }, Some(block));
}

/// What a recovery makes of the block before its cursor, and whether it can.
///
/// The block ends in the footer of an entry. A key that lies in the block is
/// read off it: the entry is recorded, and the walk goes on where the entry
/// starts. For any other key the blocks of the key come next.
pub proof fn law_block_step<K: Key>(iter: RegionEntryIter, block: Seq<u8>)
    requires
        iter.wf(),
    ensures
        ({
            let recovery = RegionRecovery::Block(iter);
            let n = block.len() as int;
            let key_len = be_value(block.subrange(n - 20, n - 16)) as int;
            let value_len = be_value(block.subrange(n - 16, n - 12)) as int;
            let padding = be_value(block.subrange(n - 12, n - 8)) as int;
            let len = value_len + key_len + padding + 20;
            let rest = iter.cursor - len;
            let key = block.subrange(n - 20 - padding - key_len, n - 20 - padding);
            let in_block = iter.cursor as int % iter.align as int == 0 && 20 + padding + key_len
                <= iter.align && 20 + padding < iter.align;
            &&& !recovery.ready::<K>(None)
            &&& recovery.ready::<K>(Some(block)) <==> {
                &&& 20 <= n == iter.align <= iter.cursor
                &&& value_len + key_len + padding <= u32::MAX
                &&& rest == 0 || iter.align <= rest
                &&& in_block ==> K::readable(key)
            }
            &&& recovery.ready::<K>(Some(block)) && in_block ==> {
                &&& recovery.taken::<K>(Some(block)) == Some(
                    (
                        K::decode(key),
                        Location {
                            region: iter.region,
                            version: 0,
                            offset: rest as u32,
                            len: len as u32,
                            key_len: key_len as u32,
                            value_len: value_len as u32,
                        },
                    ),
                )
                &&& recovery.after(Some(block)) == if rest == 0 {
                    RegionRecovery::Recovered(iter.region)
                } else {
                    RegionRecovery::Block(
                        RegionEntryIter {
                            region: iter.region,
                            align: iter.align,
                            cursor: rest as usize,
                        },
                    )
                }
            }
            &&& recovery.ready::<K>(Some(block)) && !in_block ==> {
                &&& recovery.taken::<K>(Some(block)) is None
                &&& recovery.after(Some(block)) == RegionRecovery::KeyBlocks(
                    iter,
                    EntryFooter {
                        key_len: key_len as u32,
                        value_len: value_len as u32,
                        padding: padding as u32,
                        checksum: be_value(block.subrange(n - 8, n)) as u64,
                    },
                )
            }
        }),
{
    crate::region_iter::law_block_ready_iff::<K>(iter, block);
    if block.len() >= 20 {
        crate::entry::law_footer_of(block);
        let footer = footer_of(block);
        if footer_plausible(iter.cursor as int, footer) {
            crate::region_iter::law_key_in_block_iff(
                iter.align as int,
                iter.cursor as int,
                footer,
            );
        }
    }
}

/// What a recovery makes of the blocks of a key, from `start` to `end`, and
/// whether it can: the entry is recorded under the key that lies before the
/// padding and the footer, and the walk goes on where the entry starts.
pub proof fn law_key_blocks_step<K: Key>(
    iter: RegionEntryIter,
    footer: EntryFooter,
    blocks: Seq<u8>,
    start: int,
    end: int,
)
    requires
        iter.wf(),
        start % iter.align as int == 0,
        start <= iter.cursor - 20 - footer.padding - footer.key_len < start + iter.align,
        end % iter.align as int == 0,
        iter.cursor - 20 - footer.padding <= end < iter.cursor - 20 - footer.padding + iter.align,
    ensures
        ({
            let recovery = RegionRecovery::KeyBlocks(iter, footer);
            let len = footer.value_len + footer.key_len + footer.padding + 20;
            let rest = iter.cursor - len;
            let stop = iter.cursor - 20 - footer.padding - start;
            let key = blocks.subrange(stop - footer.key_len, stop);
            &&& !recovery.ready::<K>(None)
            &&& recovery.ready::<K>(Some(blocks)) <==> {
                &&& footer.value_len + footer.key_len + footer.padding <= u32::MAX
                &&& rest == 0 || iter.align <= rest
                &&& blocks.len() == end - start
                &&& K::readable(key)
            }
            &&& recovery.taken::<K>(Some(blocks)) == Some(
                (
                    K::decode(key),
                    Location {
                        region: iter.region,
                        version: 0,
                        offset: rest as u32,
                        len: len as u32,
                        key_len: footer.key_len,
                        value_len: footer.value_len,
                    },
                ),
            )
            &&& rest >= 0 ==> recovery.after(Some(blocks)) == if rest == 0 {
                RegionRecovery::Recovered(iter.region)
            } else {
                RegionRecovery::Block(
                    RegionEntryIter {
                        region: iter.region,
                        align: iter.align,
                        cursor: rest as usize,
                    },
                )
            }
        }),
{
    crate::region_iter::law_key_ready_iff::<K>(iter, footer, blocks, start, end);
    crate::bits::law_rounds_down_to(
        iter.align as int,
        key_start(iter.cursor as int, footer),
        start,
    );
}

/// A recovery that is over takes nothing more and stays as it is.
pub proof fn law_done_is_final<K: Key>(recovery: RegionRecovery, slice: Option<Seq<u8>>)
    ensures
        recovery.is_done() <==> recovery is Recovered || recovery is Vacant,
        recovery.is_done() ==> {
            &&& !recovery.ready::<K>(slice)
            &&& recovery.taken::<K>(slice) is None
            &&& recovery.after(slice) == recovery
        },
{
}

/// No step leads from one region to another, or to another block size.
pub proof fn law_step_keeps_region(recovery: RegionRecovery, slice: Option<Seq<u8>>)
    ensures
        recovery.after(slice).region() == recovery.region(),
        !recovery.after(slice).is_done() ==> recovery.after(slice).block_size()
            == recovery.block_size(),
{
}

/// Recording an entry changes what is known of its key and of no other.
pub proof fn law_recorded<KV>(map: Map<KV, Location>, taken: Option<(KV, Location)>, key: KV)
    ensures
        taken is None ==> recorded(map, taken) == map,
        taken matches Some(entry) ==> {
            &&& recorded(map, taken).contains_key(key) <==> map.contains_key(key) || key == entry.0
            &&& recorded(map, taken).contains_key(key) ==> recorded(map, taken)[key] == if key
                == entry.0 {
                entry.1
            } else {
                map[key]
            }
        },
{
}

/// The bytes of a slice are all of its bytes, and there are none only if there
/// is no slice.
pub proof fn law_bytes_of(slice: Option<&[u8]>)
    ensures
        slice is None ==> bytes_of(slice) is None,
        slice matches Some(s) ==> bytes_of(slice) == Some(s@),
{
}

} // verus!
