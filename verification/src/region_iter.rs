//! The walk over the entries of a completely written region, from the last
//! entry to the first.
//!
//! Entries are found from their footers: the region footer gives the end of
//! the last entry, and the footer of each entry gives where it starts, which
//! is where the entry before it ends. The walk asks for the bytes that it
//! needs and is handed them.

use crate::bits::{align_down, align_up, aligned_down, aligned_up};
use crate::buf::be_value;
use crate::code::Key;
use crate::entry::footer_of;
use crate::footer::{
    EntryFooter, RegionFooter, ENTRY_FOOTER_LEN, REGION_FOOTER_LEN, REGION_MAGIC,
};
use crate::indices::{Index, Location, RegionId};
use vstd::prelude::*;

verus! {

/// The length of the entry that `footer` closes.
pub open spec fn entry_len(footer: EntryFooter) -> int {
    footer.value_len + footer.key_len + footer.padding + ENTRY_FOOTER_LEN
}

/// Where the key of the entry that `footer` closes starts in the region, for
/// an entry that ends at `cursor`.
pub open spec fn key_start(cursor: int, footer: EntryFooter) -> int {
    cursor - entry_len(footer) + footer.value_len
}

/// Where the key of the entry that `footer` closes ends in the region, for an
/// entry that ends at `cursor`.
pub open spec fn key_end(cursor: int, footer: EntryFooter) -> int {
    cursor - entry_len(footer) + footer.value_len + footer.key_len
}

/// Whether an entry with this footer can end at `cursor`: its lengths add up
/// in a `u32`, and it does not start before the region.
pub open spec fn footer_plausible(cursor: int, footer: EntryFooter) -> bool {
    &&& footer.value_len + footer.key_len + footer.padding <= u32::MAX
    &&& entry_len(footer) <= cursor
}

/// Whether a walk may stop at `cursor`: at the start of the region, or behind
/// at least one block.
pub open spec fn cursor_ok(align: int, cursor: int) -> bool {
    cursor == 0 || align <= cursor
}

/// Whether the key of the entry that ends at `cursor` lies in the same block
/// as the footer.
pub open spec fn key_in_block(align: int, cursor: int, footer: EntryFooter) -> bool {
    &&& aligned_down(align, key_start(cursor, footer)) == cursor - align
    &&& aligned_up(align, key_end(cursor, footer)) == cursor
}

/// The key bytes in the block that ends with the entry, for a key that lies
/// in it.
pub open spec fn key_of_block(block: Seq<u8>, footer: EntryFooter) -> Seq<u8> {
    let end = block.len() - ENTRY_FOOTER_LEN - footer.padding;
    block.subrange(end - footer.key_len, end)
}

/// The key bytes in the blocks that cover the key of the entry that ends at
/// `cursor`.
pub open spec fn key_of_blocks(
    align: int,
    cursor: int,
    footer: EntryFooter,
    blocks: Seq<u8>,
) -> Seq<u8> {
    let start = aligned_down(align, key_start(cursor, footer));
    blocks.subrange(key_start(cursor, footer) - start, key_end(cursor, footer) - start)
}

/// Where the entry that `footer` closes and that ends at `cursor` stands.
pub open spec fn entry_location(region: RegionId, cursor: int, footer: EntryFooter) -> Location {
    Location {
        region,
        version: 0,
        offset: (cursor - entry_len(footer)) as u32,
        len: entry_len(footer) as u32,
        key_len: footer.key_len,
        value_len: footer.value_len,
    }
}

/// What the walk came to at an entry.
#[derive(Debug)]
pub enum EntryStep<K: Key> {
    /// the index of the entry, which is done
    Entry(Index<K>),
    /// the key lies outside the block: the bytes from `start` to `end` are
    /// needed
    LoadKey {
        /// where the blocks that cover the key start
        start: usize,
        /// where they end
        end: usize,
        /// the footer of the entry
        footer: EntryFooter,
    },
}

/// A position in the walk over a region.
#[derive(Debug, Clone, Copy, PartialEq, Eq)]
pub struct RegionEntryIter {
    /// the region
    pub region: RegionId,
    /// block size of the device
    pub align: usize,
    /// end of the entry that comes next, zero after the first entry
    pub cursor: usize,
}

/// Whether the last block of a region says that the region was completely
/// written.
pub open spec fn region_complete(block: Seq<u8>) -> bool {
    RegionFooter::parse(block).magic == REGION_MAGIC
}

/// Whether the last block of a region is long enough for its footer, and the
/// padding that a valid footer announces is not longer than the region.
pub open spec fn region_readable(region_size: int, block: Seq<u8>) -> bool {
    &&& block.len() >= REGION_FOOTER_LEN
    &&& region_complete(block) ==> (RegionFooter::parse(block).padding as usize) <= region_size
}

impl RegionEntryIter {
    /// There is a block size, and rounding up to it stays in range.
    pub open spec fn wf(self) -> bool {
        &&& self.align > 0
        &&& self.cursor + self.align <= usize::MAX
    }

    /// The walk once the entry with this footer is done.
    pub open spec fn advanced(self, footer: EntryFooter) -> RegionEntryIter {
        RegionEntryIter { cursor: (self.cursor - entry_len(footer)) as usize, ..self }
    }

    /// Whether `block` is the block that ends at the cursor, as far as the
    /// walk can tell, and closes an entry that can be taken.
    pub open spec fn block_ready<K: Key>(self, block: Seq<u8>) -> bool {
        &&& ENTRY_FOOTER_LEN <= self.align <= self.cursor
        &&& block.len() == self.align
        &&& footer_plausible(self.cursor as int, footer_of(block))
        &&& key_in_block(self.align as int, self.cursor as int, footer_of(block)) ==> K::readable(
            key_of_block(block, footer_of(block)),
        )
    }

    /// Whether `blocks` are the blocks that cover the key of the entry with
    /// this footer, as far as the walk can tell, and the key can be read.
    pub open spec fn key_ready<K: Key>(self, footer: EntryFooter, blocks: Seq<u8>) -> bool {
        let align = self.align as int;
        let cursor = self.cursor as int;
        &&& footer_plausible(cursor, footer)
        &&& blocks.len() == aligned_up(align, key_end(cursor, footer)) - aligned_down(
            align,
            key_start(cursor, footer),
        )
        &&& K::readable(key_of_blocks(align, cursor, footer, blocks))
    }

    /// The range of the block that `open` needs: the last one of the region.
    pub fn footer_range(region_size: usize, align: usize) -> (r: (usize, usize))
        requires
            align <= region_size,
        ensures
            r.0 == region_size - align,
            r.1 == region_size,
    {
        (region_size - align, region_size)
    }

    /// Starts the walk over a region, given its last block: `None` if there is
    /// none, or if it does not end in a valid region footer.
    pub fn open(
        region: RegionId,
        region_size: usize,
        align: usize,
        block: Option<&[u8]>,
    ) -> (r: Option<RegionEntryIter>)
        requires
            block matches Some(b) ==> region_readable(region_size as int, b@),
        ensures
            r is Some <==> (block is Some && region_complete(block->0@)),
            r matches Some(iter) ==> {
                &&& iter.region == region
                &&& iter.align == align
                &&& iter.cursor == region_size - (RegionFooter::parse(block->0@).padding as usize)
            },
            ({
                let n = block->0@.len() as int;
                let magic = be_value(block->0@.subrange(n - 8, n));
                let padding = be_value(block->0@.subrange(n - 16, n - 8)) as usize;
                &&& r is Some <==> block is Some && magic == 0x19970327
                &&& r matches Some(iter) ==> iter == (RegionEntryIter {
                    region,
                    align,
                    cursor: (region_size - padding) as usize,
                })
            }),
    {
        let slice = match block {
            Some(slice) => slice,
            None => return None,
        };
        proof {
            law_complete_iff(slice@);
        }
        let footer = RegionFooter::read(slice);
        if footer.magic != REGION_MAGIC {
            return None;
        }
        let cursor: usize = region_size - footer.padding as usize;
        Some(RegionEntryIter { region, align, cursor })
    }

    /// The range of the block that `next` needs, `None` when no entry is left.
    pub fn block_range(&self) -> (r: Option<(usize, usize)>)
        requires
            self.cursor == 0 || self.align <= self.cursor,
        ensures
            r == (if self.cursor == 0 {
                None
            } else {
                Some(((self.cursor - self.align) as usize, self.cursor))
            }),
    {
        if self.cursor == 0 {
            return None;
        }
        Some((self.cursor - self.align, self.cursor))
    }

    /// The range of the blocks that cover the key of the entry that ends at
    /// the cursor.
    pub fn key_range(&self, footer: &EntryFooter) -> (r: (usize, usize))
        requires
            self.wf(),
            footer_plausible(self.cursor as int, *footer),
        ensures
            r.0 == aligned_down(self.align as int, key_start(self.cursor as int, *footer)),
            r.1 == aligned_up(self.align as int, key_end(self.cursor as int, *footer)),
            0 <= key_start(self.cursor as int, *footer) - r.0,
            key_end(self.cursor as int, *footer) <= r.1,
            ({
                let align = self.align as int;
                let end = self.cursor - 20 - footer.padding;
                let start = end - footer.key_len;
                &&& r.0 as int % align == 0
                &&& r.0 <= start < r.0 + align
                &&& r.1 as int % align == 0
                &&& end <= r.1 < end + align
            }),
    {
        let entry_len: usize = (footer.value_len + footer.key_len + footer.padding) as usize
            + EntryFooter::serialized_len();
        let abs_start: usize = self.cursor - entry_len + footer.value_len as usize;
        let abs_end: usize = self.cursor - entry_len + (footer.value_len + footer.key_len) as usize;
        proof {
            crate::bits::lemma_aligned_down(self.align as int, abs_start as int);
            crate::bits::lemma_aligned_up(self.align as int, abs_end as int);
        }
        (align_down(self.align, abs_start), align_up(self.align, abs_end))
    }

    /// Takes the entry that ends at the cursor, given the block that ends
    /// there. If the key is not in that block the walk stays where it is and
    /// asks for the blocks of the key.
    pub fn next<K: Key>(&mut self, block: &[u8]) -> (r: EntryStep<K>)
        requires
            old(self).wf(),
            old(self).block_ready::<K>(block@),
        ensures
            ({
                let footer = footer_of(block@);
                let align = old(self).align as int;
                let cursor = old(self).cursor as int;
                if key_in_block(align, cursor, footer) {
                    &&& *final(self) == old(self).advanced(footer)
                    &&& r matches EntryStep::Entry(index) && index@ == (
                        K::decode(key_of_block(block@, footer)),
                        entry_location(old(self).region, cursor, footer),
                    )
                } else {
                    &&& *final(self) == *old(self)
                    &&& r == EntryStep::<K>::LoadKey {
                        start: aligned_down(align, key_start(cursor, footer)) as usize,
                        end: aligned_up(align, key_end(cursor, footer)) as usize,
                        footer,
                    }
                }
            }),
            ({
                let n = block@.len() as int;
                let key_len = be_value(block@.subrange(n - 20, n - 16)) as int;
                let value_len = be_value(block@.subrange(n - 16, n - 12)) as int;
                let padding = be_value(block@.subrange(n - 12, n - 8)) as int;
                let len = value_len + key_len + padding + 20;
                let align = old(self).align as int;
                let cursor = old(self).cursor as int;
                let in_block = cursor % align == 0 && 20 + padding + key_len <= align && 20
                    + padding < align;
                match r {
                    EntryStep::Entry(index) => {
                        &&& in_block
                        &&& index.key@ == K::decode(
                            block@.subrange(n - 20 - padding - key_len, n - 20 - padding),
                        )
                        &&& index.region == old(self).region
                        &&& index.version == 0
                        &&& index.offset == (cursor - len) as u32
                        &&& index.len == len as u32
                        &&& index.key_len == key_len
                        &&& index.value_len == value_len
                        &&& final(self).cursor == cursor - len
                        &&& final(self).region == old(self).region
                        &&& final(self).align == old(self).align
                    },
                    EntryStep::LoadKey { start, end, footer } => {
                        &&& !in_block
                        &&& *final(self) == *old(self)
                        &&& footer.key_len == key_len
                        &&& footer.value_len == value_len
                        &&& footer.padding == padding
                        &&& footer.checksum == be_value(block@.subrange(n - 8, n))
                        &&& start as int % align == 0
                        &&& start <= cursor - 20 - padding - key_len < start + align
                        &&& end as int % align == 0
                        &&& cursor - 20 - padding <= end < cursor - 20 - padding + align
                    },
                }
            }),
    {
        proof {
            crate::entry::law_footer_of(block@);
            law_key_in_block_iff(self.align as int, self.cursor as int, footer_of(block@));
        }
        let align: usize = self.align;
        let footer = EntryFooter::read(&block[align - EntryFooter::serialized_len()..align]);
        proof {
            assert(block@.subrange(align - ENTRY_FOOTER_LEN, align as int) =~= block@.skip(
                block@.len() - ENTRY_FOOTER_LEN,
            ));
        }
        let entry_len: usize = (footer.value_len + footer.key_len + footer.padding) as usize
            + EntryFooter::serialized_len();

        let (align_start, align_end) = self.key_range(&footer);

        if align_start == self.cursor - align && align_end == self.cursor {
            // key and footer in the same block, read directly from slice
            let rel_start: usize = align - EntryFooter::serialized_len() - (footer.padding
                + footer.key_len) as usize;
            let rel_end: usize = align - EntryFooter::serialized_len() - footer.padding as usize;
            let key = K::read(&block[rel_start..rel_end]);
            self.cursor = self.cursor - entry_len;
            EntryStep::Entry(
                Index {
                    key,
                    region: self.region,
                    version: 0,
                    offset: self.cursor as u32,
                    len: entry_len as u32,
                    key_len: footer.key_len,
                    value_len: footer.value_len,
                },
            )
        } else {
            EntryStep::LoadKey { start: align_start, end: align_end, footer }
        }
    }

    /// Takes the entry that ends at the cursor, given its footer and the
    /// blocks that cover its key.
    pub fn next_with_key<K: Key>(&mut self, footer: EntryFooter, blocks: &[u8]) -> (index: Index<K>)
        requires
            old(self).wf(),
            old(self).key_ready::<K>(footer, blocks@),
        ensures
            *final(self) == old(self).advanced(footer),
            index@ == (
                K::decode(
                    key_of_blocks(
                        old(self).align as int,
                        old(self).cursor as int,
                        footer,
                        blocks@,
                    ),
                ),
                entry_location(old(self).region, old(self).cursor as int, footer),
            ),
            ({
                let len = footer.value_len + footer.key_len + footer.padding + 20;
                let end = old(self).cursor - 20 - footer.padding;
                &&& forall|start: int|
                    #![trigger start % old(self).align as int]
                    start % old(self).align as int == 0 && start <= end - footer.key_len < start
                        + old(self).align ==> index.key@ == K::decode(
                        blocks@.subrange(end - footer.key_len - start, end - start),
                    )
                &&& index.region == old(self).region
                &&& index.version == 0
                &&& index.offset == (old(self).cursor - len) as u32
                &&& index.len == len as u32
                &&& index.key_len == footer.key_len
                &&& index.value_len == footer.value_len
                &&& final(self).cursor == old(self).cursor - len
                &&& final(self).region == old(self).region
                &&& final(self).align == old(self).align
            }),
    {
        proof {
            let align = self.align as int;
            let from = self.cursor - 20 - footer.padding - footer.key_len;
            assert forall|start: int|
                #![trigger start % align]
                start % align == 0 && start <= from < start + align implies start
                == aligned_down(align, from) by {
                crate::bits::law_rounds_down_to(align, from, start);
            }
        }
        let entry_len: usize = (footer.value_len + footer.key_len + footer.padding) as usize
            + EntryFooter::serialized_len();
        let abs_start: usize = self.cursor - entry_len + footer.value_len as usize;
        let abs_end: usize = self.cursor - entry_len + (footer.value_len + footer.key_len) as usize;
        let (align_start, _) = self.key_range(&footer);
        let rel_start: usize = abs_start - align_start;
        let rel_end: usize = abs_end - align_start;
        let key = K::read(&blocks[rel_start..rel_end]);
        self.cursor = self.cursor - entry_len;
        Index {
            key,
            region: self.region,
            version: 0,
            offset: self.cursor as u32,
            len: entry_len as u32,
            key_len: footer.key_len,
            value_len: footer.value_len,
        }
    }

    /// Whether an entry with this footer can end at the cursor, and the walk
    /// can go on before it.
    fn accepts_footer(&self, footer: &EntryFooter) -> (b: bool)
        ensures
            b == (footer_plausible(self.cursor as int, *footer) && cursor_ok(
                self.align as int,
                self.cursor - entry_len(*footer),
            )),
    {
        let total: u64 = footer.value_len as u64 + footer.key_len as u64 + footer.padding as u64;
        if total > u32::MAX as u64 {
            return false;
        }
        let entry_len: u64 = total + EntryFooter::serialized_len() as u64;
        if entry_len > self.cursor as u64 {
            return false;
        }
        let rest: u64 = self.cursor as u64 - entry_len;
        rest == 0 || rest >= self.align as u64
    }

    /// Tells whether `next` accepts `block`, and the walk can go on before the
    /// entry that it closes.
    pub fn accepts_block<K: Key>(&self, block: &[u8]) -> (b: bool)
        requires
            self.wf(),
        ensures
            b == (self.block_ready::<K>(block@) && cursor_ok(
                self.align as int,
                self.cursor - entry_len(footer_of(block@)),
            )),
            ({
                let n = block@.len() as int;
                let key_len = be_value(block@.subrange(n - 20, n - 16)) as int;
                let value_len = be_value(block@.subrange(n - 16, n - 12)) as int;
                let padding = be_value(block@.subrange(n - 12, n - 8)) as int;
                let rest = self.cursor - value_len - key_len - padding - 20;
                let in_block = self.cursor as int % self.align as int == 0 && 20 + padding
                    + key_len <= self.align && 20 + padding < self.align;
                b <==> {
                    &&& 20 <= n == self.align <= self.cursor
                    &&& value_len + key_len + padding <= u32::MAX
                    &&& rest == 0 || self.align <= rest
                    &&& in_block ==> K::readable(
                        block@.subrange(n - 20 - padding - key_len, n - 20 - padding),
                    )
                }
            }),
    {
        proof {
            law_block_ready_iff::<K>(*self, block@);
            if block@.len() >= 20 {
                crate::entry::law_footer_of(block@);
            }
        }
        let align: usize = self.align;
        if align < EntryFooter::serialized_len() || align > self.cursor || block.len() != align {
            return false;
        }
        let footer = EntryFooter::read(&block[align - EntryFooter::serialized_len()..align]);
        proof {
            assert(block@.subrange(align - ENTRY_FOOTER_LEN, align as int) =~= block@.skip(
                block@.len() - ENTRY_FOOTER_LEN,
            ));
        }
        if !self.accepts_footer(&footer) {
            return false;
        }
        let (align_start, align_end) = self.key_range(&footer);
        if align_start == self.cursor - align && align_end == self.cursor {
            let rel_end: usize = align - EntryFooter::serialized_len() - footer.padding as usize;
            K::can_read(&block[rel_end - footer.key_len as usize..rel_end])
        } else {
            true
        }
    }

    /// Tells whether `next_with_key` accepts `blocks`, and the walk can go on
    /// before the entry.
    pub fn accepts_key<K: Key>(&self, footer: &EntryFooter, blocks: &[u8]) -> (b: bool)
        requires
            self.wf(),
        ensures
            b == (self.key_ready::<K>(*footer, blocks@) && cursor_ok(
                self.align as int,
                self.cursor - entry_len(*footer),
            )),
            forall|start: int, end: int|
                #![trigger start % self.align as int, end % self.align as int]
                ({
                    let key_end = self.cursor - 20 - footer.padding;
                    let key_start = key_end - footer.key_len;
                    let rest = key_start - footer.value_len;
                    start % self.align as int == 0 && start <= key_start < start + self.align && end
                        % self.align as int == 0 && key_end <= end < key_end + self.align ==> (b <==> {
                        &&& footer.value_len + footer.key_len + footer.padding <= u32::MAX
                        &&& rest == 0 || self.align <= rest
                        &&& blocks@.len() == end - start
                        &&& K::readable(blocks@.subrange(key_start - start, key_end - start))
                    })
                }),
    {
        proof {
            let align = self.align as int;
            let key_end = self.cursor - 20 - footer.padding;
            let key_start = key_end - footer.key_len;
            assert forall|start: int, end: int|
                #![trigger start % align, end % align]
                start % align == 0 && start <= key_start < start + align && end % align == 0
                    && key_end <= end < key_end + align implies (self.key_ready::<K>(
                *footer,
                blocks@,
            ) <==> {
                &&& footer.value_len + footer.key_len + footer.padding <= u32::MAX
                &&& footer.value_len + footer.key_len + footer.padding + 20 <= self.cursor
                &&& blocks@.len() == end - start
                &&& K::readable(blocks@.subrange(key_start - start, key_end - start))
            }) by {
                law_key_ready_iff::<K>(*self, *footer, blocks@, start, end);
            }
        }
        if !self.accepts_footer(footer) {
            return false;
        }
        let (align_start, align_end) = self.key_range(footer);
        if blocks.len() != align_end - align_start {
            return false;
        }
        let abs_end: usize = self.cursor - EntryFooter::serialized_len() - footer.padding as usize;
        let rel_end: usize = abs_end - align_start;
        K::can_read(&blocks[rel_end - footer.key_len as usize..rel_end])
    }
}

/// A region counts as completely written if and only if the last eight bytes of
/// its last block spell the magic number.
pub proof fn law_complete_iff(block: Seq<u8>)
    requires
        block.len() >= 16,
    ensures
        region_complete(block) <==> be_value(block.subrange(block.len() - 8, block.len() as int))
            == 0x19970327,
{
    crate::footer::law_region_footer_fields(block);
}

/// The last block of a region can be read if it has sixteen bytes and, where
/// the magic number stands at its end, the padding before that is not longer
/// than the region.
pub proof fn law_region_readable_iff(region_size: int, block: Seq<u8>)
    ensures
        block.len() < 16 ==> !region_readable(region_size, block),
        block.len() >= 16 ==> ({
            let n = block.len() as int;
            region_readable(region_size, block) <==> (be_value(block.subrange(n - 8, n))
                == 0x19970327 ==> be_value(block.subrange(n - 16, n - 8)) as usize <= region_size)
        }),
{
    if block.len() >= 16 {
        law_complete_iff(block);
        crate::footer::law_region_footer_fields(block);
    }
}

/// How the parts of an entry that ends at `cursor` lie: twenty bytes of footer,
/// the padding before them, the key before that, and the value at the start.
pub proof fn law_entry_parts(cursor: int, footer: EntryFooter)
    ensures
        entry_len(footer) == footer.value_len + footer.key_len + footer.padding + 20,
        key_end(cursor, footer) == cursor - 20 - footer.padding,
        key_start(cursor, footer) == cursor - 20 - footer.padding - footer.key_len,
        key_start(cursor, footer) == cursor - entry_len(footer) + footer.value_len,
{
}

/// An entry can end at `cursor` if and only if its lengths add up in a `u32`
/// and it does not start before the region.
pub proof fn law_plausible_iff(cursor: int, footer: EntryFooter)
    ensures
        footer_plausible(cursor, footer) <==> {
            &&& footer.value_len + footer.key_len + footer.padding <= u32::MAX
            &&& footer.value_len + footer.key_len + footer.padding + 20 <= cursor
        },
{
}

/// A walk may stop at the start of a region or behind at least one block, and
/// nowhere else.
pub proof fn law_cursor_ok_iff(align: int, cursor: int)
    ensures
        cursor_ok(align, cursor) <==> cursor == 0 || align <= cursor,
{
}

/// A key is read off the block of the footer if and only if the cursor stands
/// at the end of a block and the key starts and ends inside that block.
pub proof fn law_key_in_block_iff(align: int, cursor: int, footer: EntryFooter)
    requires
        align > 0,
        footer.value_len + footer.key_len + footer.padding + 20 <= cursor,
    ensures
        key_in_block(align, cursor, footer) <==> {
            &&& cursor % align == 0
            &&& cursor - align <= cursor - 20 - footer.padding - footer.key_len
            &&& cursor - align < cursor - 20 - footer.padding
        },
{
    let ks = key_start(cursor, footer);
    let ke = key_end(cursor, footer);
    law_entry_parts(cursor, footer);
    crate::bits::lemma_aligned_down(align, ks);
    crate::bits::lemma_aligned_up(align, ke);
    if cursor % align == 0 {
        vstd::arithmetic::div_mod::lemma_mod_sub_multiples_vanish(cursor, align);
        assert((cursor - align) % align == 0);
        if cursor - align <= ks {
            crate::bits::lemma_multiples_apart(align, cursor - align, aligned_down(align, ks));
        }
        if cursor - align < ke {
            let up = aligned_up(align, ke);
            if up < cursor {
                crate::bits::lemma_multiples_apart(align, up, cursor);
            } else {
                crate::bits::lemma_multiples_apart(align, cursor, up);
            }
        }
    }
}

/// Wherever the key of an entry is read from, it is the bytes of the region
/// before the padding and the footer: also from the block of the footer.
pub proof fn law_key_from_block(image: Seq<u8>, align: int, cursor: int, footer: EntryFooter)
    requires
        0 < align <= cursor <= image.len(),
        20 + footer.padding + footer.key_len <= align,
    ensures
        key_of_block(image.subrange(cursor - align, cursor), footer) == image.subrange(
            cursor - 20 - footer.padding - footer.key_len,
            cursor - 20 - footer.padding,
        ),
{
    assert(key_of_block(image.subrange(cursor - align, cursor), footer) =~= image.subrange(
        cursor - 20 - footer.padding - footer.key_len,
        cursor - 20 - footer.padding,
    ));
}

/// Wherever the key of an entry is read from, it is the bytes of the region
/// before the padding and the footer: also from blocks of its own.
pub proof fn law_key_from_blocks(image: Seq<u8>, align: int, cursor: int, footer: EntryFooter)
    requires
        align > 0,
        footer.value_len + footer.key_len + footer.padding + 20 <= cursor,
        aligned_up(align, cursor - 20 - footer.padding) <= image.len(),
    ensures
        key_of_blocks(
            align,
            cursor,
            footer,
            image.subrange(
                aligned_down(align, cursor - 20 - footer.padding - footer.key_len),
                aligned_up(align, cursor - 20 - footer.padding),
            ),
        ) == image.subrange(
            cursor - 20 - footer.padding - footer.key_len,
            cursor - 20 - footer.padding,
        ),
{
    let ks = cursor - 20 - footer.padding - footer.key_len;
    let ke = cursor - 20 - footer.padding;
    crate::bits::lemma_aligned_down(align, ks);
    crate::bits::lemma_aligned_up(align, ke);
    let blocks = image.subrange(aligned_down(align, ks), aligned_up(align, ke));
    assert(key_of_blocks(align, cursor, footer, blocks) =~= image.subrange(ks, ke));
}

/// What is recorded for an entry that ends at `cursor`: where it starts, how
/// long it and its parts are, its region, and generation zero.
pub proof fn law_entry_location(region: RegionId, cursor: int, footer: EntryFooter)
    requires
        footer.value_len + footer.key_len + footer.padding + 20 <= cursor,
    ensures
        ({
            let place = entry_location(region, cursor, footer);
            let len = footer.value_len + footer.key_len + footer.padding + 20;
            &&& place.region == region
            &&& place.version == 0
            &&& place.offset == (cursor - len) as u32
            &&& place.len == len as u32
            &&& place.key_len == footer.key_len
            &&& place.value_len == footer.value_len
        }),
{
}

/// The walk goes on where the entry that is done starts.
pub proof fn law_advanced(iter: RegionEntryIter, footer: EntryFooter)
    requires
        footer.value_len + footer.key_len + footer.padding + 20 <= iter.cursor,
    ensures
        iter.advanced(footer).cursor + footer.value_len + footer.key_len + footer.padding + 20
            == iter.cursor,
        iter.advanced(footer).region == iter.region,
        iter.advanced(footer).align == iter.align,
{
}

/// A block can be taken if and only if it is the one block before the cursor,
/// the lengths at its end add up and lead to no place before the region, and
/// the key, where it lies in the block, can be read.
pub proof fn law_block_ready_iff<K: Key>(iter: RegionEntryIter, block: Seq<u8>)
    requires
        iter.align > 0,
    ensures
        ({
            let n = block.len() as int;
            let key_len = be_value(block.subrange(n - 20, n - 16)) as int;
            let value_len = be_value(block.subrange(n - 16, n - 12)) as int;
            let padding = be_value(block.subrange(n - 12, n - 8)) as int;
            let in_block = iter.cursor as int % iter.align as int == 0 && 20 + padding + key_len
                <= iter.align && 20 + padding < iter.align;
            iter.block_ready::<K>(block) <==> {
                &&& 20 <= n == iter.align <= iter.cursor
                &&& value_len + key_len + padding <= u32::MAX
                &&& value_len + key_len + padding + 20 <= iter.cursor
                &&& in_block ==> K::readable(
                    block.subrange(n - 20 - padding - key_len, n - 20 - padding),
                )
            }
        }),
{
    if block.len() >= 20 {
        crate::entry::law_footer_of(block);
        let footer = footer_of(block);
        if footer_plausible(iter.cursor as int, footer) {
            law_key_in_block_iff(iter.align as int, iter.cursor as int, footer);
        }
    }
}

/// Blocks of a key can be taken if and only if they reach from the block in
/// which the key starts to the block in which it ends, the lengths of the entry
/// add up and lead to no place before the region, and the key can be read.
pub proof fn law_key_ready_iff<K: Key>(
    iter: RegionEntryIter,
    footer: EntryFooter,
    blocks: Seq<u8>,
    start: int,
    end: int,
)
    requires
        iter.align > 0,
        start % iter.align as int == 0,
        start <= iter.cursor - 20 - footer.padding - footer.key_len < start + iter.align,
        end % iter.align as int == 0,
        iter.cursor - 20 - footer.padding <= end < iter.cursor - 20 - footer.padding + iter.align,
    ensures
        iter.key_ready::<K>(footer, blocks) <==> {
            let stop = iter.cursor - 20 - footer.padding - start;
            &&& footer.value_len + footer.key_len + footer.padding <= u32::MAX
            &&& footer.value_len + footer.key_len + footer.padding + 20 <= iter.cursor
            &&& blocks.len() == end - start
            &&& K::readable(blocks.subrange(stop - footer.key_len, stop))
        },
{
    law_entry_parts(iter.cursor as int, footer);
    crate::bits::law_rounds_down_to(
        iter.align as int,
        key_start(iter.cursor as int, footer),
        start,
    );
    crate::bits::law_rounds_up_to(iter.align as int, key_end(iter.cursor as int, footer), end);
}

} // verus!
