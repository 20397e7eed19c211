//! The fixed-size records that close an entry and a region.

use crate::buf::{be_value, get_u32, get_u64, put_u32, put_u64};
use vstd::prelude::*;

verus! {

/// The magic number that marks a region as completely written.
pub const REGION_MAGIC: u64 = 0x19970327;

/// The length of an entry footer in bytes.
pub const ENTRY_FOOTER_LEN: usize = 20;

/// The length of a region footer in bytes.
pub const REGION_FOOTER_LEN: usize = 16;

/// The record at the end of each entry.
#[derive(Debug, Clone, Copy, PartialEq, Eq)]
pub struct EntryFooter {
    /// length of the serialized key
    pub key_len: u32,
    /// length of the serialized value
    pub value_len: u32,
    /// bytes between the key and the footer
    pub padding: u32,
    /// checksum of value and key
    pub checksum: u64,
}

impl EntryFooter {
    /// The footer as it stands on the device: the fields in order, big-endian.
    pub open spec fn bytes(self) -> Seq<u8> {
        crate::buf::be_bytes(self.key_len as nat, 4) + crate::buf::be_bytes(
            self.value_len as nat,
            4,
        ) + crate::buf::be_bytes(self.padding as nat, 4) + crate::buf::be_bytes(
            self.checksum as nat,
            8,
        )
    }

    /// The footer that the first bytes of `buf` spell.
    pub open spec fn parse(buf: Seq<u8>) -> EntryFooter {
        EntryFooter {
            key_len: crate::buf::be_value(buf.subrange(0, 4)) as u32,
            value_len: crate::buf::be_value(buf.subrange(4, 8)) as u32,
            padding: crate::buf::be_value(buf.subrange(8, 12)) as u32,
            checksum: crate::buf::be_value(buf.subrange(12, 20)) as u64,
        }
    }

    /// The number of bytes that a footer takes.
    pub fn serialized_len() -> (n: usize)
        ensures
            n == ENTRY_FOOTER_LEN,
            n == 20,
    {
        4 + 4 + 4 + 8
    }

    /// Writes the footer at the start of `buf`.
    pub fn write(&self, buf: &mut [u8])
        requires
            old(buf)@.len() >= ENTRY_FOOTER_LEN,
        ensures
            final(buf)@ == self.bytes() + old(buf)@.skip(ENTRY_FOOTER_LEN as int),
            be_value(final(buf)@.subrange(0, 4)) == self.key_len,
            be_value(final(buf)@.subrange(4, 8)) == self.value_len,
            be_value(final(buf)@.subrange(8, 12)) == self.padding,
            be_value(final(buf)@.subrange(12, 20)) == self.checksum,
            final(buf)@.skip(20) == old(buf)@.skip(20),
    {
        proof {
            crate::buf::lemma_be_bytes_len(self.key_len as nat, 4);
            crate::buf::lemma_be_bytes_len(self.value_len as nat, 4);
            crate::buf::lemma_be_bytes_len(self.padding as nat, 4);
            crate::buf::lemma_be_bytes_len(self.checksum as nat, 8);
        }
        put_u32(buf, self.key_len);
        let (_, rest) = buf.split_at_mut(4);
        put_u32(rest, self.value_len);
        let (_, rest) = rest.split_at_mut(4);
        put_u32(rest, self.padding);
        let (_, rest) = rest.split_at_mut(4);
        put_u64(rest, self.checksum);
        proof {
            let tail = old(buf)@.skip(ENTRY_FOOTER_LEN as int);
            assert(buf@ =~= self.bytes() + tail);
            law_entry_footer_read_of_write(*self, tail);
            law_entry_footer_fields(buf@);
            assert(buf@.skip(20) =~= tail);
        }
    }

    /// Reads a footer from the start of `buf`.
    pub fn read(buf: &[u8]) -> (footer: EntryFooter)
        requires
            buf@.len() >= ENTRY_FOOTER_LEN,
        ensures
            footer == EntryFooter::parse(buf@),
            footer.key_len == be_value(buf@.subrange(0, 4)),
            footer.value_len == be_value(buf@.subrange(4, 8)),
            footer.padding == be_value(buf@.subrange(8, 12)),
            footer.checksum == be_value(buf@.subrange(12, 20)),
    {
        let key_len: u32 = get_u32(&buf[0..4]);
        let value_len: u32 = get_u32(&buf[4..8]);
        let padding: u32 = get_u32(&buf[8..12]);
        let checksum: u64 = get_u64(&buf[12..20]);
        proof {
            assert(buf@.subrange(0, 4).take(4) =~= buf@.subrange(0, 4));
            assert(buf@.subrange(4, 8).take(4) =~= buf@.subrange(4, 8));
            assert(buf@.subrange(8, 12).take(4) =~= buf@.subrange(8, 12));
            assert(buf@.subrange(12, 20).take(8) =~= buf@.subrange(12, 20));
        }
        proof {
            law_entry_footer_fields(buf@);
        }
        EntryFooter { key_len, value_len, padding, checksum }
    }
}

/// The record at the end of each completely written region.
#[derive(Debug, Clone, Copy, PartialEq, Eq)]
pub struct RegionFooter {
    /// magic number to decide a valid region
    pub magic: u64,
    /// padding from the end of the last entry footer to the end of region
    pub padding: u64,
}

impl RegionFooter {
    /// The footer as it stands on the device: the padding, then the magic
    /// number, big-endian.
    pub open spec fn bytes(self) -> Seq<u8> {
        crate::buf::be_bytes(self.padding as nat, 8) + crate::buf::be_bytes(self.magic as nat, 8)
    }

    /// The footer that the last bytes of `buf` spell.
    pub open spec fn parse(buf: Seq<u8>) -> RegionFooter {
        let n = buf.len() as int;
        RegionFooter {
            magic: crate::buf::be_value(buf.subrange(n - 8, n)) as u64,
            padding: crate::buf::be_value(buf.subrange(n - 16, n - 8)) as u64,
        }
    }

    /// Writes the footer at the end of `buf`.
    pub fn write(&self, buf: &mut [u8])
        requires
            old(buf)@.len() >= REGION_FOOTER_LEN,
        ensures
            final(buf)@ == old(buf)@.take(old(buf)@.len() - REGION_FOOTER_LEN) + self.bytes(),
            final(buf)@.len() == old(buf)@.len(),
            final(buf)@.take(old(buf)@.len() - 16) == old(buf)@.take(old(buf)@.len() - 16),
            be_value(final(buf)@.subrange(old(buf)@.len() - 16, old(buf)@.len() - 8))
                == self.padding,
            be_value(final(buf)@.subrange(old(buf)@.len() - 8, old(buf)@.len() as int))
                == self.magic,
    {
        proof {
            crate::buf::lemma_be_bytes_len(self.padding as nat, 8);
            crate::buf::lemma_be_bytes_len(self.magic as nat, 8);
        }
        let mut offset: usize = buf.len();

        offset -= 8;
        let (front, magic) = buf.split_at_mut(offset);
        put_u64(magic, self.magic);

        offset -= 8;
        let (_, padding) = front.split_at_mut(offset);
        put_u64(padding, self.padding);
        proof {
            let front = old(buf)@.take(old(buf)@.len() - REGION_FOOTER_LEN);
            assert(buf@ =~= front + self.bytes());
            law_region_footer_read_of_write(front, *self);
            law_region_footer_fields(buf@);
            assert(buf@.take(old(buf)@.len() - 16) =~= front);
        }
    }

    /// Reads the footer at the end of `buf`.
    pub fn read(buf: &[u8]) -> (footer: RegionFooter)
        requires
            buf@.len() >= REGION_FOOTER_LEN,
        ensures
            footer == RegionFooter::parse(buf@),
            footer.padding == be_value(buf@.subrange(buf@.len() - 16, buf@.len() - 8)),
            footer.magic == be_value(buf@.subrange(buf@.len() - 8, buf@.len() as int)),
    {
        let mut offset: usize = buf.len();

        offset -= 8;
        let magic: u64 = get_u64(&buf[offset..offset + 8]);
        proof {
            let s = buf@.subrange(offset as int, offset + 8);
            assert(s.take(8) =~= s);
        }

        offset -= 8;
        let padding: u64 = get_u64(&buf[offset..offset + 8]);
        proof {
            let s = buf@.subrange(offset as int, offset + 8);
            assert(s.take(8) =~= s);
        }

        proof {
            law_region_footer_fields(buf@);
        }
        RegionFooter { magic, padding }
    }
}

/// What `EntryFooter::write` wrote is what `EntryFooter::read` returns,
/// whatever follows it in the buffer.
pub proof fn law_entry_footer_read_of_write(footer: EntryFooter, rest: Seq<u8>)
    ensures
        footer.bytes().len() == ENTRY_FOOTER_LEN,
        EntryFooter::parse(footer.bytes() + rest) == footer,
{
    crate::buf::lemma_be_bounds();
    crate::buf::lemma_be_value_of_bytes(footer.key_len as nat, 4);
    crate::buf::lemma_be_value_of_bytes(footer.value_len as nat, 4);
    crate::buf::lemma_be_value_of_bytes(footer.padding as nat, 4);
    crate::buf::lemma_be_value_of_bytes(footer.checksum as nat, 8);
    let s = footer.bytes() + rest;
    assert(s.subrange(0, 4) =~= crate::buf::be_bytes(footer.key_len as nat, 4));
    assert(s.subrange(4, 8) =~= crate::buf::be_bytes(footer.value_len as nat, 4));
    assert(s.subrange(8, 12) =~= crate::buf::be_bytes(footer.padding as nat, 4));
    assert(s.subrange(12, 20) =~= crate::buf::be_bytes(footer.checksum as nat, 8));
}

/// Writing back the footer that `EntryFooter::read` returned changes no byte.
pub proof fn law_entry_footer_write_of_read(buf: Seq<u8>)
    requires
        buf.len() >= ENTRY_FOOTER_LEN,
    ensures
        EntryFooter::parse(buf).bytes() + buf.skip(ENTRY_FOOTER_LEN as int) == buf,
{
    crate::buf::lemma_be_bounds();
    crate::buf::lemma_be_bytes_of_value(buf.subrange(0, 4));
    crate::buf::lemma_be_bytes_of_value(buf.subrange(4, 8));
    crate::buf::lemma_be_bytes_of_value(buf.subrange(8, 12));
    crate::buf::lemma_be_bytes_of_value(buf.subrange(12, 20));
    assert(EntryFooter::parse(buf).bytes() + buf.skip(ENTRY_FOOTER_LEN as int) =~= buf);
}

/// What `RegionFooter::write` wrote is what `RegionFooter::read` returns,
/// whatever precedes it in the buffer.
pub proof fn law_region_footer_read_of_write(front: Seq<u8>, footer: RegionFooter)
    ensures
        footer.bytes().len() == REGION_FOOTER_LEN,
        RegionFooter::parse(front + footer.bytes()) == footer,
{
    crate::buf::lemma_be_bounds();
    crate::buf::lemma_be_value_of_bytes(footer.padding as nat, 8);
    crate::buf::lemma_be_value_of_bytes(footer.magic as nat, 8);
    let s = front + footer.bytes();
    let n = s.len() as int;
    assert(s.subrange(n - 8, n) =~= crate::buf::be_bytes(footer.magic as nat, 8));
    assert(s.subrange(n - 16, n - 8) =~= crate::buf::be_bytes(footer.padding as nat, 8));
}

/// Writing back the footer that `RegionFooter::read` returned changes no byte.
pub proof fn law_region_footer_write_of_read(buf: Seq<u8>)
    requires
        buf.len() >= REGION_FOOTER_LEN,
    ensures
        buf.take(buf.len() - REGION_FOOTER_LEN) + RegionFooter::parse(buf).bytes() == buf,
{
    let n = buf.len() as int;
    crate::buf::lemma_be_bounds();
    crate::buf::lemma_be_bytes_of_value(buf.subrange(n - 8, n));
    crate::buf::lemma_be_bytes_of_value(buf.subrange(n - 16, n - 8));
    assert(buf.take(n - REGION_FOOTER_LEN) + RegionFooter::parse(buf).bytes() =~= buf);
}

/// The fields of an entry footer are the numbers that the first twenty bytes
/// spell: four bytes each for the lengths of key, value and padding, then eight
/// for the checksum.
pub proof fn law_entry_footer_fields(buf: Seq<u8>)
    requires
        buf.len() >= 20,
    ensures
        EntryFooter::parse(buf).key_len == be_value(buf.subrange(0, 4)),
        EntryFooter::parse(buf).value_len == be_value(buf.subrange(4, 8)),
        EntryFooter::parse(buf).padding == be_value(buf.subrange(8, 12)),
        EntryFooter::parse(buf).checksum == be_value(buf.subrange(12, 20)),
{
    crate::buf::lemma_be_bounds();
    crate::buf::lemma_be_bytes_of_value(buf.subrange(0, 4));
    crate::buf::lemma_be_bytes_of_value(buf.subrange(4, 8));
    crate::buf::lemma_be_bytes_of_value(buf.subrange(8, 12));
    crate::buf::lemma_be_bytes_of_value(buf.subrange(12, 20));
}

/// The fields of a region footer are the numbers that the last sixteen bytes
/// spell: eight for the padding, then eight for the magic number.
pub proof fn law_region_footer_fields(buf: Seq<u8>)
    requires
        buf.len() >= 16,
    ensures
        RegionFooter::parse(buf).padding == be_value(
            buf.subrange(buf.len() - 16, buf.len() - 8),
        ),
        RegionFooter::parse(buf).magic == be_value(
            buf.subrange(buf.len() - 8, buf.len() as int),
        ),
{
    crate::buf::lemma_be_bounds();
    crate::buf::lemma_be_bytes_of_value(buf.subrange(buf.len() - 16, buf.len() - 8));
    crate::buf::lemma_be_bytes_of_value(buf.subrange(buf.len() - 8, buf.len() as int));
}

} // verus!
