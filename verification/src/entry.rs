//! The byte format of an entry:
//!
//! | value | key | <padding> | footer |

use crate::buf::be_value;
use crate::checksum::{checksum, xxhash64};
use crate::code::{Key, Value};
use crate::error::Error;
use crate::footer::{EntryFooter, ENTRY_FOOTER_LEN};
use vstd::prelude::*;

verus! {

/// Whether an entry of `len` bytes has room for a key of `key_len` bytes and a
/// value of `value_len` bytes, and its padding can be computed on the `u32`
/// lengths that the footer holds.
pub open spec fn entry_fits(len: nat, key_len: nat, value_len: nat) -> bool {
    &&& value_len + key_len + ENTRY_FOOTER_LEN <= len
    &&& (value_len as u32) + (key_len as u32) + ENTRY_FOOTER_LEN <= (len as u32)
}

/// The footer of an entry of `len` bytes.
pub open spec fn entry_footer(len: nat, key_len: nat, value_len: nat, checksum: u64) -> EntryFooter {
    EntryFooter {
        key_len: key_len as u32,
        value_len: value_len as u32,
        padding: ((len as u32) - (key_len as u32) - (value_len as u32) - ENTRY_FOOTER_LEN) as u32,
        checksum,
    }
}

/// What `buf` holds after the entry of a key and a value, given by their
/// bytes, was written to it: value, key, the padding untouched, footer.
pub open spec fn entry_bytes(key: Seq<u8>, value: Seq<u8>, buf: Seq<u8>) -> Seq<u8> {
    let payload = value + key;
    payload + buf.subrange(payload.len() as int, buf.len() - ENTRY_FOOTER_LEN) + entry_footer(
        buf.len(),
        key.len(),
        value.len(),
        crate::checksum::xxhash64(0, payload),
    ).bytes()
}

/// Whether `bytes` is an entry of the given key and value bytes.
pub open spec fn is_entry(bytes: Seq<u8>, key: Seq<u8>, value: Seq<u8>) -> bool {
    &&& entry_fits(bytes.len(), key.len(), value.len())
    &&& bytes == entry_bytes(key, value, bytes)
}

/// The footer at the end of an entry.
pub open spec fn footer_of(bytes: Seq<u8>) -> EntryFooter {
    EntryFooter::parse(bytes.skip(bytes.len() - ENTRY_FOOTER_LEN))
}

/// The value bytes of an entry, as its footer delimits them.
pub open spec fn value_part(bytes: Seq<u8>) -> Seq<u8> {
    bytes.subrange(0, footer_of(bytes).value_len as int)
}

/// The key bytes of an entry, as its footer delimits them.
pub open spec fn key_part(bytes: Seq<u8>) -> Seq<u8> {
    let footer = footer_of(bytes);
    bytes.subrange(footer.value_len as int, footer.value_len + footer.key_len)
}

/// Whether `bytes` can be taken apart: it has a footer, the key and the value
/// that the footer announces lie inside, and both can be read.
pub open spec fn entry_readable<K: Key, V: Value>(bytes: Seq<u8>) -> bool {
    &&& bytes.len() >= ENTRY_FOOTER_LEN
    &&& footer_of(bytes).value_len + footer_of(bytes).key_len <= bytes.len()
    &&& V::readable(value_part(bytes))
    &&& K::readable(key_part(bytes))
}

/// The checksum of the value and the key of an entry, as its footer delimits
/// them.
pub open spec fn payload_checksum(bytes: Seq<u8>) -> u64 {
    let footer = footer_of(bytes);
    crate::checksum::xxhash64(0, bytes.take(footer.value_len + footer.key_len))
}

/// Whether the payload of an entry has the checksum that the footer records.
pub open spec fn entry_intact(bytes: Seq<u8>) -> bool {
    payload_checksum(bytes) == footer_of(bytes).checksum
}

/// Writes the footer of an entry whose value and key, of the given lengths and
/// with the given checksum, stand at the start of `buf`.
pub fn seal_entry(buf: &mut [u8], key_len: usize, value_len: usize, checksum: u64)
    requires
        entry_fits(old(buf)@.len(), key_len as nat, value_len as nat),
    ensures
        final(buf)@ == old(buf)@.take(old(buf)@.len() - ENTRY_FOOTER_LEN) + entry_footer(
            old(buf)@.len(),
            key_len as nat,
            value_len as nat,
            checksum,
        ).bytes(),
        ({
            let n = old(buf)@.len() as int;
            &&& final(buf)@.len() == n
            &&& final(buf)@.take(n - 20) == old(buf)@.take(n - 20)
            &&& be_value(final(buf)@.subrange(n - 20, n - 16)) == key_len as u32
            &&& be_value(final(buf)@.subrange(n - 16, n - 12)) == value_len as u32
            &&& be_value(final(buf)@.subrange(n - 12, n - 8)) == (n as u32) - (key_len as u32) - (
            value_len as u32) - 20
            &&& be_value(final(buf)@.subrange(n - 8, n)) == checksum
        }),
{
    let padding: u32 = buf.len() as u32 - key_len as u32 - value_len as u32
        - EntryFooter::serialized_len() as u32;
    let footer = EntryFooter {
        key_len: key_len as u32,
        value_len: value_len as u32,
        padding,
        checksum,
    };
    let offset: usize = buf.len() - EntryFooter::serialized_len();
    let (_, tail) = buf.split_at_mut(offset);
    proof {
        crate::footer::law_entry_footer_read_of_write(footer, Seq::empty());
    }
    footer.write(tail);
    proof {
        let n = old(buf)@.len() as int;
        let front = old(buf)@.take(n - ENTRY_FOOTER_LEN);
        assert(buf@ =~= front + footer.bytes());
        assert(buf@.take(n - 20) =~= front);
        assert(buf@.skip(n - 20) =~= footer.bytes() + Seq::empty());
        law_footer_of(buf@);
    }
}

/// Writes the entry of `key` and `value` to `buf`, which is as long as the
/// entry is to be.
pub fn write_entry<K: Key, V: Value>(buf: &mut [u8], key: &K, value: &V)
    requires
        entry_fits(old(buf)@.len(), K::encode(key@).len(), V::encode(value@).len()),
    ensures
        final(buf)@ == entry_bytes(K::encode(key@), V::encode(value@), old(buf)@),
        ({
            let n = old(buf)@.len() as int;
            let kb = K::encode(key@);
            let vb = V::encode(value@);
            let p = (vb.len() + kb.len()) as int;
            &&& final(buf)@.len() == n
            &&& final(buf)@.subrange(0, vb.len() as int) == vb
            &&& final(buf)@.subrange(vb.len() as int, p) == kb
            &&& final(buf)@.subrange(p, n - 20) == old(buf)@.subrange(p, n - 20)
            &&& be_value(final(buf)@.subrange(n - 20, n - 16)) == kb.len() as u32
            &&& be_value(final(buf)@.subrange(n - 16, n - 12)) == vb.len() as u32
            &&& be_value(final(buf)@.subrange(n - 12, n - 8)) == (n as u32) - (kb.len() as u32) - (
            vb.len() as u32) - 20
            &&& be_value(final(buf)@.subrange(n - 8, n)) == xxhash64(0, vb + kb)
        }),
{
    let value_len: usize = value.serialized_len();
    let key_len: usize = key.serialized_len();

    let (value_buf, rest) = buf.split_at_mut(value_len);
    value.write(value_buf);
    let (key_buf, _) = rest.split_at_mut(key_len);
    key.write(key_buf);
    proof {
        let payload = V::encode(value@) + K::encode(key@);
        assert(buf@ =~= payload + old(buf)@.skip(payload.len() as int));
        assert(buf@.subrange(0, value_len + key_len) =~= payload);
        assert(buf.len() == old(buf)@.len());
    }

    let sum: u64 = checksum(&buf[0..value_len + key_len]);
    seal_entry(buf, key_len, value_len, sum);
    proof {
        let payload = V::encode(value@) + K::encode(key@);
        let n = old(buf)@.len() - ENTRY_FOOTER_LEN;
        assert((payload + old(buf)@.skip(payload.len() as int)).take(n) =~= payload
            + old(buf)@.subrange(payload.len() as int, n));
        law_entry_layout(K::encode(key@), V::encode(value@), old(buf)@);
    }
}

/// Accepts the key and the value of an entry whose payload has the checksum
/// `checksum`, if the footer records the same.
pub fn verify_entry<K, V>(footer: &EntryFooter, key: K, value: V, checksum: u64) -> (r: Result<
    (K, V),
    Error,
>)
    ensures
        r == (if checksum == footer.checksum {
            Ok((key, value))
        } else {
            Err(Error::ChecksumMismatch { checksum, expected: footer.checksum })
        }),
{
    if checksum != footer.checksum {
        return Err(Error::ChecksumMismatch { checksum, expected: footer.checksum });
    }
    Ok((key, value))
}

/// Reads the entry that `buf` holds, or tells both checksums if its own is
/// wrong.
pub fn try_read_entry<K: Key, V: Value>(buf: &[u8]) -> (r: Result<(K, V), Error>)
    requires
        entry_readable::<K, V>(buf@),
    ensures
        r is Ok <==> entry_intact(buf@),
        match r {
            Ok(e) => {
                &&& e.0@ == K::decode(key_part(buf@))
                &&& e.1@ == V::decode(value_part(buf@))
            },
            Err(e) => e == (Error::ChecksumMismatch {
                checksum: payload_checksum(buf@),
                expected: footer_of(buf@).checksum,
            }),
        },
        ({
            let n = buf@.len() as int;
            let key_len = be_value(buf@.subrange(n - 20, n - 16)) as int;
            let value_len = be_value(buf@.subrange(n - 16, n - 12)) as int;
            let sum = xxhash64(0, buf@.subrange(0, value_len + key_len));
            match r {
                Ok(e) => {
                    &&& sum == be_value(buf@.subrange(n - 8, n))
                    &&& e.0@ == K::decode(buf@.subrange(value_len, value_len + key_len))
                    &&& e.1@ == V::decode(buf@.subrange(0, value_len))
                },
                Err(Error::ChecksumMismatch { checksum, expected }) => {
                    &&& checksum == sum
                    &&& expected == be_value(buf@.subrange(n - 8, n))
                    &&& checksum != expected
                },
            }
        }),
{
    let mut offset: usize = buf.len();

    offset -= EntryFooter::serialized_len();
    let footer = EntryFooter::read(&buf[offset..buf.len()]);
    proof {
        assert(buf@.subrange(offset as int, buf@.len() as int) =~= buf@.skip(offset as int));
    }

    offset = 0;
    let value = V::read(&buf[offset..offset + footer.value_len as usize]);

    offset += footer.value_len as usize;
    let key = K::read(&buf[offset..offset + footer.key_len as usize]);

    offset += footer.key_len as usize;
    let sum: u64 = checksum(&buf[0..offset]);
    proof {
        assert(buf@.subrange(0, offset as int) =~= buf@.take(offset as int));
    }

    proof {
        law_footer_of(buf@);
        law_parts_of(buf@);
        law_intact_iff(buf@);
    }
    verify_entry(&footer, key, value, sum)
}

/// Reads the entry that `buf` holds, `None` if its checksum is wrong.
pub fn read_entry<K: Key, V: Value>(buf: &[u8]) -> (r: Option<(K, V)>)
    requires
        entry_readable::<K, V>(buf@),
    ensures
        r is Some <==> entry_intact(buf@),
        r matches Some(e) ==> {
            &&& e.0@ == K::decode(key_part(buf@))
            &&& e.1@ == V::decode(value_part(buf@))
        },
        ({
            let n = buf@.len() as int;
            let key_len = be_value(buf@.subrange(n - 20, n - 16)) as int;
            let value_len = be_value(buf@.subrange(n - 16, n - 12)) as int;
            let sum = xxhash64(0, buf@.subrange(0, value_len + key_len));
            match r {
                Some(e) => {
                    &&& sum == be_value(buf@.subrange(n - 8, n))
                    &&& e.0@ == K::decode(buf@.subrange(value_len, value_len + key_len))
                    &&& e.1@ == V::decode(buf@.subrange(0, value_len))
                },
                None => sum != be_value(buf@.subrange(n - 8, n)),
            }
        }),
{
    match try_read_entry::<K, V>(buf) {
        Ok(entry) => Some(entry),
        Err(_) => None,
    }
}

/// Tells whether `try_read_entry` and `read_entry` accept `buf`.
pub fn can_read_entry<K: Key, V: Value>(buf: &[u8]) -> (b: bool)
    ensures
        b == entry_readable::<K, V>(buf@),
        ({
            let n = buf@.len() as int;
            let key_len = be_value(buf@.subrange(n - 20, n - 16)) as int;
            let value_len = be_value(buf@.subrange(n - 16, n - 12)) as int;
            b <==> {
                &&& n >= 20
                &&& value_len + key_len <= n
                &&& V::readable(buf@.subrange(0, value_len))
                &&& K::readable(buf@.subrange(value_len, value_len + key_len))
            }
        }),
{
    proof {
        law_readable_iff::<K, V>(buf@);
    }
    if buf.len() < EntryFooter::serialized_len() {
        return false;
    }
    let offset: usize = buf.len() - EntryFooter::serialized_len();
    let footer = EntryFooter::read(&buf[offset..buf.len()]);
    proof {
        assert(buf@.subrange(offset as int, buf@.len() as int) =~= buf@.skip(offset as int));
    }
    if footer.value_len as usize > buf.len() {
        return false;
    }
    let value_len: usize = footer.value_len as usize;
    if footer.key_len as usize > buf.len() - value_len {
        return false;
    }
    let end: usize = value_len + footer.key_len as usize;
    V::can_read(&buf[0..value_len]) && K::can_read(&buf[value_len..end])
}

/// An entry keeps its length when it is written, and its padding bytes.
pub proof fn lemma_entry_bytes_is_entry(key: Seq<u8>, value: Seq<u8>, buf: Seq<u8>)
    requires
        entry_fits(buf.len(), key.len(), value.len()),
    ensures
        entry_bytes(key, value, buf).len() == buf.len(),
        is_entry(entry_bytes(key, value, buf), key, value),
{
    let payload = value + key;
    let footer = entry_footer(
        buf.len(),
        key.len(),
        value.len(),
        crate::checksum::xxhash64(0, payload),
    );
    crate::footer::law_entry_footer_read_of_write(footer, Seq::empty());
    let bytes = entry_bytes(key, value, buf);
    assert(bytes =~= entry_bytes(key, value, bytes));
}

/// What is read off the end of an entry is its footer.
pub proof fn lemma_footer_of_entry(bytes: Seq<u8>, key: Seq<u8>, value: Seq<u8>)
    requires
        is_entry(bytes, key, value),
    ensures
        footer_of(bytes) == entry_footer(
            bytes.len(),
            key.len(),
            value.len(),
            crate::checksum::xxhash64(0, value + key),
        ),
        bytes.take((value + key).len() as int) == value + key,
{
    let payload = value + key;
    let footer = entry_footer(
        bytes.len(),
        key.len(),
        value.len(),
        crate::checksum::xxhash64(0, payload),
    );
    crate::footer::law_entry_footer_read_of_write(footer, Seq::empty());
    assert(bytes.skip(bytes.len() - ENTRY_FOOTER_LEN) =~= footer.bytes() + Seq::empty());
    assert(bytes.take(payload.len() as int) =~= payload);
}

/// A read gives back what was written: `read_entry` on the bytes that
/// `write_entry` left returns the key and the value.
pub proof fn law_read_of_write<K: Key, V: Value>(key: K::V, value: V::V, buf: Seq<u8>)
    requires
        entry_fits(buf.len(), K::encode(key).len(), V::encode(value).len()),
        K::encode(key).len() <= u32::MAX,
        V::encode(value).len() <= u32::MAX,
    ensures
        ({
            let bytes = entry_bytes(K::encode(key), V::encode(value), buf);
            &&& entry_readable::<K, V>(bytes)
            &&& entry_intact(bytes)
            &&& K::decode(key_part(bytes)) == key
            &&& V::decode(value_part(bytes)) == value
        }),
{
    let bytes = entry_bytes(K::encode(key), V::encode(value), buf);
    lemma_entry_bytes_is_entry(K::encode(key), V::encode(value), buf);
    law_read_of_entry::<K, V>(key, value, bytes);
}

/// Any bytes that are an entry of a key and a value read as that key and
/// value.
pub proof fn law_read_of_entry<K: Key, V: Value>(key: K::V, value: V::V, bytes: Seq<u8>)
    requires
        is_entry(bytes, K::encode(key), V::encode(value)),
        K::encode(key).len() <= u32::MAX,
        V::encode(value).len() <= u32::MAX,
    ensures
        entry_readable::<K, V>(bytes),
        entry_intact(bytes),
        K::decode(key_part(bytes)) == key,
        V::decode(value_part(bytes)) == value,
{
    let kb = K::encode(key);
    let vb = V::encode(value);
    lemma_footer_of_entry(bytes, kb, vb);
    assert(value_part(bytes) =~= vb) by {
        assert(bytes.take((vb + kb).len() as int).take(vb.len() as int) =~= vb);
        assert(value_part(bytes) =~= bytes.take((vb + kb).len() as int).take(vb.len() as int));
    }
    assert(key_part(bytes) =~= kb) by {
        assert(bytes.take((vb + kb).len() as int).skip(vb.len() as int) =~= kb);
        assert(key_part(bytes) =~= bytes.take((vb + kb).len() as int).skip(vb.len() as int));
    }
    K::lemma_decode_encode(key);
    V::lemma_decode_encode(value);
}

/// An entry needs room for value, key and twenty bytes of footer, also as the
/// `u32` numbers that the footer keeps. Where the entry is not longer than a
/// `u32` can say, nothing else is asked.
pub proof fn law_fits_iff(len: nat, key_len: nat, value_len: nat)
    ensures
        entry_fits(len, key_len, value_len) <==> {
            &&& key_len + value_len + 20 <= len
            &&& (key_len as u32) + (value_len as u32) + 20 <= len as u32
        },
        len <= u32::MAX ==> (entry_fits(len, key_len, value_len) <==> key_len + value_len + 20
            <= len),
{
}

/// The footer of an entry is spelled by its last twenty bytes.
pub proof fn law_footer_of(bytes: Seq<u8>)
    requires
        bytes.len() >= 20,
    ensures
        ({
            let n = bytes.len() as int;
            &&& footer_of(bytes).key_len == be_value(bytes.subrange(n - 20, n - 16))
            &&& footer_of(bytes).value_len == be_value(bytes.subrange(n - 16, n - 12))
            &&& footer_of(bytes).padding == be_value(bytes.subrange(n - 12, n - 8))
            &&& footer_of(bytes).checksum == be_value(bytes.subrange(n - 8, n))
        }),
{
    let n = bytes.len() as int;
    let tail = bytes.skip(n - 20);
    crate::footer::law_entry_footer_fields(tail);
    assert(tail.subrange(0, 4) =~= bytes.subrange(n - 20, n - 16));
    assert(tail.subrange(4, 8) =~= bytes.subrange(n - 16, n - 12));
    assert(tail.subrange(8, 12) =~= bytes.subrange(n - 12, n - 8));
    assert(tail.subrange(12, 20) =~= bytes.subrange(n - 8, n));
}

/// The value stands at the start of an entry and the key behind it, as long as
/// the last twenty bytes say.
pub proof fn law_parts_of(bytes: Seq<u8>)
    requires
        bytes.len() >= 20,
    ensures
        ({
            let n = bytes.len() as int;
            let key_len = be_value(bytes.subrange(n - 20, n - 16)) as int;
            let value_len = be_value(bytes.subrange(n - 16, n - 12)) as int;
            &&& value_part(bytes) == bytes.subrange(0, value_len)
            &&& key_part(bytes) == bytes.subrange(value_len, value_len + key_len)
        }),
{
    law_footer_of(bytes);
}

/// An entry is intact if and only if the hash of value and key, as long as the
/// last twenty bytes say, is the number that the last eight bytes spell.
pub proof fn law_intact_iff(bytes: Seq<u8>)
    requires
        bytes.len() >= 20,
        be_value(bytes.subrange(bytes.len() - 20, bytes.len() - 16)) + be_value(
            bytes.subrange(bytes.len() - 16, bytes.len() - 12),
        ) <= bytes.len(),
    ensures
        ({
            let n = bytes.len() as int;
            let key_len = be_value(bytes.subrange(n - 20, n - 16)) as int;
            let value_len = be_value(bytes.subrange(n - 16, n - 12)) as int;
            let sum = xxhash64(0, bytes.subrange(0, value_len + key_len));
            &&& payload_checksum(bytes) == sum
            &&& entry_intact(bytes) <==> sum == be_value(bytes.subrange(n - 8, n))
        }),
{
    law_footer_of(bytes);
    let footer = footer_of(bytes);
    let p = footer.value_len + footer.key_len;
    assert(bytes.take(p) =~= bytes.subrange(0, p));
}

/// An entry can be taken apart if and only if there are twenty bytes of footer,
/// the value and the key that they announce lie inside, and both can be read.
pub proof fn law_readable_iff<K: Key, V: Value>(bytes: Seq<u8>)
    ensures
        bytes.len() < 20 ==> !entry_readable::<K, V>(bytes),
        bytes.len() >= 20 ==> ({
            let n = bytes.len() as int;
            let key_len = be_value(bytes.subrange(n - 20, n - 16)) as int;
            let value_len = be_value(bytes.subrange(n - 16, n - 12)) as int;
            entry_readable::<K, V>(bytes) <==> {
                &&& value_len + key_len <= n
                &&& V::readable(bytes.subrange(0, value_len))
                &&& K::readable(bytes.subrange(value_len, value_len + key_len))
            }
        }),
{
    if bytes.len() >= 20 {
        law_parts_of(bytes);
        law_footer_of(bytes);
    }
}

/// Where the parts of a written entry stand: the value first, then the key, the
/// padding as it was, and in the last twenty bytes the lengths of key, value
/// and padding and the hash of value and key.
pub proof fn law_entry_layout(key: Seq<u8>, value: Seq<u8>, buf: Seq<u8>)
    requires
        entry_fits(buf.len(), key.len(), value.len()),
    ensures
        ({
            let bytes = entry_bytes(key, value, buf);
            let n = buf.len() as int;
            let p = (value.len() + key.len()) as int;
            &&& bytes.len() == n
            &&& bytes.subrange(0, value.len() as int) == value
            &&& bytes.subrange(value.len() as int, p) == key
            &&& bytes.subrange(p, n - 20) == buf.subrange(p, n - 20)
            &&& be_value(bytes.subrange(n - 20, n - 16)) == key.len() as u32
            &&& be_value(bytes.subrange(n - 16, n - 12)) == value.len() as u32
            &&& be_value(bytes.subrange(n - 12, n - 8)) == (n as u32) - (key.len() as u32) - (
            value.len() as u32) - 20
            &&& be_value(bytes.subrange(n - 8, n)) == xxhash64(0, value + key)
        }),
{
    let bytes = entry_bytes(key, value, buf);
    let n = buf.len() as int;
    let p = (value.len() + key.len()) as int;
    let payload = value + key;
    lemma_entry_bytes_is_entry(key, value, buf);
    lemma_footer_of_entry(bytes, key, value);
    law_footer_of(bytes);
    crate::footer::law_entry_footer_read_of_write(footer_of(bytes), Seq::empty());
    assert(bytes.subrange(0, value.len() as int) =~= value);
    assert(bytes.subrange(value.len() as int, p) =~= key);
    assert(bytes.subrange(p, n - 20) =~= buf.subrange(p, n - 20));
}

/// Bytes are an entry of a key and a value if and only if value and key stand
/// at their start, and the last twenty bytes say their lengths, the length of
/// the rest and their hash.
pub proof fn law_is_entry_iff(bytes: Seq<u8>, key: Seq<u8>, value: Seq<u8>)
    requires
        key.len() + value.len() + 20 <= bytes.len(),
        (key.len() as u32) + (value.len() as u32) + 20 <= bytes.len() as u32,
    ensures
        ({
            let n = bytes.len() as int;
            let p = (value.len() + key.len()) as int;
            is_entry(bytes, key, value) <==> {
                &&& bytes.subrange(0, value.len() as int) == value
                &&& bytes.subrange(value.len() as int, p) == key
                &&& be_value(bytes.subrange(n - 20, n - 16)) == key.len() as u32
                &&& be_value(bytes.subrange(n - 16, n - 12)) == value.len() as u32
                &&& be_value(bytes.subrange(n - 12, n - 8)) == (n as u32) - (key.len() as u32) - (
                value.len() as u32) - 20
                &&& be_value(bytes.subrange(n - 8, n)) == xxhash64(0, value + key)
            }
        }),
{
    let n = bytes.len() as int;
    let p = (value.len() + key.len()) as int;
    law_entry_layout(key, value, bytes);
    law_footer_of(bytes);
    if bytes.subrange(0, value.len() as int) == value && bytes.subrange(value.len() as int, p)
        == key && be_value(bytes.subrange(n - 20, n - 16)) == key.len() as u32 && be_value(
        bytes.subrange(n - 16, n - 12),
    ) == value.len() as u32 && be_value(bytes.subrange(n - 12, n - 8)) == (n as u32) - (
    key.len() as u32) - (value.len() as u32) - 20 && be_value(bytes.subrange(n - 8, n))
        == xxhash64(0, value + key) {
        let tail = bytes.skip(n - 20);
        crate::footer::law_entry_footer_write_of_read(tail);
        assert(tail.skip(20) =~= Seq::empty());
        assert(footer_of(bytes).bytes() =~= tail);
        assert(bytes =~= bytes.subrange(0, value.len() as int) + bytes.subrange(
            value.len() as int,
            p,
        ) + bytes.subrange(p, n - 20) + tail);
        assert(bytes =~= entry_bytes(key, value, bytes));
    }
}

/// Damage is noticed: if the value or the key of an entry changes so that their
/// hash changes, and its footer stays as it is, the bytes are not taken for an
/// entry any more.
pub proof fn law_damage_is_noticed(
    bytes: Seq<u8>,
    key: Seq<u8>,
    value: Seq<u8>,
    damaged: Seq<u8>,
)
    requires
        is_entry(bytes, key, value),
        key.len() <= u32::MAX,
        value.len() <= u32::MAX,
        damaged.len() == bytes.len(),
        damaged.skip(bytes.len() - 20) == bytes.skip(bytes.len() - 20),
        xxhash64(0, damaged.subrange(0, (value.len() + key.len()) as int)) != xxhash64(
            0,
            value + key,
        ),
    ensures
        !entry_intact(damaged),
{
    lemma_footer_of_entry(bytes, key, value);
    assert(footer_of(damaged) == footer_of(bytes));
    law_footer_of(damaged);
    law_intact_iff(damaged);
}

/// Two byte strings with the same value, key and last twenty bytes are both
/// intact or both not: the padding does not matter.
pub proof fn law_padding_does_not_matter(bytes: Seq<u8>, other: Seq<u8>)
    requires
        bytes.len() >= 20,
        other.len() >= 20,
        other.skip(other.len() - 20) == bytes.skip(bytes.len() - 20),
        be_value(bytes.subrange(bytes.len() - 20, bytes.len() - 16)) + be_value(
            bytes.subrange(bytes.len() - 16, bytes.len() - 12),
        ) <= bytes.len(),
        be_value(bytes.subrange(bytes.len() - 20, bytes.len() - 16)) + be_value(
            bytes.subrange(bytes.len() - 16, bytes.len() - 12),
        ) <= other.len(),
        ({
            let n = bytes.len() as int;
            let p = be_value(bytes.subrange(n - 20, n - 16)) + be_value(
                bytes.subrange(n - 16, n - 12),
            );
            other.subrange(0, p as int) == bytes.subrange(0, p as int)
        }),
    ensures
        entry_intact(other) == entry_intact(bytes),
{
    law_footer_of(bytes);
    law_footer_of(other);
    assert(footer_of(other) == footer_of(bytes));
    law_intact_iff(bytes);
    law_intact_iff(other);
}

} // verus!
