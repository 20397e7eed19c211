//! Big-endian integers in byte slices.

use bytes::{Buf, BufMut};
use vstd::prelude::*;

verus! {

/// The number that `s` spells in base 256, most significant byte first.
pub open spec fn be_value(s: Seq<u8>) -> nat
    decreases s.len(),
{
    if s.len() == 0 {
        0
    } else {
        be_value(s.drop_last()) * 256 + s.last() as nat
    }
}

/// The `width` low bytes of `n`, most significant byte first.
pub open spec fn be_bytes(n: nat, width: nat) -> Seq<u8>
    decreases width,
{
    if width == 0 {
        Seq::empty()
    } else {
        be_bytes(n / 256, (width - 1) as nat).push((n % 256) as u8)
    }
}

/// The count of numbers that fit in `width` bytes.
pub open spec fn be_bound(width: nat) -> nat
    decreases width,
{
    if width == 0 {
        1
    } else {
        256 * be_bound((width - 1) as nat)
    }
}

/// `be_bytes` has the width that was asked for.
pub proof fn lemma_be_bytes_len(n: nat, width: nat)
    ensures
        be_bytes(n, width).len() == width,
    decreases width,
{
    if width > 0 {
        lemma_be_bytes_len(n / 256, (width - 1) as nat);
    }
}

/// A number that fits is read back from its bytes.
pub proof fn lemma_be_value_of_bytes(n: nat, width: nat)
    requires
        n < be_bound(width),
    ensures
        be_bytes(n, width).len() == width,
        be_value(be_bytes(n, width)) == n,
    decreases width,
{
    if width > 0 {
        lemma_be_value_of_bytes(n / 256, (width - 1) as nat);
        let s = be_bytes(n, width);
        assert(s.drop_last() =~= be_bytes(n / 256, (width - 1) as nat));
    }
}

/// Bytes are rebuilt from the number that they spell, which fits their width.
pub proof fn lemma_be_bytes_of_value(s: Seq<u8>)
    ensures
        be_value(s) < be_bound(s.len()),
        be_bytes(be_value(s), s.len()) == s,
    decreases s.len(),
{
    if s.len() > 0 {
        lemma_be_bytes_of_value(s.drop_last());
        assert(be_bytes(be_value(s), s.len()) =~= s);
    }
}

/// The widths in use hold every number of their type.
pub proof fn lemma_be_bounds()
    ensures
        be_bound(4) == 0x1_0000_0000,
        be_bound(8) == 0x1_0000_0000_0000_0000,
{
    reveal_with_fuel(be_bound, 9);
}

/// Writes `n` over the first four bytes of `buf`.
///
/// Calls `bytes::BufMut::put_u32` on a cursor at the start of `buf`. The claim
/// is that it stores the four bytes of `n`, most significant first, at the
/// start of the slice, and leaves the bytes behind them alone. It panics on a
/// shorter slice.
#[verifier::external_body]
pub(crate) fn put_u32(buf: &mut [u8], n: u32)
    requires
        old(buf)@.len() >= 4,
    ensures
        final(buf)@ == be_bytes(n as nat, 4) + old(buf)@.skip(4),
{
    let mut cursor: &mut [u8] = buf;
    cursor.put_u32(n);
}

/// Writes `n` over the first eight bytes of `buf`.
///
/// Calls `bytes::BufMut::put_u64` on a cursor at the start of `buf`. The claim
/// is that it stores the eight bytes of `n`, most significant first, at the
/// start of the slice, and leaves the bytes behind them alone. It panics on a
/// shorter slice.
#[verifier::external_body]
pub(crate) fn put_u64(buf: &mut [u8], n: u64)
    requires
        old(buf)@.len() >= 8,
    ensures
        final(buf)@ == be_bytes(n as nat, 8) + old(buf)@.skip(8),
{
    let mut cursor: &mut [u8] = buf;
    cursor.put_u64(n);
}

/// Reads the first four bytes of `buf` as a number.
///
/// Calls `bytes::Buf::get_u32` on a cursor at the start of `buf`. The claim is
/// that it returns the number that the first four bytes spell, most
/// significant first. It panics on a shorter slice.
#[verifier::external_body]
pub(crate) fn get_u32(buf: &[u8]) -> (n: u32)
    requires
        buf@.len() >= 4,
    ensures
        n == be_value(buf@.take(4)),
{
    let mut cursor: &[u8] = buf;
    cursor.get_u32()
}

/// Reads the first eight bytes of `buf` as a number.
///
/// Calls `bytes::Buf::get_u64` on a cursor at the start of `buf`. The claim is
/// that it returns the number that the first eight bytes spell, most
/// significant first. It panics on a shorter slice.
#[verifier::external_body]
pub(crate) fn get_u64(buf: &[u8]) -> (n: u64)
    requires
        buf@.len() >= 8,
    ensures
        n == be_value(buf@.take(8)),
{
    let mut cursor: &[u8] = buf;
    cursor.get_u64()
}

/// A byte more makes the number 256 times as large, plus that byte; no bytes
/// spell zero.
pub proof fn law_be_value_push(s: Seq<u8>, b: u8)
    ensures
        be_value(Seq::<u8>::empty()) == 0,
        be_value(s.push(b)) == 256 * be_value(s) + b,
{
    assert(s.push(b).drop_last() =~= s);
}

} // verus!
