//! Keys and values, and how they are laid out in bytes.

use crate::buf::{get_u64, put_u64};
use vstd::prelude::*;

verus! {

/// A type whose values can be stored: each has a byte string, and a value can
/// be read back from one.
///
/// Values are modelled by their view. What `read` makes of bytes that no value
/// was written to is up to the type, as long as it is a function of them.
pub trait Code: View + Sized {
    /// The bytes that stand for `model`.
    spec fn encode(model: Self::V) -> Seq<u8>;

    /// Whether a value can be read from `bytes`.
    spec fn readable(bytes: Seq<u8>) -> bool;

    /// The value that is read from `bytes`.
    spec fn decode(bytes: Seq<u8>) -> Self::V;

    /// A value is read back from its own bytes.
    proof fn lemma_decode_encode(model: Self::V)
        ensures
            Self::readable(Self::encode(model)),
            Self::decode(Self::encode(model)) == model,
    ;

    /// The number of bytes that `write` fills.
    fn serialized_len(&self) -> (n: usize)
        ensures
            n == Self::encode(self@).len(),
    ;

    /// Fills `buf`, which is exactly as long as the value needs.
    fn write(&self, buf: &mut [u8])
        requires
            old(buf)@.len() == Self::encode(self@).len(),
        ensures
            final(buf)@ == Self::encode(self@),
    ;

    /// Tells whether `read` accepts `buf`.
    fn can_read(buf: &[u8]) -> (b: bool)
        ensures
            b == Self::readable(buf@),
    ;

    /// Reads a value from `buf`.
    fn read(buf: &[u8]) -> (r: Self)
        requires
            Self::readable(buf@),
        ensures
            r@ == Self::decode(buf@),
    ;
}

/// What an entry is stored and found by.
pub trait Key: Code {
    /// Tells whether two keys are the same.
    fn same(&self, other: &Self) -> (b: bool)
        ensures
            b == (self@ == other@),
    ;
}

/// What an entry holds.
pub trait Value: Code {

}

impl Code for u64 {
    /// Eight bytes, most significant first.
    open spec fn encode(model: u64) -> Seq<u8> {
        crate::buf::be_bytes(model as nat, 8)
    }

    open spec fn readable(bytes: Seq<u8>) -> bool {
        bytes.len() >= 8
    }

    open spec fn decode(bytes: Seq<u8>) -> u64 {
        crate::buf::be_value(bytes.take(8)) as u64
    }

    proof fn lemma_decode_encode(model: u64) {
        crate::buf::lemma_be_bounds();
        crate::buf::lemma_be_value_of_bytes(model as nat, 8);
        let s = crate::buf::be_bytes(model as nat, 8);
        assert(s.take(8) =~= s);
    }

    fn serialized_len(&self) -> (n: usize) {
        proof {
            crate::buf::lemma_be_bytes_len(*self as nat, 8);
        }
        8
    }

    fn write(&self, buf: &mut [u8]) {
        proof {
            crate::buf::lemma_be_bytes_len(*self as nat, 8);
        }
        put_u64(buf, *self);
    }

    fn can_read(buf: &[u8]) -> (b: bool) {
        buf.len() >= 8
    }

    fn read(buf: &[u8]) -> (r: u64) {
        get_u64(buf)
    }
}

impl Key for u64 {
    fn same(&self, other: &Self) -> (b: bool) {
        *self == *other
    }
}

impl Value for u64 {

}

impl Code for Vec<u8> {
    /// The bytes themselves.
    open spec fn encode(model: Seq<u8>) -> Seq<u8> {
        model
    }

    open spec fn readable(bytes: Seq<u8>) -> bool {
        true
    }

    open spec fn decode(bytes: Seq<u8>) -> Seq<u8> {
        bytes
    }

    proof fn lemma_decode_encode(model: Seq<u8>) {
    }

    fn serialized_len(&self) -> (n: usize) {
        self.len()
    }

    fn write(&self, buf: &mut [u8]) {
        let n: usize = self.len();
        let mut i: usize = 0;
        while i < n
            invariant
                i <= n == self@.len(),
                buf@.len() == n,
                buf@.take(i as int) == self@.take(i as int),
            decreases n - i,
        {
            buf[i] = self[i];
            i = i + 1;
            proof {
                assert(buf@.take(i as int) =~= self@.take(i as int)) by {
                    assert forall|j: int| 0 <= j < i implies buf@[j] == self@[j] by {
                        if j < i - 1 {
                            assert(self@.take(i - 1)[j] == self@[j]);
                        }
                    }
                }
            }
        }
        proof {
            assert(buf@ =~= buf@.take(n as int));
            assert(self@ =~= self@.take(n as int));
        }
    }

    fn can_read(buf: &[u8]) -> (b: bool) {
        true
    }

    fn read(buf: &[u8]) -> (r: Vec<u8>) {
        vstd::slice::slice_to_vec(buf)
    }
}

impl Key for Vec<u8> {
    fn same(&self, other: &Self) -> (b: bool) {
        if self.len() != other.len() {
            return false;
        }
        let mut i: usize = 0;
        while i < self.len()
            invariant
                i <= self@.len(),
                self@.len() == other@.len(),
                self@.take(i as int) == other@.take(i as int),
            decreases self@.len() - i,
        {
            if self[i] != other[i] {
                return false;
            }
            i = i + 1;
            proof {
                assert(self@.take(i as int) =~= self@.take(i - 1).push(self@[i - 1]));
                assert(other@.take(i as int) =~= other@.take(i - 1).push(other@[i - 1]));
            }
        }
        proof {
            assert(self@ =~= self@.take(i as int));
            assert(other@ =~= other@.take(i as int));
        }
        true
    }
}

impl Value for Vec<u8> {

}

/// A number stands as the eight bytes that spell it in base 256, is read from
/// the first eight bytes, and can be read where there are that many.
pub proof fn law_number_code(n: u64, bytes: Seq<u8>)
    ensures
        <u64 as Code>::encode(n).len() == 8,
        crate::buf::be_value(<u64 as Code>::encode(n)) == n,
        <u64 as Code>::readable(bytes) <==> bytes.len() >= 8,
        bytes.len() >= 8 ==> <u64 as Code>::decode(bytes) == crate::buf::be_value(
            bytes.subrange(0, 8),
        ),
{
    crate::buf::lemma_be_bounds();
    crate::buf::lemma_be_value_of_bytes(n as nat, 8);
    if bytes.len() >= 8 {
        crate::buf::lemma_be_bytes_of_value(bytes.subrange(0, 8));
        assert(bytes.take(8) =~= bytes.subrange(0, 8));
    }
}

/// A byte string stands as itself and is read as it stands.
pub proof fn law_bytes_code(bytes: Seq<u8>)
    ensures
        <Vec<u8> as Code>::encode(bytes) == bytes,
        <Vec<u8> as Code>::readable(bytes),
        <Vec<u8> as Code>::decode(bytes) == bytes,
{
}

} // verus!
