use vstd::prelude::*;
use vstd::string::StringSliceAdditionalSpecFns;
use vstd::utf8::{decode_utf8, encode_utf8, encode_utf8_decode_utf8};

verus! {

/// Offset basis of the 64-bit FNV-1a digest.
pub const FNV_OFFSET: u64 = 0xcbf29ce484222325;

/// Multiplier of the 64-bit FNV-1a digest.
pub const FNV_PRIME: u64 = 0x100000001b3;

/// A key that the table can place in a bucket.
///
/// A key type supplies a digest that is a function of the key's abstract
/// value alone, together with an equality test that decides equality of
/// abstract values.  Equal keys therefore always digest identically.
pub trait HashKey: View + Sized {
    /// The digest of a key, as a function of its abstract value.
    spec fn digest_of(v: Self::V) -> u64;

    /// Compute the digest of this key.
    fn digest(&self) -> (r: u64)
        ensures
            r == Self::digest_of(self@),
    ;

    /// Decide whether this key and `other` have equal abstract values.
    fn key_eq(&self, other: &Self) -> (r: bool)
        ensures
            r == (self@ == other@),
    ;
}

/// The 64-bit FNV-1a digest of a byte sequence.
pub open spec fn fnv1a(bytes: Seq<u8>) -> u64
    decreases bytes.len(),
{
    if bytes.len() == 0 {
        FNV_OFFSET
    } else {
        (fnv1a(bytes.drop_last()) ^ (bytes.last() as u64)).wrapping_mul(FNV_PRIME)
    }
}

/// Compute the 64-bit FNV-1a digest of a byte slice.
fn fnv1a_bytes(bytes: &[u8]) -> (r: u64)
    ensures
        r == fnv1a(bytes@),
{
    let mut acc: u64 = FNV_OFFSET;
    let mut i: usize = 0;
    while i < bytes.len()
        invariant
            0 <= i <= bytes@.len(),
            acc == fnv1a(bytes@.take(i as int)),
        decreases bytes@.len() - i,
    {
        proof {
            assert(bytes@.take(i + 1).drop_last() =~= bytes@.take(i as int));
            assert(bytes@.take(i + 1).last() == bytes@[i as int]);
        }
        acc = (acc ^ (bytes[i] as u64)).wrapping_mul(FNV_PRIME);
        i = i + 1;
    }
    proof {
        assert(bytes@.take(bytes@.len() as int) =~= bytes@);
    }
    acc
}

/// Decide whether two byte slices hold the same bytes.
fn bytes_eq(a: &[u8], b: &[u8]) -> (r: bool)
    ensures
        r == (a@ == b@),
{
    if a.len() != b.len() {
        return false;
    }
    let mut i: usize = 0;
    while i < a.len()
        invariant
            a@.len() == b@.len(),
            0 <= i <= a@.len(),
            forall|j: int| 0 <= j < i ==> a@[j] == b@[j],
        decreases a@.len() - i,
    {
        if a[i] != b[i] {
            return false;
        }
        i = i + 1;
    }
    proof {
        assert(a@ =~= b@);
    }
    true
}

impl HashKey for u8 {
    open spec fn digest_of(v: u8) -> u64 {
        v as u64
    }

    fn digest(&self) -> (r: u64) {
        *self as u64
    }

    fn key_eq(&self, other: &Self) -> (r: bool) {
        *self == *other
    }
}

impl HashKey for u32 {
    open spec fn digest_of(v: u32) -> u64 {
        v as u64
    }

    fn digest(&self) -> (r: u64) {
        *self as u64
    }

    fn key_eq(&self, other: &Self) -> (r: bool) {
        *self == *other
    }
}

impl HashKey for u64 {
    open spec fn digest_of(v: u64) -> u64 {
        v
    }

    fn digest(&self) -> (r: u64) {
        *self
    }

    fn key_eq(&self, other: &Self) -> (r: bool) {
        *self == *other
    }
}

impl HashKey for usize {
    open spec fn digest_of(v: usize) -> u64 {
        v as u64
    }

    fn digest(&self) -> (r: u64) {
        *self as u64
    }

    fn key_eq(&self, other: &Self) -> (r: bool) {
        *self == *other
    }
}

impl HashKey for i32 {
    open spec fn digest_of(v: i32) -> u64 {
        (v + 0x80000000) as u64
    }

    fn digest(&self) -> (r: u64) {
        (*self as i64 + 0x80000000) as u64
    }

    fn key_eq(&self, other: &Self) -> (r: bool) {
        *self == *other
    }
}

impl HashKey for i64 {
    open spec fn digest_of(v: i64) -> u64 {
        (v + 0x8000000000000000) as u64
    }

    fn digest(&self) -> (r: u64) {
        (*self as i128 + 0x8000000000000000) as u64
    }

    fn key_eq(&self, other: &Self) -> (r: bool) {
        *self == *other
    }
}

impl<'s> HashKey for &'s str {
    open spec fn digest_of(v: Seq<char>) -> u64 {
        fnv1a(encode_utf8(v))
    }

    fn digest(&self) -> (r: u64) {
        fnv1a_bytes(self.as_bytes())
    }

    fn key_eq(&self, other: &Self) -> (r: bool) {
        let r = bytes_eq(self.as_bytes(), other.as_bytes());
        proof {
            if encode_utf8(self@) == encode_utf8(other@) {
                encode_utf8_decode_utf8(self@);
                encode_utf8_decode_utf8(other@);
                assert(decode_utf8(encode_utf8(self@)) == decode_utf8(encode_utf8(other@)));
            }
        }
        r
    }
}

impl HashKey for String {
    open spec fn digest_of(v: Seq<char>) -> u64 {
        fnv1a(encode_utf8(v))
    }

    fn digest(&self) -> (r: u64) {
        fnv1a_bytes(self.as_str().as_bytes())
    }

    fn key_eq(&self, other: &Self) -> (r: bool) {
        self.eq(other)
    }
}

} // verus!
