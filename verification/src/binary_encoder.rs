//! The binary term and quad codec: every encoded term becomes one tag
//! byte plus a fixed-width or inline payload, so a concatenation of terms
//! is self-delimiting and a quad key needs no separator.

use vstd::prelude::*;

use crate::error::StorageError;
use crate::numeric_encoder::{EncodedQuad, EncodedTerm, StrHash};
use crate::small_string::{packed_byte, SmallString};
use crate::small_string::lemma_small_string_canonical;

verus! {

/// Version of the storage format this codec produces.
pub const LATEST_STORAGE_VERSION: u64 = 1;

/// Accepts exactly the storage format version this implementation supports.
pub fn is_supported_storage_version(version: u64) -> (r: bool)
    ensures
        r == (version == LATEST_STORAGE_VERSION),
{
    version == LATEST_STORAGE_VERSION
}

/// Upper bound on the byte length of one encoded term: one tag byte plus
/// at most two 16-byte payload blocks.
pub const WRITTEN_TERM_MAX_SIZE: usize = 33;

/// Byte `i` of `x`, big-endian.
pub open spec fn be_byte_u16(x: u16, i: int) -> u8
    recommends
        0 <= i < 2,
{
    ((x >> (((1 - i) * 8) as u16)) & 0xff) as u8
}

/// The big-endian bytes of `x`.
pub open spec fn spec_be_bytes_u16(x: u16) -> Seq<u8> {
    Seq::new(2, |i: int| be_byte_u16(x, i))
}

proof fn lemma_zero_bytes_u16()
    ensures
        forall|j: int| 0 <= j < 2 ==> be_byte_u16(0u16, j) == 0,
{
    assert forall|j: int| 0 <= j < 2 implies be_byte_u16(0u16, j) == 0 by {
        let sh = ((1 - j) * 8) as u16;
        assert((0u16 >> sh) & 0xff == 0) by (bit_vector);
    }
}

proof fn lemma_or_byte_u16(data: u16, b: u8, i: u16, j: u16)
    requires
        i < 2,
        j < 2,
        be_byte_u16(data, i as int) == 0,
    ensures
        be_byte_u16(data | ((b as u16) << (((1 - i) * 8) as u16)), j as int) == if i == j {
            b
        } else {
            be_byte_u16(data, j as int)
        },
{
    assert((((data | ((b as u16) << (((1 - i) * 8) as u16))) >> (((1 - j) * 8) as u16))
        & 0xff) as u8 == if i == j {
        b
    } else {
        ((data >> (((1 - j) * 8) as u16)) & 0xff) as u8
    }) by (bit_vector)
        requires
            i < 2,
            j < 2,
            ((data >> (((1 - i) * 8) as u16)) & 0xff) as u8 == 0,
    ;
}

/// Values with equal big-endian bytes are equal.
pub proof fn lemma_eq_from_bytes_u16(a: u16, b: u16)
    requires
        forall|i: int| 0 <= i < 2 ==> be_byte_u16(a, i) == be_byte_u16(b, i),
    ensures
        a == b,
{
    assert(be_byte_u16(a, 0) == be_byte_u16(b, 0));
    assert(be_byte_u16(a, 1) == be_byte_u16(b, 1));
    assert(a == b) by (bit_vector)
        requires
            ((a >> 8) & 0xff) as u8 == ((b >> 8) & 0xff) as u8,
            ((a >> 0) & 0xff) as u8 == ((b >> 0) & 0xff) as u8,
    ;
}

/// Appends the big-endian bytes of `x`.
pub fn write_u16_be(buffer: &mut Vec<u8>, x: u16)
    ensures
        final(buffer)@ == old(buffer)@ + spec_be_bytes_u16(x),
{
    let ghost base = buffer@;
    let mut i: usize = 0;
    while i < 2
        invariant
            i <= 2,
            buffer@.len() == base.len() + i,
            forall|j: int| 0 <= j < base.len() ==> buffer@[j] == base[j],
            forall|j: int| 0 <= j < i ==> buffer@[base.len() + j] == be_byte_u16(x, j),
        decreases 2 - i,
    {
        let sh: u16 = ((1 - (i as u16)) * 8);
        buffer.push(((x >> sh) & 0xff) as u8);
        i = i + 1;
    }
    proof {
        assert(buffer@ =~= base + spec_be_bytes_u16(x));
    }
}

/// Reads 2 big-endian bytes starting at `pos`.
pub fn read_u16_be(bytes: &[u8], pos: usize) -> (r: u16)
    requires
        pos + 2 <= bytes@.len(),
    ensures
        forall|i: int| 0 <= i < 2 ==> be_byte_u16(r, i) == bytes@[pos + i],
        spec_be_bytes_u16(r) == bytes@.subrange(pos as int, pos + 2),
{
    let blen = bytes.len();
    let mut x: u16 = 0;
    proof {
        lemma_zero_bytes_u16();
    }
    let mut i: usize = 0;
    while i < 2
        invariant
            pos + 2 <= bytes@.len(),
            bytes@.len() == blen,
            i <= 2,
            forall|j: int| 0 <= j < i ==> be_byte_u16(x, j) == bytes@[pos + j],
            forall|j: int| i <= j < 2 ==> be_byte_u16(x, j) == 0,
        decreases 2 - i,
    {
        let b = bytes[pos + i];
        let sh: u16 = ((1 - (i as u16)) * 8);
        let ghost old_x = x;
        x = x | ((b as u16) << sh);
        proof {
            assert forall|j: int| 0 <= j < 2 implies be_byte_u16(x, j) == (if j == i {
                bytes@[pos + i]
            } else {
                be_byte_u16(old_x, j)
            }) by {
                lemma_or_byte_u16(old_x, b, i as u16, j as u16);
            }
        }
        i = i + 1;
    }
    proof {
        assert(spec_be_bytes_u16(x) =~= bytes@.subrange(pos as int, pos + 2));
    }
    x
}

/// Byte `i` of `x`, big-endian.
pub open spec fn be_byte_u32(x: u32, i: int) -> u8
    recommends
        0 <= i < 4,
{
    ((x >> (((3 - i) * 8) as u32)) & 0xff) as u8
}

/// The big-endian bytes of `x`.
pub open spec fn spec_be_bytes_u32(x: u32) -> Seq<u8> {
    Seq::new(4, |i: int| be_byte_u32(x, i))
}

proof fn lemma_zero_bytes_u32()
    ensures
        forall|j: int| 0 <= j < 4 ==> be_byte_u32(0u32, j) == 0,
{
    assert forall|j: int| 0 <= j < 4 implies be_byte_u32(0u32, j) == 0 by {
        let sh = ((3 - j) * 8) as u32;
        assert((0u32 >> sh) & 0xff == 0) by (bit_vector);
    }
}

proof fn lemma_or_byte_u32(data: u32, b: u8, i: u32, j: u32)
    requires
        i < 4,
        j < 4,
        be_byte_u32(data, i as int) == 0,
    ensures
        be_byte_u32(data | ((b as u32) << (((3 - i) * 8) as u32)), j as int) == if i == j {
            b
        } else {
            be_byte_u32(data, j as int)
        },
{
    assert((((data | ((b as u32) << (((3 - i) * 8) as u32))) >> (((3 - j) * 8) as u32))
        & 0xff) as u8 == if i == j {
        b
    } else {
        ((data >> (((3 - j) * 8) as u32)) & 0xff) as u8
    }) by (bit_vector)
        requires
            i < 4,
            j < 4,
            ((data >> (((3 - i) * 8) as u32)) & 0xff) as u8 == 0,
    ;
}

/// Values with equal big-endian bytes are equal.
pub proof fn lemma_eq_from_bytes_u32(a: u32, b: u32)
    requires
        forall|i: int| 0 <= i < 4 ==> be_byte_u32(a, i) == be_byte_u32(b, i),
    ensures
        a == b,
{
    assert(be_byte_u32(a, 0) == be_byte_u32(b, 0));
    assert(be_byte_u32(a, 1) == be_byte_u32(b, 1));
    assert(be_byte_u32(a, 2) == be_byte_u32(b, 2));
    assert(be_byte_u32(a, 3) == be_byte_u32(b, 3));
    assert(a == b) by (bit_vector)
        requires
            ((a >> 24) & 0xff) as u8 == ((b >> 24) & 0xff) as u8,
            ((a >> 16) & 0xff) as u8 == ((b >> 16) & 0xff) as u8,
            ((a >> 8) & 0xff) as u8 == ((b >> 8) & 0xff) as u8,
            ((a >> 0) & 0xff) as u8 == ((b >> 0) & 0xff) as u8,
    ;
}

/// Appends the big-endian bytes of `x`.
pub fn write_u32_be(buffer: &mut Vec<u8>, x: u32)
    ensures
        final(buffer)@ == old(buffer)@ + spec_be_bytes_u32(x),
{
    let ghost base = buffer@;
    let mut i: usize = 0;
    while i < 4
        invariant
            i <= 4,
            buffer@.len() == base.len() + i,
            forall|j: int| 0 <= j < base.len() ==> buffer@[j] == base[j],
            forall|j: int| 0 <= j < i ==> buffer@[base.len() + j] == be_byte_u32(x, j),
        decreases 4 - i,
    {
        let sh: u32 = ((3 - (i as u32)) * 8);
        buffer.push(((x >> sh) & 0xff) as u8);
        i = i + 1;
    }
    proof {
        assert(buffer@ =~= base + spec_be_bytes_u32(x));
    }
}

/// Reads 4 big-endian bytes starting at `pos`.
pub fn read_u32_be(bytes: &[u8], pos: usize) -> (r: u32)
    requires
        pos + 4 <= bytes@.len(),
    ensures
        forall|i: int| 0 <= i < 4 ==> be_byte_u32(r, i) == bytes@[pos + i],
        spec_be_bytes_u32(r) == bytes@.subrange(pos as int, pos + 4),
{
    let blen = bytes.len();
    let mut x: u32 = 0;
    proof {
        lemma_zero_bytes_u32();
    }
    let mut i: usize = 0;
    while i < 4
        invariant
            pos + 4 <= bytes@.len(),
            bytes@.len() == blen,
            i <= 4,
            forall|j: int| 0 <= j < i ==> be_byte_u32(x, j) == bytes@[pos + j],
            forall|j: int| i <= j < 4 ==> be_byte_u32(x, j) == 0,
        decreases 4 - i,
    {
        let b = bytes[pos + i];
        let sh: u32 = ((3 - (i as u32)) * 8);
        let ghost old_x = x;
        x = x | ((b as u32) << sh);
        proof {
            assert forall|j: int| 0 <= j < 4 implies be_byte_u32(x, j) == (if j == i {
                bytes@[pos + i]
            } else {
                be_byte_u32(old_x, j)
            }) by {
                lemma_or_byte_u32(old_x, b, i as u32, j as u32);
            }
        }
        i = i + 1;
    }
    proof {
        assert(spec_be_bytes_u32(x) =~= bytes@.subrange(pos as int, pos + 4));
    }
    x
}

/// Byte `i` of `x`, big-endian.
pub open spec fn be_byte_u64(x: u64, i: int) -> u8
    recommends
        0 <= i < 8,
{
    ((x >> (((7 - i) * 8) as u64)) & 0xff) as u8
}

/// The big-endian bytes of `x`.
pub open spec fn spec_be_bytes_u64(x: u64) -> Seq<u8> {
    Seq::new(8, |i: int| be_byte_u64(x, i))
}

proof fn lemma_zero_bytes_u64()
    ensures
        forall|j: int| 0 <= j < 8 ==> be_byte_u64(0u64, j) == 0,
{
    assert forall|j: int| 0 <= j < 8 implies be_byte_u64(0u64, j) == 0 by {
        let sh = ((7 - j) * 8) as u64;
        assert((0u64 >> sh) & 0xff == 0) by (bit_vector);
    }
}

proof fn lemma_or_byte_u64(data: u64, b: u8, i: u64, j: u64)
    requires
        i < 8,
        j < 8,
        be_byte_u64(data, i as int) == 0,
    ensures
        be_byte_u64(data | ((b as u64) << (((7 - i) * 8) as u64)), j as int) == if i == j {
            b
        } else {
            be_byte_u64(data, j as int)
        },
{
    assert((((data | ((b as u64) << (((7 - i) * 8) as u64))) >> (((7 - j) * 8) as u64))
        & 0xff) as u8 == if i == j {
        b
    } else {
        ((data >> (((7 - j) * 8) as u64)) & 0xff) as u8
    }) by (bit_vector)
        requires
            i < 8,
            j < 8,
            ((data >> (((7 - i) * 8) as u64)) & 0xff) as u8 == 0,
    ;
}

/// Values with equal big-endian bytes are equal.
pub proof fn lemma_eq_from_bytes_u64(a: u64, b: u64)
    requires
        forall|i: int| 0 <= i < 8 ==> be_byte_u64(a, i) == be_byte_u64(b, i),
    ensures
        a == b,
{
    assert(be_byte_u64(a, 0) == be_byte_u64(b, 0));
    assert(be_byte_u64(a, 1) == be_byte_u64(b, 1));
    assert(be_byte_u64(a, 2) == be_byte_u64(b, 2));
    assert(be_byte_u64(a, 3) == be_byte_u64(b, 3));
    assert(be_byte_u64(a, 4) == be_byte_u64(b, 4));
    assert(be_byte_u64(a, 5) == be_byte_u64(b, 5));
    assert(be_byte_u64(a, 6) == be_byte_u64(b, 6));
    assert(be_byte_u64(a, 7) == be_byte_u64(b, 7));
    assert(a == b) by (bit_vector)
        requires
            ((a >> 56) & 0xff) as u8 == ((b >> 56) & 0xff) as u8,
            ((a >> 48) & 0xff) as u8 == ((b >> 48) & 0xff) as u8,
            ((a >> 40) & 0xff) as u8 == ((b >> 40) & 0xff) as u8,
            ((a >> 32) & 0xff) as u8 == ((b >> 32) & 0xff) as u8,
            ((a >> 24) & 0xff) as u8 == ((b >> 24) & 0xff) as u8,
            ((a >> 16) & 0xff) as u8 == ((b >> 16) & 0xff) as u8,
            ((a >> 8) & 0xff) as u8 == ((b >> 8) & 0xff) as u8,
            ((a >> 0) & 0xff) as u8 == ((b >> 0) & 0xff) as u8,
    ;
}

/// Appends the big-endian bytes of `x`.
pub fn write_u64_be(buffer: &mut Vec<u8>, x: u64)
    ensures
        final(buffer)@ == old(buffer)@ + spec_be_bytes_u64(x),
{
    let ghost base = buffer@;
    let mut i: usize = 0;
    while i < 8
        invariant
            i <= 8,
            buffer@.len() == base.len() + i,
            forall|j: int| 0 <= j < base.len() ==> buffer@[j] == base[j],
            forall|j: int| 0 <= j < i ==> buffer@[base.len() + j] == be_byte_u64(x, j),
        decreases 8 - i,
    {
        let sh: u64 = ((7 - (i as u64)) * 8);
        buffer.push(((x >> sh) & 0xff) as u8);
        i = i + 1;
    }
    proof {
        assert(buffer@ =~= base + spec_be_bytes_u64(x));
    }
}

/// Reads 8 big-endian bytes starting at `pos`.
pub fn read_u64_be(bytes: &[u8], pos: usize) -> (r: u64)
    requires
        pos + 8 <= bytes@.len(),
    ensures
        forall|i: int| 0 <= i < 8 ==> be_byte_u64(r, i) == bytes@[pos + i],
        spec_be_bytes_u64(r) == bytes@.subrange(pos as int, pos + 8),
{
    let blen = bytes.len();
    let mut x: u64 = 0;
    proof {
        lemma_zero_bytes_u64();
    }
    let mut i: usize = 0;
    while i < 8
        invariant
            pos + 8 <= bytes@.len(),
            bytes@.len() == blen,
            i <= 8,
            forall|j: int| 0 <= j < i ==> be_byte_u64(x, j) == bytes@[pos + j],
            forall|j: int| i <= j < 8 ==> be_byte_u64(x, j) == 0,
        decreases 8 - i,
    {
        let b = bytes[pos + i];
        let sh: u64 = ((7 - (i as u64)) * 8);
        let ghost old_x = x;
        x = x | ((b as u64) << sh);
        proof {
            assert forall|j: int| 0 <= j < 8 implies be_byte_u64(x, j) == (if j == i {
                bytes@[pos + i]
            } else {
                be_byte_u64(old_x, j)
            }) by {
                lemma_or_byte_u64(old_x, b, i as u64, j as u64);
            }
        }
        i = i + 1;
    }
    proof {
        assert(spec_be_bytes_u64(x) =~= bytes@.subrange(pos as int, pos + 8));
    }
    x
}

/// Byte `i` of `x`, big-endian.
pub open spec fn be_byte_u128(x: u128, i: int) -> u8
    recommends
        0 <= i < 16,
{
    ((x >> (((15 - i) * 8) as u128)) & 0xff) as u8
}

/// The big-endian bytes of `x`.
pub open spec fn spec_be_bytes_u128(x: u128) -> Seq<u8> {
    Seq::new(16, |i: int| be_byte_u128(x, i))
}

proof fn lemma_zero_bytes_u128()
    ensures
        forall|j: int| 0 <= j < 16 ==> be_byte_u128(0u128, j) == 0,
{
    assert forall|j: int| 0 <= j < 16 implies be_byte_u128(0u128, j) == 0 by {
        let sh = ((15 - j) * 8) as u128;
        assert((0u128 >> sh) & 0xff == 0) by (bit_vector);
    }
}

proof fn lemma_or_byte_u128(data: u128, b: u8, i: u128, j: u128)
    requires
        i < 16,
        j < 16,
        be_byte_u128(data, i as int) == 0,
    ensures
        be_byte_u128(data | ((b as u128) << (((15 - i) * 8) as u128)), j as int) == if i == j {
            b
        } else {
            be_byte_u128(data, j as int)
        },
{
    assert((((data | ((b as u128) << (((15 - i) * 8) as u128))) >> (((15 - j) * 8) as u128))
        & 0xff) as u8 == if i == j {
        b
    } else {
        ((data >> (((15 - j) * 8) as u128)) & 0xff) as u8
    }) by (bit_vector)
        requires
            i < 16,
            j < 16,
            ((data >> (((15 - i) * 8) as u128)) & 0xff) as u8 == 0,
    ;
}

/// Values with equal big-endian bytes are equal.
pub proof fn lemma_eq_from_bytes_u128(a: u128, b: u128)
    requires
        forall|i: int| 0 <= i < 16 ==> be_byte_u128(a, i) == be_byte_u128(b, i),
    ensures
        a == b,
{
    assert(be_byte_u128(a, 0) == be_byte_u128(b, 0));
    assert(be_byte_u128(a, 1) == be_byte_u128(b, 1));
    assert(be_byte_u128(a, 2) == be_byte_u128(b, 2));
    assert(be_byte_u128(a, 3) == be_byte_u128(b, 3));
    assert(be_byte_u128(a, 4) == be_byte_u128(b, 4));
    assert(be_byte_u128(a, 5) == be_byte_u128(b, 5));
    assert(be_byte_u128(a, 6) == be_byte_u128(b, 6));
    assert(be_byte_u128(a, 7) == be_byte_u128(b, 7));
    assert(be_byte_u128(a, 8) == be_byte_u128(b, 8));
    assert(be_byte_u128(a, 9) == be_byte_u128(b, 9));
    assert(be_byte_u128(a, 10) == be_byte_u128(b, 10));
    assert(be_byte_u128(a, 11) == be_byte_u128(b, 11));
    assert(be_byte_u128(a, 12) == be_byte_u128(b, 12));
    assert(be_byte_u128(a, 13) == be_byte_u128(b, 13));
    assert(be_byte_u128(a, 14) == be_byte_u128(b, 14));
    assert(be_byte_u128(a, 15) == be_byte_u128(b, 15));
    assert(a == b) by (bit_vector)
        requires
            ((a >> 120) & 0xff) as u8 == ((b >> 120) & 0xff) as u8,
            ((a >> 112) & 0xff) as u8 == ((b >> 112) & 0xff) as u8,
            ((a >> 104) & 0xff) as u8 == ((b >> 104) & 0xff) as u8,
            ((a >> 96) & 0xff) as u8 == ((b >> 96) & 0xff) as u8,
            ((a >> 88) & 0xff) as u8 == ((b >> 88) & 0xff) as u8,
            ((a >> 80) & 0xff) as u8 == ((b >> 80) & 0xff) as u8,
            ((a >> 72) & 0xff) as u8 == ((b >> 72) & 0xff) as u8,
            ((a >> 64) & 0xff) as u8 == ((b >> 64) & 0xff) as u8,
            ((a >> 56) & 0xff) as u8 == ((b >> 56) & 0xff) as u8,
            ((a >> 48) & 0xff) as u8 == ((b >> 48) & 0xff) as u8,
            ((a >> 40) & 0xff) as u8 == ((b >> 40) & 0xff) as u8,
            ((a >> 32) & 0xff) as u8 == ((b >> 32) & 0xff) as u8,
            ((a >> 24) & 0xff) as u8 == ((b >> 24) & 0xff) as u8,
            ((a >> 16) & 0xff) as u8 == ((b >> 16) & 0xff) as u8,
            ((a >> 8) & 0xff) as u8 == ((b >> 8) & 0xff) as u8,
            ((a >> 0) & 0xff) as u8 == ((b >> 0) & 0xff) as u8,
    ;
}

/// Appends the big-endian bytes of `x`.
pub fn write_u128_be(buffer: &mut Vec<u8>, x: u128)
    ensures
        final(buffer)@ == old(buffer)@ + spec_be_bytes_u128(x),
{
    let ghost base = buffer@;
    let mut i: usize = 0;
    while i < 16
        invariant
            i <= 16,
            buffer@.len() == base.len() + i,
            forall|j: int| 0 <= j < base.len() ==> buffer@[j] == base[j],
            forall|j: int| 0 <= j < i ==> buffer@[base.len() + j] == be_byte_u128(x, j),
        decreases 16 - i,
    {
        let sh: u128 = ((15 - (i as u128)) * 8);
        buffer.push(((x >> sh) & 0xff) as u8);
        i = i + 1;
    }
    proof {
        assert(buffer@ =~= base + spec_be_bytes_u128(x));
    }
}

/// Reads 16 big-endian bytes starting at `pos`.
pub fn read_u128_be(bytes: &[u8], pos: usize) -> (r: u128)
    requires
        pos + 16 <= bytes@.len(),
    ensures
        forall|i: int| 0 <= i < 16 ==> be_byte_u128(r, i) == bytes@[pos + i],
        spec_be_bytes_u128(r) == bytes@.subrange(pos as int, pos + 16),
{
    let blen = bytes.len();
    let mut x: u128 = 0;
    proof {
        lemma_zero_bytes_u128();
    }
    let mut i: usize = 0;
    while i < 16
        invariant
            pos + 16 <= bytes@.len(),
            bytes@.len() == blen,
            i <= 16,
            forall|j: int| 0 <= j < i ==> be_byte_u128(x, j) == bytes@[pos + j],
            forall|j: int| i <= j < 16 ==> be_byte_u128(x, j) == 0,
        decreases 16 - i,
    {
        let b = bytes[pos + i];
        let sh: u128 = ((15 - (i as u128)) * 8);
        let ghost old_x = x;
        x = x | ((b as u128) << sh);
        proof {
            assert forall|j: int| 0 <= j < 16 implies be_byte_u128(x, j) == (if j == i {
                bytes@[pos + i]
            } else {
                be_byte_u128(old_x, j)
            }) by {
                lemma_or_byte_u128(old_x, b, i as u128, j as u128);
            }
        }
        i = i + 1;
    }
    proof {
        assert(spec_be_bytes_u128(x) =~= bytes@.subrange(pos as int, pos + 16));
    }
    x
}

/// Single-byte type codes, one per term variant.
pub const TYPE_DEFAULT_GRAPH_ID: u8 = 0;
pub const TYPE_NAMED_NODE_ID: u8 = 1;
pub const TYPE_NUMERICAL_BLANK_NODE_ID: u8 = 2;
pub const TYPE_SMALL_STRING_LITERAL_ID: u8 = 3;
pub const TYPE_BIG_STRING_LITERAL_ID: u8 = 4;
pub const TYPE_SMALL_SMALL_LANG_STRING_LITERAL_ID: u8 = 5;
pub const TYPE_SMALL_BIG_LANG_STRING_LITERAL_ID: u8 = 6;
pub const TYPE_BIG_SMALL_LANG_STRING_LITERAL_ID: u8 = 7;
pub const TYPE_BIG_BIG_LANG_STRING_LITERAL_ID: u8 = 8;
pub const TYPE_SMALL_TYPED_LITERAL_ID: u8 = 9;
pub const TYPE_BIG_TYPED_LITERAL_ID: u8 = 10;
pub const TYPE_BOOLEAN_LITERAL_ID: u8 = 11;
pub const TYPE_FLOAT_LITERAL_ID: u8 = 12;
pub const TYPE_DOUBLE_LITERAL_ID: u8 = 13;
pub const TYPE_INTEGER_LITERAL_ID: u8 = 14;
pub const TYPE_DECIMAL_LITERAL_ID: u8 = 15;
pub const TYPE_DATE_TIME_LITERAL_ID: u8 = 16;
pub const TYPE_DATE_LITERAL_ID: u8 = 17;
pub const TYPE_TIME_LITERAL_ID: u8 = 18;

/// The 16-byte block of an inline string: 15 content bytes (zero padded)
/// then the length.
pub open spec fn spec_ss_block(s: SmallString) -> Seq<u8> {
    Seq::new(15, |i: int| packed_byte(s.data, i)) + seq![s.len]
}

/// Appends the 16-byte block of an inline string.
pub fn write_small_string(buffer: &mut Vec<u8>, s: &SmallString)
    requires
        s.wf(),
    ensures
        final(buffer)@ == old(buffer)@ + spec_ss_block(*s),
{
    let ghost base = buffer@;
    let mut i: usize = 0;
    while i < 15
        invariant
            i <= 15,
            buffer@.len() == base.len() + i,
            forall|j: int| 0 <= j < base.len() ==> buffer@[j] == base[j],
            forall|j: int| 0 <= j < i ==> buffer@[base.len() + j] == packed_byte(s.data, j),
        decreases 15 - i,
    {
        let sh: u128 = (15 - (i as u128)) * 8;
        buffer.push(((s.data >> sh) & 0xff) as u8);
        i = i + 1;
    }
    buffer.push(s.len);
    proof {
        assert(buffer@ =~= base + spec_ss_block(*s));
    }
}

/// Reads back one 16-byte inline-string block, refusing non-canonical
/// blocks: an overlong length byte or nonzero padding.
pub fn read_small_string(bytes: &[u8], pos: usize) -> (r: Option<SmallString>)
    requires
        pos + 16 <= bytes@.len(),
    ensures
        r matches Some(s) ==> s.wf() && spec_ss_block(s) == bytes@.subrange(pos as int, pos + 16),
        forall|s2: SmallString|
            s2.wf() && bytes@.subrange(pos as int, pos + 16) == spec_ss_block(s2) ==> r == Some(s2),
{
    let blen = bytes.len();
    let len_byte = bytes[pos + 15];
    if len_byte > 15 {
        proof {
            assert forall|s2: SmallString|
                s2.wf() && bytes@.subrange(pos as int, pos + 16) == spec_ss_block(s2) implies false by {
                assert(spec_ss_block(s2)[15] == s2.len);
                assert(bytes@.subrange(pos as int, pos + 16)[15] == bytes@[pos + 15]);
            }
        }
        return None;
    }
    let mut data: u128 = 0;
    proof {
        assert forall|j: int| 0 <= j < 16 implies packed_byte(0u128, j) == 0 by {
            let sh = ((15 - j) * 8) as u128;
            assert((0u128 >> sh) & 0xff == 0) by (bit_vector);
        }
    }
    let mut i: usize = 0;
    while i < 15
        invariant
            pos + 16 <= bytes@.len(),
            bytes@.len() == blen,
            i <= 15,
            forall|j: int| 0 <= j < i ==> packed_byte(data, j) == bytes@[pos + j],
            forall|j: int| i <= j < 16 ==> packed_byte(data, j) == 0,
        decreases 15 - i,
    {
        let b = bytes[pos + i];
        let sh: u128 = (15 - (i as u128)) * 8;
        let ghost old_data = data;
        data = data | ((b as u128) << sh);
        proof {
            assert forall|j: int| 0 <= j < 16 implies packed_byte(data, j) == (if j == i {
                bytes@[pos + i]
            } else {
                packed_byte(old_data, j)
            }) by {
                crate::small_string::lemma_or_shifted_byte(old_data, b, i as u128, j as u128);
            }
        }
        i = i + 1;
    }
    let mut k: usize = len_byte as usize;
    while k < 15
        invariant
            pos + 16 <= bytes@.len(),
            bytes@.len() == blen,
            len_byte <= k <= 15,
            len_byte == bytes@[pos + 15],
            forall|j: int| 0 <= j < 15 ==> packed_byte(data, j) == bytes@[pos + j],
            packed_byte(data, 15) == 0,
            forall|j: int| len_byte <= j < k ==> #[trigger] bytes@[pos + j] == 0,
        decreases 15 - k,
    {
        if bytes[pos + k] != 0 {
            proof {
                assert forall|s2: SmallString|
                    s2.wf() && bytes@.subrange(pos as int, pos + 16) == spec_ss_block(s2) implies false by {
                    assert(spec_ss_block(s2)[15] == s2.len);
                    assert(bytes@.subrange(pos as int, pos + 16)[15] == bytes@[pos + 15]);
                    assert(s2.len == len_byte);
                    assert(spec_ss_block(s2)[k as int] == packed_byte(s2.data, k as int));
                    assert(bytes@.subrange(pos as int, pos + 16)[k as int] == bytes@[pos + k]);
                }
            }
            return None;
        }
        k = k + 1;
    }
    let s = SmallString { len: len_byte, data };
    proof {
        assert(s.wf());
        assert(spec_ss_block(s) =~= bytes@.subrange(pos as int, pos + 16));
        assert forall|s2: SmallString|
            s2.wf() && bytes@.subrange(pos as int, pos + 16) == spec_ss_block(s2) implies s2 == s by {
            assert(spec_ss_block(s2)[15] == s2.len);
            assert(bytes@.subrange(pos as int, pos + 16)[15] == bytes@[pos + 15]);
            assert(s2.len == s.len);
            assert forall|j: int| 0 <= j < s2.len implies s2@[j] == s@[j] by {
                assert(spec_ss_block(s2)[j] == packed_byte(s2.data, j));
                assert(bytes@.subrange(pos as int, pos + 16)[j] == bytes@[pos + j]);
            }
            assert(s2@ =~= s@);
            lemma_small_string_canonical(s2, s);
        }
    }
    Some(s)
}

proof fn lemma_cast_u64_i64(x: u64)
    ensures
        ((x as i64) as u64) == x,
{
    assert(((x as i64) as u64) == x) by (bit_vector);
}

proof fn lemma_cast_i64_u64(x: i64)
    ensures
        ((x as u64) as i64) == x,
{
    assert(((x as u64) as i64) == x) by (bit_vector);
}

proof fn lemma_cast_u128_i128(x: u128)
    ensures
        ((x as i128) as u128) == x,
{
    assert(((x as i128) as u128) == x) by (bit_vector);
}

proof fn lemma_cast_i128_u128(x: i128)
    ensures
        ((x as u128) as i128) == x,
{
    assert(((x as u128) as i128) == x) by (bit_vector);
}

proof fn lemma_cast_u16_i16(x: u16)
    ensures
        ((x as i16) as u16) == x,
{
    assert(((x as i16) as u16) == x) by (bit_vector);
}

proof fn lemma_cast_i16_u16(x: i16)
    ensures
        ((x as u16) as i16) == x,
{
    assert(((x as u16) as i16) == x) by (bit_vector);
}

/// The canonical byte encoding of a term: tag byte then payload.
pub open spec fn spec_encode_term(t: EncodedTerm) -> Seq<u8> {
    match t {
        EncodedTerm::DefaultGraph => seq![TYPE_DEFAULT_GRAPH_ID],
        EncodedTerm::NamedNode { iri_id } => seq![TYPE_NAMED_NODE_ID] + spec_be_bytes_u128(iri_id.hash),
        EncodedTerm::NumericalBlankNode { id } => seq![TYPE_NUMERICAL_BLANK_NODE_ID] + spec_be_bytes_u128(id),
        EncodedTerm::SmallStringLiteral { value } => seq![TYPE_SMALL_STRING_LITERAL_ID] + spec_ss_block(value),
        EncodedTerm::BigStringLiteral { value_id } => seq![TYPE_BIG_STRING_LITERAL_ID] + spec_be_bytes_u128(value_id.hash),
        EncodedTerm::SmallSmallLangStringLiteral { value, language } => seq![TYPE_SMALL_SMALL_LANG_STRING_LITERAL_ID] + spec_ss_block(value) + spec_ss_block(language),
        EncodedTerm::SmallBigLangStringLiteral { value, language_id } => seq![TYPE_SMALL_BIG_LANG_STRING_LITERAL_ID] + spec_ss_block(value) + spec_be_bytes_u128(language_id.hash),
        EncodedTerm::BigSmallLangStringLiteral { value_id, language } => seq![TYPE_BIG_SMALL_LANG_STRING_LITERAL_ID] + spec_be_bytes_u128(value_id.hash) + spec_ss_block(language),
        EncodedTerm::BigBigLangStringLiteral { value_id, language_id } => seq![TYPE_BIG_BIG_LANG_STRING_LITERAL_ID] + spec_be_bytes_u128(value_id.hash) + spec_be_bytes_u128(language_id.hash),
        EncodedTerm::SmallTypedLiteral { value, datatype_id } => seq![TYPE_SMALL_TYPED_LITERAL_ID] + spec_ss_block(value) + spec_be_bytes_u128(datatype_id.hash),
        EncodedTerm::BigTypedLiteral { value_id, datatype_id } => seq![TYPE_BIG_TYPED_LITERAL_ID] + spec_be_bytes_u128(value_id.hash) + spec_be_bytes_u128(datatype_id.hash),
        EncodedTerm::BooleanLiteral { value } => seq![TYPE_BOOLEAN_LITERAL_ID] + seq![if value { 1u8 } else { 0u8 }],
        EncodedTerm::FloatLiteral { bits } => seq![TYPE_FLOAT_LITERAL_ID] + spec_be_bytes_u32(bits),
        EncodedTerm::DoubleLiteral { bits } => seq![TYPE_DOUBLE_LITERAL_ID] + spec_be_bytes_u64(bits),
        EncodedTerm::IntegerLiteral { value } => seq![TYPE_INTEGER_LITERAL_ID] + spec_be_bytes_u64(value as u64),
        EncodedTerm::DecimalLiteral { value } => seq![TYPE_DECIMAL_LITERAL_ID] + spec_be_bytes_u128(value as u128),
        EncodedTerm::DateTimeLiteral { seconds, offset_minutes } => seq![TYPE_DATE_TIME_LITERAL_ID] + spec_be_bytes_u64(seconds as u64) + spec_be_bytes_u16(offset_minutes as u16),
        EncodedTerm::DateLiteral { seconds, offset_minutes } => seq![TYPE_DATE_LITERAL_ID] + spec_be_bytes_u64(seconds as u64) + spec_be_bytes_u16(offset_minutes as u16),
        EncodedTerm::TimeLiteral { seconds, offset_minutes } => seq![TYPE_TIME_LITERAL_ID] + spec_be_bytes_u64(seconds as u64) + spec_be_bytes_u16(offset_minutes as u16),
    }
}

/// Every encoded term takes at least the tag byte and at most
/// `WRITTEN_TERM_MAX_SIZE` bytes.
pub proof fn lemma_term_len(t: EncodedTerm)
    ensures
        1 <= spec_encode_term(t).len() <= WRITTEN_TERM_MAX_SIZE,
{
    match t {
        EncodedTerm::DefaultGraph => { assert(spec_encode_term(t).len() == 1); },
        EncodedTerm::NamedNode { .. } => { assert(spec_encode_term(t).len() == 17); },
        EncodedTerm::NumericalBlankNode { .. } => { assert(spec_encode_term(t).len() == 17); },
        EncodedTerm::SmallStringLiteral { .. } => { assert(spec_encode_term(t).len() == 17); },
        EncodedTerm::BigStringLiteral { .. } => { assert(spec_encode_term(t).len() == 17); },
        EncodedTerm::SmallSmallLangStringLiteral { .. } => { assert(spec_encode_term(t).len() == 33); },
        EncodedTerm::SmallBigLangStringLiteral { .. } => { assert(spec_encode_term(t).len() == 33); },
        EncodedTerm::BigSmallLangStringLiteral { .. } => { assert(spec_encode_term(t).len() == 33); },
        EncodedTerm::BigBigLangStringLiteral { .. } => { assert(spec_encode_term(t).len() == 33); },
        EncodedTerm::SmallTypedLiteral { .. } => { assert(spec_encode_term(t).len() == 33); },
        EncodedTerm::BigTypedLiteral { .. } => { assert(spec_encode_term(t).len() == 33); },
        EncodedTerm::BooleanLiteral { .. } => { assert(spec_encode_term(t).len() == 2); },
        EncodedTerm::FloatLiteral { .. } => { assert(spec_encode_term(t).len() == 5); },
        EncodedTerm::DoubleLiteral { .. } => { assert(spec_encode_term(t).len() == 9); },
        EncodedTerm::IntegerLiteral { .. } => { assert(spec_encode_term(t).len() == 9); },
        EncodedTerm::DecimalLiteral { .. } => { assert(spec_encode_term(t).len() == 17); },
        EncodedTerm::DateTimeLiteral { .. } => { assert(spec_encode_term(t).len() == 11); },
        EncodedTerm::DateLiteral { .. } => { assert(spec_encode_term(t).len() == 11); },
        EncodedTerm::TimeLiteral { .. } => { assert(spec_encode_term(t).len() == 11); },
    }
}

/// Appends the canonical encoding of `t`.
pub fn write_term(buffer: &mut Vec<u8>, t: &EncodedTerm)
    requires
        t.wf(),
    ensures
        final(buffer)@ == old(buffer)@ + spec_encode_term(*t),
{
    let ghost base = buffer@;
    match *t {
        EncodedTerm::DefaultGraph => {
            buffer.push(TYPE_DEFAULT_GRAPH_ID);
            proof {
                assert(buffer@ =~= base + spec_encode_term(*t));
            }
        },
        EncodedTerm::NamedNode { iri_id } => {
            buffer.push(TYPE_NAMED_NODE_ID);
            write_u128_be(buffer, iri_id.hash);
            proof {
                assert(buffer@ =~= base + spec_encode_term(*t));
            }
        },
        EncodedTerm::NumericalBlankNode { id } => {
            buffer.push(TYPE_NUMERICAL_BLANK_NODE_ID);
            write_u128_be(buffer, id);
            proof {
                assert(buffer@ =~= base + spec_encode_term(*t));
            }
        },
        EncodedTerm::SmallStringLiteral { value } => {
            buffer.push(TYPE_SMALL_STRING_LITERAL_ID);
            write_small_string(buffer, &value);
            proof {
                assert(buffer@ =~= base + spec_encode_term(*t));
            }
        },
        EncodedTerm::BigStringLiteral { value_id } => {
            buffer.push(TYPE_BIG_STRING_LITERAL_ID);
            write_u128_be(buffer, value_id.hash);
            proof {
                assert(buffer@ =~= base + spec_encode_term(*t));
            }
        },
        EncodedTerm::SmallSmallLangStringLiteral { value, language } => {
            buffer.push(TYPE_SMALL_SMALL_LANG_STRING_LITERAL_ID);
            write_small_string(buffer, &value);
            write_small_string(buffer, &language);
            proof {
                assert(buffer@ =~= base + spec_encode_term(*t));
            }
        },
        EncodedTerm::SmallBigLangStringLiteral { value, language_id } => {
            buffer.push(TYPE_SMALL_BIG_LANG_STRING_LITERAL_ID);
            write_small_string(buffer, &value);
            write_u128_be(buffer, language_id.hash);
            proof {
                assert(buffer@ =~= base + spec_encode_term(*t));
            }
        },
        EncodedTerm::BigSmallLangStringLiteral { value_id, language } => {
            buffer.push(TYPE_BIG_SMALL_LANG_STRING_LITERAL_ID);
            write_u128_be(buffer, value_id.hash);
            write_small_string(buffer, &language);
            proof {
                assert(buffer@ =~= base + spec_encode_term(*t));
            }
        },
        EncodedTerm::BigBigLangStringLiteral { value_id, language_id } => {
            buffer.push(TYPE_BIG_BIG_LANG_STRING_LITERAL_ID);
            write_u128_be(buffer, value_id.hash);
            write_u128_be(buffer, language_id.hash);
            proof {
                assert(buffer@ =~= base + spec_encode_term(*t));
            }
        },
        EncodedTerm::SmallTypedLiteral { value, datatype_id } => {
            buffer.push(TYPE_SMALL_TYPED_LITERAL_ID);
            write_small_string(buffer, &value);
            write_u128_be(buffer, datatype_id.hash);
            proof {
                assert(buffer@ =~= base + spec_encode_term(*t));
            }
        },
        EncodedTerm::BigTypedLiteral { value_id, datatype_id } => {
            buffer.push(TYPE_BIG_TYPED_LITERAL_ID);
            write_u128_be(buffer, value_id.hash);
            write_u128_be(buffer, datatype_id.hash);
            proof {
                assert(buffer@ =~= base + spec_encode_term(*t));
            }
        },
        EncodedTerm::BooleanLiteral { value } => {
            buffer.push(TYPE_BOOLEAN_LITERAL_ID);
            buffer.push(if value { 1u8 } else { 0u8 });
            proof {
                assert(buffer@ =~= base + spec_encode_term(*t));
            }
        },
        EncodedTerm::FloatLiteral { bits } => {
            buffer.push(TYPE_FLOAT_LITERAL_ID);
            write_u32_be(buffer, bits);
            proof {
                assert(buffer@ =~= base + spec_encode_term(*t));
            }
        },
        EncodedTerm::DoubleLiteral { bits } => {
            buffer.push(TYPE_DOUBLE_LITERAL_ID);
            write_u64_be(buffer, bits);
            proof {
                assert(buffer@ =~= base + spec_encode_term(*t));
            }
        },
        EncodedTerm::IntegerLiteral { value } => {
            buffer.push(TYPE_INTEGER_LITERAL_ID);
            write_u64_be(buffer, #[verifier::truncate] (value as u64));
            proof {
                assert(buffer@ =~= base + spec_encode_term(*t));
            }
        },
        EncodedTerm::DecimalLiteral { value } => {
            buffer.push(TYPE_DECIMAL_LITERAL_ID);
            write_u128_be(buffer, #[verifier::truncate] (value as u128));
            proof {
                assert(buffer@ =~= base + spec_encode_term(*t));
            }
        },
        EncodedTerm::DateTimeLiteral { seconds, offset_minutes } => {
            buffer.push(TYPE_DATE_TIME_LITERAL_ID);
            write_u64_be(buffer, #[verifier::truncate] (seconds as u64));
            write_u16_be(buffer, #[verifier::truncate] (offset_minutes as u16));
            proof {
                assert(buffer@ =~= base + spec_encode_term(*t));
            }
        },
        EncodedTerm::DateLiteral { seconds, offset_minutes } => {
            buffer.push(TYPE_DATE_LITERAL_ID);
            write_u64_be(buffer, #[verifier::truncate] (seconds as u64));
            write_u16_be(buffer, #[verifier::truncate] (offset_minutes as u16));
            proof {
                assert(buffer@ =~= base + spec_encode_term(*t));
            }
        },
        EncodedTerm::TimeLiteral { seconds, offset_minutes } => {
            buffer.push(TYPE_TIME_LITERAL_ID);
            write_u64_be(buffer, #[verifier::truncate] (seconds as u64));
            write_u16_be(buffer, #[verifier::truncate] (offset_minutes as u16));
            proof {
                assert(buffer@ =~= base + spec_encode_term(*t));
            }
        },
    }
}

/// The canonical encoding of one term as a fresh buffer.
pub fn encode_term(t: &EncodedTerm) -> (r: Vec<u8>)
    requires
        t.wf(),
    ensures
        r@ == spec_encode_term(*t),
{
    let mut buffer: Vec<u8> = Vec::new();
    write_term(&mut buffer, t);
    proof {
        assert(buffer@ =~= spec_encode_term(*t));
    }
    buffer
}

/// Two concatenated term encodings.
pub fn encode_term_pair(t1: &EncodedTerm, t2: &EncodedTerm) -> (r: Vec<u8>)
    requires
        t1.wf(),
        t2.wf(),
    ensures
        r@ == spec_encode_term(*t1) + spec_encode_term(*t2),
{
    let mut buffer: Vec<u8> = Vec::new();
    write_term(&mut buffer, t1);
    write_term(&mut buffer, t2);
    proof {
        assert(buffer@ =~= spec_encode_term(*t1) + spec_encode_term(*t2));
    }
    buffer
}

/// Three concatenated term encodings.
pub fn encode_term_triple(t1: &EncodedTerm, t2: &EncodedTerm, t3: &EncodedTerm) -> (r: Vec<u8>)
    requires
        t1.wf(),
        t2.wf(),
        t3.wf(),
    ensures
        r@ == spec_encode_term(*t1) + spec_encode_term(*t2) + spec_encode_term(*t3),
{
    let mut buffer: Vec<u8> = Vec::new();
    write_term(&mut buffer, t1);
    write_term(&mut buffer, t2);
    write_term(&mut buffer, t3);
    proof {
        assert(buffer@ =~= spec_encode_term(*t1) + spec_encode_term(*t2) + spec_encode_term(*t3));
    }
    buffer
}

/// Four concatenated term encodings.
pub fn encode_term_quad(
    t1: &EncodedTerm,
    t2: &EncodedTerm,
    t3: &EncodedTerm,
    t4: &EncodedTerm,
) -> (r: Vec<u8>)
    requires
        t1.wf(),
        t2.wf(),
        t3.wf(),
        t4.wf(),
    ensures
        r@ == spec_encode_term(*t1) + spec_encode_term(*t2) + spec_encode_term(*t3)
            + spec_encode_term(*t4),
{
    let mut buffer: Vec<u8> = Vec::new();
    write_term(&mut buffer, t1);
    write_term(&mut buffer, t2);
    write_term(&mut buffer, t3);
    write_term(&mut buffer, t4);
    proof {
        assert(buffer@ =~= spec_encode_term(*t1) + spec_encode_term(*t2) + spec_encode_term(*t3)
            + spec_encode_term(*t4));
    }
    buffer
}

/// The `spo` index key of a quad.
pub open spec fn spec_spo_key(q: EncodedQuad) -> Seq<u8> {
    spec_encode_term(q.subject) + spec_encode_term(q.predicate) + spec_encode_term(q.object)
}

/// Appends the `spo` index key of `quad`.
pub fn write_spo_quad(buffer: &mut Vec<u8>, quad: &EncodedQuad)
    requires
        quad.wf(),
    ensures
        final(buffer)@ == old(buffer)@ + spec_spo_key(*quad),
{
    let ghost base = buffer@;
    write_term(buffer, &quad.subject);
    write_term(buffer, &quad.predicate);
    write_term(buffer, &quad.object);
    proof {
        assert(buffer@ =~= base + spec_spo_key(*quad));
    }
}

/// The `pos` index key of a quad.
pub open spec fn spec_pos_key(q: EncodedQuad) -> Seq<u8> {
    spec_encode_term(q.predicate) + spec_encode_term(q.object) + spec_encode_term(q.subject)
}

/// Appends the `pos` index key of `quad`.
pub fn write_pos_quad(buffer: &mut Vec<u8>, quad: &EncodedQuad)
    requires
        quad.wf(),
    ensures
        final(buffer)@ == old(buffer)@ + spec_pos_key(*quad),
{
    let ghost base = buffer@;
    write_term(buffer, &quad.predicate);
    write_term(buffer, &quad.object);
    write_term(buffer, &quad.subject);
    proof {
        assert(buffer@ =~= base + spec_pos_key(*quad));
    }
}

/// The `osp` index key of a quad.
pub open spec fn spec_osp_key(q: EncodedQuad) -> Seq<u8> {
    spec_encode_term(q.object) + spec_encode_term(q.subject) + spec_encode_term(q.predicate)
}

/// Appends the `osp` index key of `quad`.
pub fn write_osp_quad(buffer: &mut Vec<u8>, quad: &EncodedQuad)
    requires
        quad.wf(),
    ensures
        final(buffer)@ == old(buffer)@ + spec_osp_key(*quad),
{
    let ghost base = buffer@;
    write_term(buffer, &quad.object);
    write_term(buffer, &quad.subject);
    write_term(buffer, &quad.predicate);
    proof {
        assert(buffer@ =~= base + spec_osp_key(*quad));
    }
}

/// The `spog` index key of a quad.
pub open spec fn spec_spog_key(q: EncodedQuad) -> Seq<u8> {
    spec_encode_term(q.subject) + spec_encode_term(q.predicate) + spec_encode_term(q.object) + spec_encode_term(q.graph_name)
}

/// Appends the `spog` index key of `quad`.
pub fn write_spog_quad(buffer: &mut Vec<u8>, quad: &EncodedQuad)
    requires
        quad.wf(),
    ensures
        final(buffer)@ == old(buffer)@ + spec_spog_key(*quad),
{
    let ghost base = buffer@;
    write_term(buffer, &quad.subject);
    write_term(buffer, &quad.predicate);
    write_term(buffer, &quad.object);
    write_term(buffer, &quad.graph_name);
    proof {
        assert(buffer@ =~= base + spec_spog_key(*quad));
    }
}

/// The `posg` index key of a quad.
pub open spec fn spec_posg_key(q: EncodedQuad) -> Seq<u8> {
    spec_encode_term(q.predicate) + spec_encode_term(q.object) + spec_encode_term(q.subject) + spec_encode_term(q.graph_name)
}

/// Appends the `posg` index key of `quad`.
pub fn write_posg_quad(buffer: &mut Vec<u8>, quad: &EncodedQuad)
    requires
        quad.wf(),
    ensures
        final(buffer)@ == old(buffer)@ + spec_posg_key(*quad),
{
    let ghost base = buffer@;
    write_term(buffer, &quad.predicate);
    write_term(buffer, &quad.object);
    write_term(buffer, &quad.subject);
    write_term(buffer, &quad.graph_name);
    proof {
        assert(buffer@ =~= base + spec_posg_key(*quad));
    }
}

/// The `ospg` index key of a quad.
pub open spec fn spec_ospg_key(q: EncodedQuad) -> Seq<u8> {
    spec_encode_term(q.object) + spec_encode_term(q.subject) + spec_encode_term(q.predicate) + spec_encode_term(q.graph_name)
}

/// Appends the `ospg` index key of `quad`.
pub fn write_ospg_quad(buffer: &mut Vec<u8>, quad: &EncodedQuad)
    requires
        quad.wf(),
    ensures
        final(buffer)@ == old(buffer)@ + spec_ospg_key(*quad),
{
    let ghost base = buffer@;
    write_term(buffer, &quad.object);
    write_term(buffer, &quad.subject);
    write_term(buffer, &quad.predicate);
    write_term(buffer, &quad.graph_name);
    proof {
        assert(buffer@ =~= base + spec_ospg_key(*quad));
    }
}

/// The `gspo` index key of a quad.
pub open spec fn spec_gspo_key(q: EncodedQuad) -> Seq<u8> {
    spec_encode_term(q.graph_name) + spec_encode_term(q.subject) + spec_encode_term(q.predicate) + spec_encode_term(q.object)
}

/// Appends the `gspo` index key of `quad`.
pub fn write_gspo_quad(buffer: &mut Vec<u8>, quad: &EncodedQuad)
    requires
        quad.wf(),
    ensures
        final(buffer)@ == old(buffer)@ + spec_gspo_key(*quad),
{
    let ghost base = buffer@;
    write_term(buffer, &quad.graph_name);
    write_term(buffer, &quad.subject);
    write_term(buffer, &quad.predicate);
    write_term(buffer, &quad.object);
    proof {
        assert(buffer@ =~= base + spec_gspo_key(*quad));
    }
}

/// The `gpos` index key of a quad.
pub open spec fn spec_gpos_key(q: EncodedQuad) -> Seq<u8> {
    spec_encode_term(q.graph_name) + spec_encode_term(q.predicate) + spec_encode_term(q.object) + spec_encode_term(q.subject)
}

/// Appends the `gpos` index key of `quad`.
pub fn write_gpos_quad(buffer: &mut Vec<u8>, quad: &EncodedQuad)
    requires
        quad.wf(),
    ensures
        final(buffer)@ == old(buffer)@ + spec_gpos_key(*quad),
{
    let ghost base = buffer@;
    write_term(buffer, &quad.graph_name);
    write_term(buffer, &quad.predicate);
    write_term(buffer, &quad.object);
    write_term(buffer, &quad.subject);
    proof {
        assert(buffer@ =~= base + spec_gpos_key(*quad));
    }
}

/// The `gosp` index key of a quad.
pub open spec fn spec_gosp_key(q: EncodedQuad) -> Seq<u8> {
    spec_encode_term(q.graph_name) + spec_encode_term(q.object) + spec_encode_term(q.subject) + spec_encode_term(q.predicate)
}

/// Appends the `gosp` index key of `quad`.
pub fn write_gosp_quad(buffer: &mut Vec<u8>, quad: &EncodedQuad)
    requires
        quad.wf(),
    ensures
        final(buffer)@ == old(buffer)@ + spec_gosp_key(*quad),
{
    let ghost base = buffer@;
    write_term(buffer, &quad.graph_name);
    write_term(buffer, &quad.object);
    write_term(buffer, &quad.subject);
    write_term(buffer, &quad.predicate);
    proof {
        assert(buffer@ =~= base + spec_gosp_key(*quad));
    }
}

/// `t` is encoded at `pos` in `bytes` (with arbitrary bytes after it).
pub open spec fn decodes_to(bytes: Seq<u8>, pos: int, t: EncodedTerm) -> bool {
    &&& t.wf()
    &&& 0 <= pos
    &&& pos + spec_encode_term(t).len() <= bytes.len()
    &&& bytes.subrange(pos, pos + spec_encode_term(t).len()) == spec_encode_term(t)
}

/// The type code a term is encoded under.
pub open spec fn spec_term_tag(t: EncodedTerm) -> u8 {
    match t {
        EncodedTerm::DefaultGraph => TYPE_DEFAULT_GRAPH_ID,
        EncodedTerm::NamedNode { .. } => TYPE_NAMED_NODE_ID,
        EncodedTerm::NumericalBlankNode { .. } => TYPE_NUMERICAL_BLANK_NODE_ID,
        EncodedTerm::SmallStringLiteral { .. } => TYPE_SMALL_STRING_LITERAL_ID,
        EncodedTerm::BigStringLiteral { .. } => TYPE_BIG_STRING_LITERAL_ID,
        EncodedTerm::SmallSmallLangStringLiteral { .. } => TYPE_SMALL_SMALL_LANG_STRING_LITERAL_ID,
        EncodedTerm::SmallBigLangStringLiteral { .. } => TYPE_SMALL_BIG_LANG_STRING_LITERAL_ID,
        EncodedTerm::BigSmallLangStringLiteral { .. } => TYPE_BIG_SMALL_LANG_STRING_LITERAL_ID,
        EncodedTerm::BigBigLangStringLiteral { .. } => TYPE_BIG_BIG_LANG_STRING_LITERAL_ID,
        EncodedTerm::SmallTypedLiteral { .. } => TYPE_SMALL_TYPED_LITERAL_ID,
        EncodedTerm::BigTypedLiteral { .. } => TYPE_BIG_TYPED_LITERAL_ID,
        EncodedTerm::BooleanLiteral { .. } => TYPE_BOOLEAN_LITERAL_ID,
        EncodedTerm::FloatLiteral { .. } => TYPE_FLOAT_LITERAL_ID,
        EncodedTerm::DoubleLiteral { .. } => TYPE_DOUBLE_LITERAL_ID,
        EncodedTerm::IntegerLiteral { .. } => TYPE_INTEGER_LITERAL_ID,
        EncodedTerm::DecimalLiteral { .. } => TYPE_DECIMAL_LITERAL_ID,
        EncodedTerm::DateTimeLiteral { .. } => TYPE_DATE_TIME_LITERAL_ID,
        EncodedTerm::DateLiteral { .. } => TYPE_DATE_LITERAL_ID,
        EncodedTerm::TimeLiteral { .. } => TYPE_TIME_LITERAL_ID,
    }
}

/// The first encoded byte is the type code, and every code is at most 18.
pub proof fn lemma_term_tag(t: EncodedTerm)
    ensures
        spec_encode_term(t).len() >= 1,
        spec_encode_term(t)[0] == spec_term_tag(t),
        spec_term_tag(t) <= 18,
{
    match t {
        EncodedTerm::DefaultGraph => { assert(spec_encode_term(t)[0] == TYPE_DEFAULT_GRAPH_ID); },
        EncodedTerm::NamedNode { .. } => { assert(spec_encode_term(t)[0] == TYPE_NAMED_NODE_ID); },
        EncodedTerm::NumericalBlankNode { .. } => { assert(spec_encode_term(t)[0] == TYPE_NUMERICAL_BLANK_NODE_ID); },
        EncodedTerm::SmallStringLiteral { .. } => { assert(spec_encode_term(t)[0] == TYPE_SMALL_STRING_LITERAL_ID); },
        EncodedTerm::BigStringLiteral { .. } => { assert(spec_encode_term(t)[0] == TYPE_BIG_STRING_LITERAL_ID); },
        EncodedTerm::SmallSmallLangStringLiteral { .. } => { assert(spec_encode_term(t)[0] == TYPE_SMALL_SMALL_LANG_STRING_LITERAL_ID); },
        EncodedTerm::SmallBigLangStringLiteral { .. } => { assert(spec_encode_term(t)[0] == TYPE_SMALL_BIG_LANG_STRING_LITERAL_ID); },
        EncodedTerm::BigSmallLangStringLiteral { .. } => { assert(spec_encode_term(t)[0] == TYPE_BIG_SMALL_LANG_STRING_LITERAL_ID); },
        EncodedTerm::BigBigLangStringLiteral { .. } => { assert(spec_encode_term(t)[0] == TYPE_BIG_BIG_LANG_STRING_LITERAL_ID); },
        EncodedTerm::SmallTypedLiteral { .. } => { assert(spec_encode_term(t)[0] == TYPE_SMALL_TYPED_LITERAL_ID); },
        EncodedTerm::BigTypedLiteral { .. } => { assert(spec_encode_term(t)[0] == TYPE_BIG_TYPED_LITERAL_ID); },
        EncodedTerm::BooleanLiteral { .. } => { assert(spec_encode_term(t)[0] == TYPE_BOOLEAN_LITERAL_ID); },
        EncodedTerm::FloatLiteral { .. } => { assert(spec_encode_term(t)[0] == TYPE_FLOAT_LITERAL_ID); },
        EncodedTerm::DoubleLiteral { .. } => { assert(spec_encode_term(t)[0] == TYPE_DOUBLE_LITERAL_ID); },
        EncodedTerm::IntegerLiteral { .. } => { assert(spec_encode_term(t)[0] == TYPE_INTEGER_LITERAL_ID); },
        EncodedTerm::DecimalLiteral { .. } => { assert(spec_encode_term(t)[0] == TYPE_DECIMAL_LITERAL_ID); },
        EncodedTerm::DateTimeLiteral { .. } => { assert(spec_encode_term(t)[0] == TYPE_DATE_TIME_LITERAL_ID); },
        EncodedTerm::DateLiteral { .. } => { assert(spec_encode_term(t)[0] == TYPE_DATE_LITERAL_ID); },
        EncodedTerm::TimeLiteral { .. } => { assert(spec_encode_term(t)[0] == TYPE_TIME_LITERAL_ID); },
    }
}

/// Reads the term encoded at `pos`, refusing anything that is not the
/// canonical encoding of a well-formed term; on success the second
/// component is the position just past the term.
#[verifier::rlimit(100)]
pub fn decode_term_from(bytes: &[u8], pos: usize) -> (r: Result<(EncodedTerm, usize), StorageError>)
    requires
        pos <= bytes@.len(),
    ensures
        r matches Ok(p) ==> decodes_to(bytes@, pos as int, p.0) && p.1 == pos + spec_encode_term(
            p.0,
        ).len(),
        forall|t: EncodedTerm| #[trigger] decodes_to(bytes@, pos as int, t) ==> (r matches Ok(p)
            && p.0 == t),
{
    let blen = bytes.len();
    if pos >= blen {
        proof {
            assert forall|t2: EncodedTerm| decodes_to(bytes@, pos as int, t2) implies false by {
                lemma_term_tag(t2);
            }
        }
        return Err(StorageError::Corruption("truncated term encoding".to_owned()));
    }
    let tag = bytes[pos];
    if tag == TYPE_DEFAULT_GRAPH_ID {
        let t = EncodedTerm::DefaultGraph;
        let end = pos + 1;
        proof {
            assert(spec_encode_term(t) =~= bytes@.subrange(pos as int, pos + 1));
            assert(decodes_to(bytes@, pos as int, t));
            assert forall|t2: EncodedTerm| decodes_to(bytes@, pos as int, t2) implies t2 == t by {
                lemma_term_tag(t2);
                assert(spec_encode_term(t2)[0] == bytes@[pos as int]);
                assert(t2 is DefaultGraph);
                let enc2 = spec_encode_term(t2);
                assert(enc2.len() == 1);
            }
        }
        Ok((t, end))
    } else if tag == TYPE_NAMED_NODE_ID {
        if blen - pos < 17 {
            proof {
                assert forall|t2: EncodedTerm| decodes_to(bytes@, pos as int, t2) implies false by {
                    lemma_term_tag(t2);
                    assert(spec_encode_term(t2)[0] == bytes@[pos as int]);
                    assert(t2 is NamedNode);
                    assert(spec_encode_term(t2).len() == 17);
                }
            }
            return Err(StorageError::Corruption("truncated term encoding".to_owned()));
        }
        let v0 = read_u128_be(bytes, pos + 1);
        let t = EncodedTerm::NamedNode { iri_id: StrHash { hash: v0 } };
        let end = pos + 17;
        proof {
            assert(spec_encode_term(t) =~= bytes@.subrange(pos as int, pos + 17));
            assert(decodes_to(bytes@, pos as int, t));
            assert forall|t2: EncodedTerm| decodes_to(bytes@, pos as int, t2) implies t2 == t by {
                lemma_term_tag(t2);
                assert(spec_encode_term(t2)[0] == bytes@[pos as int]);
                assert(t2 is NamedNode);
                let enc2 = spec_encode_term(t2);
                assert(enc2.len() == 17);
                assert forall|ii: int| 0 <= ii < 16 implies be_byte_u128(t2->NamedNode_iri_id.hash, ii) == be_byte_u128(v0, ii) by {
                    assert(enc2[1 + ii] == be_byte_u128(t2->NamedNode_iri_id.hash, ii));
                    assert(bytes@.subrange(pos as int, pos + 17)[1 + ii] == bytes@[pos + 1 + ii]);
                }
                lemma_eq_from_bytes_u128(t2->NamedNode_iri_id.hash, v0);
            }
        }
        Ok((t, end))
    } else if tag == TYPE_NUMERICAL_BLANK_NODE_ID {
        if blen - pos < 17 {
            proof {
                assert forall|t2: EncodedTerm| decodes_to(bytes@, pos as int, t2) implies false by {
                    lemma_term_tag(t2);
                    assert(spec_encode_term(t2)[0] == bytes@[pos as int]);
                    assert(t2 is NumericalBlankNode);
                    assert(spec_encode_term(t2).len() == 17);
                }
            }
            return Err(StorageError::Corruption("truncated term encoding".to_owned()));
        }
        let v0 = read_u128_be(bytes, pos + 1);
        let t = EncodedTerm::NumericalBlankNode { id: v0 };
        let end = pos + 17;
        proof {
            assert(spec_encode_term(t) =~= bytes@.subrange(pos as int, pos + 17));
            assert(decodes_to(bytes@, pos as int, t));
            assert forall|t2: EncodedTerm| decodes_to(bytes@, pos as int, t2) implies t2 == t by {
                lemma_term_tag(t2);
                assert(spec_encode_term(t2)[0] == bytes@[pos as int]);
                assert(t2 is NumericalBlankNode);
                let enc2 = spec_encode_term(t2);
                assert(enc2.len() == 17);
                assert forall|ii: int| 0 <= ii < 16 implies be_byte_u128(t2->NumericalBlankNode_id, ii) == be_byte_u128(v0, ii) by {
                    assert(enc2[1 + ii] == be_byte_u128(t2->NumericalBlankNode_id, ii));
                    assert(bytes@.subrange(pos as int, pos + 17)[1 + ii] == bytes@[pos + 1 + ii]);
                }
                lemma_eq_from_bytes_u128(t2->NumericalBlankNode_id, v0);
            }
        }
        Ok((t, end))
    } else if tag == TYPE_SMALL_STRING_LITERAL_ID {
        if blen - pos < 17 {
            proof {
                assert forall|t2: EncodedTerm| decodes_to(bytes@, pos as int, t2) implies false by {
                    lemma_term_tag(t2);
                    assert(spec_encode_term(t2)[0] == bytes@[pos as int]);
                    assert(t2 is SmallStringLiteral);
                    assert(spec_encode_term(t2).len() == 17);
                }
            }
            return Err(StorageError::Corruption("truncated term encoding".to_owned()));
        }
        let v0 = match read_small_string(bytes, pos + 1) {
            Some(s) => s,
            None => {
                proof {
                    assert forall|t2: EncodedTerm| decodes_to(bytes@, pos as int, t2) implies false by {
                        lemma_term_tag(t2);
                        assert(spec_encode_term(t2)[0] == bytes@[pos as int]);
                        assert(t2 is SmallStringLiteral);
                        let enc2 = spec_encode_term(t2);
                        assert(enc2.len() == 17);
                        assert(bytes@.subrange(pos + 1, pos + 1 + 16) =~= spec_ss_block(t2->SmallStringLiteral_value)) by {
                            assert forall|ii: int| 0 <= ii < 16 implies bytes@.subrange(pos + 1, pos + 1 + 16)[ii] == spec_ss_block(t2->SmallStringLiteral_value)[ii] by {
                                assert(enc2[1 + ii] == spec_ss_block(t2->SmallStringLiteral_value)[ii]);
                                assert(bytes@.subrange(pos as int, pos + 17)[1 + ii] == bytes@[pos + 1 + ii]);
                            }
                        }
                    }
                }
                return Err(StorageError::Corruption("malformed inline string".to_owned()));
            },
        };
        let t = EncodedTerm::SmallStringLiteral { value: v0 };
        let end = pos + 17;
        proof {
            assert(spec_encode_term(t) =~= bytes@.subrange(pos as int, pos + 17));
            assert(decodes_to(bytes@, pos as int, t));
            assert forall|t2: EncodedTerm| decodes_to(bytes@, pos as int, t2) implies t2 == t by {
                lemma_term_tag(t2);
                assert(spec_encode_term(t2)[0] == bytes@[pos as int]);
                assert(t2 is SmallStringLiteral);
                let enc2 = spec_encode_term(t2);
                assert(enc2.len() == 17);
                assert(bytes@.subrange(pos + 1, pos + 1 + 16) =~= spec_ss_block(t2->SmallStringLiteral_value)) by {
                    assert forall|ii: int| 0 <= ii < 16 implies bytes@.subrange(pos + 1, pos + 1 + 16)[ii] == spec_ss_block(t2->SmallStringLiteral_value)[ii] by {
                        assert(enc2[1 + ii] == spec_ss_block(t2->SmallStringLiteral_value)[ii]);
                        assert(bytes@.subrange(pos as int, pos + 17)[1 + ii] == bytes@[pos + 1 + ii]);
                    }
                }
                assert(v0 == t2->SmallStringLiteral_value);
            }
        }
        Ok((t, end))
    } else if tag == TYPE_BIG_STRING_LITERAL_ID {
        if blen - pos < 17 {
            proof {
                assert forall|t2: EncodedTerm| decodes_to(bytes@, pos as int, t2) implies false by {
                    lemma_term_tag(t2);
                    assert(spec_encode_term(t2)[0] == bytes@[pos as int]);
                    assert(t2 is BigStringLiteral);
                    assert(spec_encode_term(t2).len() == 17);
                }
            }
            return Err(StorageError::Corruption("truncated term encoding".to_owned()));
        }
        let v0 = read_u128_be(bytes, pos + 1);
        let t = EncodedTerm::BigStringLiteral { value_id: StrHash { hash: v0 } };
        let end = pos + 17;
        proof {
            assert(spec_encode_term(t) =~= bytes@.subrange(pos as int, pos + 17));
            assert(decodes_to(bytes@, pos as int, t));
            assert forall|t2: EncodedTerm| decodes_to(bytes@, pos as int, t2) implies t2 == t by {
                lemma_term_tag(t2);
                assert(spec_encode_term(t2)[0] == bytes@[pos as int]);
                assert(t2 is BigStringLiteral);
                let enc2 = spec_encode_term(t2);
                assert(enc2.len() == 17);
                assert forall|ii: int| 0 <= ii < 16 implies be_byte_u128(t2->BigStringLiteral_value_id.hash, ii) == be_byte_u128(v0, ii) by {
                    assert(enc2[1 + ii] == be_byte_u128(t2->BigStringLiteral_value_id.hash, ii));
                    assert(bytes@.subrange(pos as int, pos + 17)[1 + ii] == bytes@[pos + 1 + ii]);
                }
                lemma_eq_from_bytes_u128(t2->BigStringLiteral_value_id.hash, v0);
            }
        }
        Ok((t, end))
    } else if tag == TYPE_SMALL_SMALL_LANG_STRING_LITERAL_ID {
        if blen - pos < 33 {
            proof {
                assert forall|t2: EncodedTerm| decodes_to(bytes@, pos as int, t2) implies false by {
                    lemma_term_tag(t2);
                    assert(spec_encode_term(t2)[0] == bytes@[pos as int]);
                    assert(t2 is SmallSmallLangStringLiteral);
                    assert(spec_encode_term(t2).len() == 33);
                }
            }
            return Err(StorageError::Corruption("truncated term encoding".to_owned()));
        }
        let v0 = match read_small_string(bytes, pos + 1) {
            Some(s) => s,
            None => {
                proof {
                    assert forall|t2: EncodedTerm| decodes_to(bytes@, pos as int, t2) implies false by {
                        lemma_term_tag(t2);
                        assert(spec_encode_term(t2)[0] == bytes@[pos as int]);
                        assert(t2 is SmallSmallLangStringLiteral);
                        let enc2 = spec_encode_term(t2);
                        assert(enc2.len() == 33);
                        assert(bytes@.subrange(pos + 1, pos + 1 + 16) =~= spec_ss_block(t2->SmallSmallLangStringLiteral_value)) by {
                            assert forall|ii: int| 0 <= ii < 16 implies bytes@.subrange(pos + 1, pos + 1 + 16)[ii] == spec_ss_block(t2->SmallSmallLangStringLiteral_value)[ii] by {
                                assert(enc2[1 + ii] == spec_ss_block(t2->SmallSmallLangStringLiteral_value)[ii]);
                                assert(bytes@.subrange(pos as int, pos + 33)[1 + ii] == bytes@[pos + 1 + ii]);
                            }
                        }
                    }
                }
                return Err(StorageError::Corruption("malformed inline string".to_owned()));
            },
        };
        let v1 = match read_small_string(bytes, pos + 17) {
            Some(s) => s,
            None => {
                proof {
                    assert forall|t2: EncodedTerm| decodes_to(bytes@, pos as int, t2) implies false by {
                        lemma_term_tag(t2);
                        assert(spec_encode_term(t2)[0] == bytes@[pos as int]);
                        assert(t2 is SmallSmallLangStringLiteral);
                        let enc2 = spec_encode_term(t2);
                        assert(enc2.len() == 33);
                        assert(bytes@.subrange(pos + 17, pos + 17 + 16) =~= spec_ss_block(t2->SmallSmallLangStringLiteral_language)) by {
                            assert forall|ii: int| 0 <= ii < 16 implies bytes@.subrange(pos + 17, pos + 17 + 16)[ii] == spec_ss_block(t2->SmallSmallLangStringLiteral_language)[ii] by {
                                assert(enc2[17 + ii] == spec_ss_block(t2->SmallSmallLangStringLiteral_language)[ii]);
                                assert(bytes@.subrange(pos as int, pos + 33)[17 + ii] == bytes@[pos + 17 + ii]);
                            }
                        }
                    }
                }
                return Err(StorageError::Corruption("malformed inline string".to_owned()));
            },
        };
        let t = EncodedTerm::SmallSmallLangStringLiteral { value: v0, language: v1 };
        let end = pos + 33;
        proof {
            assert(spec_encode_term(t) =~= bytes@.subrange(pos as int, pos + 33));
            assert(decodes_to(bytes@, pos as int, t));
            assert forall|t2: EncodedTerm| decodes_to(bytes@, pos as int, t2) implies t2 == t by {
                lemma_term_tag(t2);
                assert(spec_encode_term(t2)[0] == bytes@[pos as int]);
                assert(t2 is SmallSmallLangStringLiteral);
                let enc2 = spec_encode_term(t2);
                assert(enc2.len() == 33);
                assert(bytes@.subrange(pos + 1, pos + 1 + 16) =~= spec_ss_block(t2->SmallSmallLangStringLiteral_value)) by {
                    assert forall|ii: int| 0 <= ii < 16 implies bytes@.subrange(pos + 1, pos + 1 + 16)[ii] == spec_ss_block(t2->SmallSmallLangStringLiteral_value)[ii] by {
                        assert(enc2[1 + ii] == spec_ss_block(t2->SmallSmallLangStringLiteral_value)[ii]);
                        assert(bytes@.subrange(pos as int, pos + 33)[1 + ii] == bytes@[pos + 1 + ii]);
                    }
                }
                assert(v0 == t2->SmallSmallLangStringLiteral_value);
                assert(bytes@.subrange(pos + 17, pos + 17 + 16) =~= spec_ss_block(t2->SmallSmallLangStringLiteral_language)) by {
                    assert forall|ii: int| 0 <= ii < 16 implies bytes@.subrange(pos + 17, pos + 17 + 16)[ii] == spec_ss_block(t2->SmallSmallLangStringLiteral_language)[ii] by {
                        assert(enc2[17 + ii] == spec_ss_block(t2->SmallSmallLangStringLiteral_language)[ii]);
                        assert(bytes@.subrange(pos as int, pos + 33)[17 + ii] == bytes@[pos + 17 + ii]);
                    }
                }
                assert(v1 == t2->SmallSmallLangStringLiteral_language);
            }
        }
        Ok((t, end))
    } else if tag == TYPE_SMALL_BIG_LANG_STRING_LITERAL_ID {
        if blen - pos < 33 {
            proof {
                assert forall|t2: EncodedTerm| decodes_to(bytes@, pos as int, t2) implies false by {
                    lemma_term_tag(t2);
                    assert(spec_encode_term(t2)[0] == bytes@[pos as int]);
                    assert(t2 is SmallBigLangStringLiteral);
                    assert(spec_encode_term(t2).len() == 33);
                }
            }
            return Err(StorageError::Corruption("truncated term encoding".to_owned()));
        }
        let v0 = match read_small_string(bytes, pos + 1) {
            Some(s) => s,
            None => {
                proof {
                    assert forall|t2: EncodedTerm| decodes_to(bytes@, pos as int, t2) implies false by {
                        lemma_term_tag(t2);
                        assert(spec_encode_term(t2)[0] == bytes@[pos as int]);
                        assert(t2 is SmallBigLangStringLiteral);
                        let enc2 = spec_encode_term(t2);
                        assert(enc2.len() == 33);
                        assert(bytes@.subrange(pos + 1, pos + 1 + 16) =~= spec_ss_block(t2->SmallBigLangStringLiteral_value)) by {
                            assert forall|ii: int| 0 <= ii < 16 implies bytes@.subrange(pos + 1, pos + 1 + 16)[ii] == spec_ss_block(t2->SmallBigLangStringLiteral_value)[ii] by {
                                assert(enc2[1 + ii] == spec_ss_block(t2->SmallBigLangStringLiteral_value)[ii]);
                                assert(bytes@.subrange(pos as int, pos + 33)[1 + ii] == bytes@[pos + 1 + ii]);
                            }
                        }
                    }
                }
                return Err(StorageError::Corruption("malformed inline string".to_owned()));
            },
        };
        let v1 = read_u128_be(bytes, pos + 17);
        let t = EncodedTerm::SmallBigLangStringLiteral { value: v0, language_id: StrHash { hash: v1 } };
        let end = pos + 33;
        proof {
            assert(spec_encode_term(t) =~= bytes@.subrange(pos as int, pos + 33));
            assert(decodes_to(bytes@, pos as int, t));
            assert forall|t2: EncodedTerm| decodes_to(bytes@, pos as int, t2) implies t2 == t by {
                lemma_term_tag(t2);
                assert(spec_encode_term(t2)[0] == bytes@[pos as int]);
                assert(t2 is SmallBigLangStringLiteral);
                let enc2 = spec_encode_term(t2);
                assert(enc2.len() == 33);
                assert(bytes@.subrange(pos + 1, pos + 1 + 16) =~= spec_ss_block(t2->SmallBigLangStringLiteral_value)) by {
                    assert forall|ii: int| 0 <= ii < 16 implies bytes@.subrange(pos + 1, pos + 1 + 16)[ii] == spec_ss_block(t2->SmallBigLangStringLiteral_value)[ii] by {
                        assert(enc2[1 + ii] == spec_ss_block(t2->SmallBigLangStringLiteral_value)[ii]);
                        assert(bytes@.subrange(pos as int, pos + 33)[1 + ii] == bytes@[pos + 1 + ii]);
                    }
                }
                assert(v0 == t2->SmallBigLangStringLiteral_value);
                assert forall|ii: int| 0 <= ii < 16 implies be_byte_u128(t2->SmallBigLangStringLiteral_language_id.hash, ii) == be_byte_u128(v1, ii) by {
                    assert(enc2[17 + ii] == be_byte_u128(t2->SmallBigLangStringLiteral_language_id.hash, ii));
                    assert(bytes@.subrange(pos as int, pos + 33)[17 + ii] == bytes@[pos + 17 + ii]);
                }
                lemma_eq_from_bytes_u128(t2->SmallBigLangStringLiteral_language_id.hash, v1);
            }
        }
        Ok((t, end))
    } else if tag == TYPE_BIG_SMALL_LANG_STRING_LITERAL_ID {
        if blen - pos < 33 {
            proof {
                assert forall|t2: EncodedTerm| decodes_to(bytes@, pos as int, t2) implies false by {
                    lemma_term_tag(t2);
                    assert(spec_encode_term(t2)[0] == bytes@[pos as int]);
                    assert(t2 is BigSmallLangStringLiteral);
                    assert(spec_encode_term(t2).len() == 33);
                }
            }
            return Err(StorageError::Corruption("truncated term encoding".to_owned()));
        }
        let v0 = read_u128_be(bytes, pos + 1);
        let v1 = match read_small_string(bytes, pos + 17) {
            Some(s) => s,
            None => {
                proof {
                    assert forall|t2: EncodedTerm| decodes_to(bytes@, pos as int, t2) implies false by {
                        lemma_term_tag(t2);
                        assert(spec_encode_term(t2)[0] == bytes@[pos as int]);
                        assert(t2 is BigSmallLangStringLiteral);
                        let enc2 = spec_encode_term(t2);
                        assert(enc2.len() == 33);
                        assert(bytes@.subrange(pos + 17, pos + 17 + 16) =~= spec_ss_block(t2->BigSmallLangStringLiteral_language)) by {
                            assert forall|ii: int| 0 <= ii < 16 implies bytes@.subrange(pos + 17, pos + 17 + 16)[ii] == spec_ss_block(t2->BigSmallLangStringLiteral_language)[ii] by {
                                assert(enc2[17 + ii] == spec_ss_block(t2->BigSmallLangStringLiteral_language)[ii]);
                                assert(bytes@.subrange(pos as int, pos + 33)[17 + ii] == bytes@[pos + 17 + ii]);
                            }
                        }
                    }
                }
                return Err(StorageError::Corruption("malformed inline string".to_owned()));
            },
        };
        let t = EncodedTerm::BigSmallLangStringLiteral { value_id: StrHash { hash: v0 }, language: v1 };
        let end = pos + 33;
        proof {
            assert(spec_encode_term(t) =~= bytes@.subrange(pos as int, pos + 33));
            assert(decodes_to(bytes@, pos as int, t));
            assert forall|t2: EncodedTerm| decodes_to(bytes@, pos as int, t2) implies t2 == t by {
                lemma_term_tag(t2);
                assert(spec_encode_term(t2)[0] == bytes@[pos as int]);
                assert(t2 is BigSmallLangStringLiteral);
                let enc2 = spec_encode_term(t2);
                assert(enc2.len() == 33);
                assert forall|ii: int| 0 <= ii < 16 implies be_byte_u128(t2->BigSmallLangStringLiteral_value_id.hash, ii) == be_byte_u128(v0, ii) by {
                    assert(enc2[1 + ii] == be_byte_u128(t2->BigSmallLangStringLiteral_value_id.hash, ii));
                    assert(bytes@.subrange(pos as int, pos + 33)[1 + ii] == bytes@[pos + 1 + ii]);
                }
                lemma_eq_from_bytes_u128(t2->BigSmallLangStringLiteral_value_id.hash, v0);
                assert(bytes@.subrange(pos + 17, pos + 17 + 16) =~= spec_ss_block(t2->BigSmallLangStringLiteral_language)) by {
                    assert forall|ii: int| 0 <= ii < 16 implies bytes@.subrange(pos + 17, pos + 17 + 16)[ii] == spec_ss_block(t2->BigSmallLangStringLiteral_language)[ii] by {
                        assert(enc2[17 + ii] == spec_ss_block(t2->BigSmallLangStringLiteral_language)[ii]);
                        assert(bytes@.subrange(pos as int, pos + 33)[17 + ii] == bytes@[pos + 17 + ii]);
                    }
                }
                assert(v1 == t2->BigSmallLangStringLiteral_language);
            }
        }
        Ok((t, end))
    } else if tag == TYPE_BIG_BIG_LANG_STRING_LITERAL_ID {
        if blen - pos < 33 {
            proof {
                assert forall|t2: EncodedTerm| decodes_to(bytes@, pos as int, t2) implies false by {
                    lemma_term_tag(t2);
                    assert(spec_encode_term(t2)[0] == bytes@[pos as int]);
                    assert(t2 is BigBigLangStringLiteral);
                    assert(spec_encode_term(t2).len() == 33);
                }
            }
            return Err(StorageError::Corruption("truncated term encoding".to_owned()));
        }
        let v0 = read_u128_be(bytes, pos + 1);
        let v1 = read_u128_be(bytes, pos + 17);
        let t = EncodedTerm::BigBigLangStringLiteral { value_id: StrHash { hash: v0 }, language_id: StrHash { hash: v1 } };
        let end = pos + 33;
        proof {
            assert(spec_encode_term(t) =~= bytes@.subrange(pos as int, pos + 33));
            assert(decodes_to(bytes@, pos as int, t));
            assert forall|t2: EncodedTerm| decodes_to(bytes@, pos as int, t2) implies t2 == t by {
                lemma_term_tag(t2);
                assert(spec_encode_term(t2)[0] == bytes@[pos as int]);
                assert(t2 is BigBigLangStringLiteral);
                let enc2 = spec_encode_term(t2);
                assert(enc2.len() == 33);
                assert forall|ii: int| 0 <= ii < 16 implies be_byte_u128(t2->BigBigLangStringLiteral_value_id.hash, ii) == be_byte_u128(v0, ii) by {
                    assert(enc2[1 + ii] == be_byte_u128(t2->BigBigLangStringLiteral_value_id.hash, ii));
                    assert(bytes@.subrange(pos as int, pos + 33)[1 + ii] == bytes@[pos + 1 + ii]);
                }
                lemma_eq_from_bytes_u128(t2->BigBigLangStringLiteral_value_id.hash, v0);
                assert forall|ii: int| 0 <= ii < 16 implies be_byte_u128(t2->BigBigLangStringLiteral_language_id.hash, ii) == be_byte_u128(v1, ii) by {
                    assert(enc2[17 + ii] == be_byte_u128(t2->BigBigLangStringLiteral_language_id.hash, ii));
                    assert(bytes@.subrange(pos as int, pos + 33)[17 + ii] == bytes@[pos + 17 + ii]);
                }
                lemma_eq_from_bytes_u128(t2->BigBigLangStringLiteral_language_id.hash, v1);
            }
        }
        Ok((t, end))
    } else if tag == TYPE_SMALL_TYPED_LITERAL_ID {
        if blen - pos < 33 {
            proof {
                assert forall|t2: EncodedTerm| decodes_to(bytes@, pos as int, t2) implies false by {
                    lemma_term_tag(t2);
                    assert(spec_encode_term(t2)[0] == bytes@[pos as int]);
                    assert(t2 is SmallTypedLiteral);
                    assert(spec_encode_term(t2).len() == 33);
                }
            }
            return Err(StorageError::Corruption("truncated term encoding".to_owned()));
        }
        let v0 = match read_small_string(bytes, pos + 1) {
            Some(s) => s,
            None => {
                proof {
                    assert forall|t2: EncodedTerm| decodes_to(bytes@, pos as int, t2) implies false by {
                        lemma_term_tag(t2);
                        assert(spec_encode_term(t2)[0] == bytes@[pos as int]);
                        assert(t2 is SmallTypedLiteral);
                        let enc2 = spec_encode_term(t2);
                        assert(enc2.len() == 33);
                        assert(bytes@.subrange(pos + 1, pos + 1 + 16) =~= spec_ss_block(t2->SmallTypedLiteral_value)) by {
                            assert forall|ii: int| 0 <= ii < 16 implies bytes@.subrange(pos + 1, pos + 1 + 16)[ii] == spec_ss_block(t2->SmallTypedLiteral_value)[ii] by {
                                assert(enc2[1 + ii] == spec_ss_block(t2->SmallTypedLiteral_value)[ii]);
                                assert(bytes@.subrange(pos as int, pos + 33)[1 + ii] == bytes@[pos + 1 + ii]);
                            }
                        }
                    }
                }
                return Err(StorageError::Corruption("malformed inline string".to_owned()));
            },
        };
        let v1 = read_u128_be(bytes, pos + 17);
        let t = EncodedTerm::SmallTypedLiteral { value: v0, datatype_id: StrHash { hash: v1 } };
        let end = pos + 33;
        proof {
            assert(spec_encode_term(t) =~= bytes@.subrange(pos as int, pos + 33));
            assert(decodes_to(bytes@, pos as int, t));
            assert forall|t2: EncodedTerm| decodes_to(bytes@, pos as int, t2) implies t2 == t by {
                lemma_term_tag(t2);
                assert(spec_encode_term(t2)[0] == bytes@[pos as int]);
                assert(t2 is SmallTypedLiteral);
                let enc2 = spec_encode_term(t2);
                assert(enc2.len() == 33);
                assert(bytes@.subrange(pos + 1, pos + 1 + 16) =~= spec_ss_block(t2->SmallTypedLiteral_value)) by {
                    assert forall|ii: int| 0 <= ii < 16 implies bytes@.subrange(pos + 1, pos + 1 + 16)[ii] == spec_ss_block(t2->SmallTypedLiteral_value)[ii] by {
                        assert(enc2[1 + ii] == spec_ss_block(t2->SmallTypedLiteral_value)[ii]);
                        assert(bytes@.subrange(pos as int, pos + 33)[1 + ii] == bytes@[pos + 1 + ii]);
                    }
                }
                assert(v0 == t2->SmallTypedLiteral_value);
                assert forall|ii: int| 0 <= ii < 16 implies be_byte_u128(t2->SmallTypedLiteral_datatype_id.hash, ii) == be_byte_u128(v1, ii) by {
                    assert(enc2[17 + ii] == be_byte_u128(t2->SmallTypedLiteral_datatype_id.hash, ii));
                    assert(bytes@.subrange(pos as int, pos + 33)[17 + ii] == bytes@[pos + 17 + ii]);
                }
                lemma_eq_from_bytes_u128(t2->SmallTypedLiteral_datatype_id.hash, v1);
            }
        }
        Ok((t, end))
    } else if tag == TYPE_BIG_TYPED_LITERAL_ID {
        if blen - pos < 33 {
            proof {
                assert forall|t2: EncodedTerm| decodes_to(bytes@, pos as int, t2) implies false by {
                    lemma_term_tag(t2);
                    assert(spec_encode_term(t2)[0] == bytes@[pos as int]);
                    assert(t2 is BigTypedLiteral);
                    assert(spec_encode_term(t2).len() == 33);
                }
            }
            return Err(StorageError::Corruption("truncated term encoding".to_owned()));
        }
        let v0 = read_u128_be(bytes, pos + 1);
        let v1 = read_u128_be(bytes, pos + 17);
        let t = EncodedTerm::BigTypedLiteral { value_id: StrHash { hash: v0 }, datatype_id: StrHash { hash: v1 } };
        let end = pos + 33;
        proof {
            assert(spec_encode_term(t) =~= bytes@.subrange(pos as int, pos + 33));
            assert(decodes_to(bytes@, pos as int, t));
            assert forall|t2: EncodedTerm| decodes_to(bytes@, pos as int, t2) implies t2 == t by {
                lemma_term_tag(t2);
                assert(spec_encode_term(t2)[0] == bytes@[pos as int]);
                assert(t2 is BigTypedLiteral);
                let enc2 = spec_encode_term(t2);
                assert(enc2.len() == 33);
                assert forall|ii: int| 0 <= ii < 16 implies be_byte_u128(t2->BigTypedLiteral_value_id.hash, ii) == be_byte_u128(v0, ii) by {
                    assert(enc2[1 + ii] == be_byte_u128(t2->BigTypedLiteral_value_id.hash, ii));
                    assert(bytes@.subrange(pos as int, pos + 33)[1 + ii] == bytes@[pos + 1 + ii]);
                }
                lemma_eq_from_bytes_u128(t2->BigTypedLiteral_value_id.hash, v0);
                assert forall|ii: int| 0 <= ii < 16 implies be_byte_u128(t2->BigTypedLiteral_datatype_id.hash, ii) == be_byte_u128(v1, ii) by {
                    assert(enc2[17 + ii] == be_byte_u128(t2->BigTypedLiteral_datatype_id.hash, ii));
                    assert(bytes@.subrange(pos as int, pos + 33)[17 + ii] == bytes@[pos + 17 + ii]);
                }
                lemma_eq_from_bytes_u128(t2->BigTypedLiteral_datatype_id.hash, v1);
            }
        }
        Ok((t, end))
    } else if tag == TYPE_BOOLEAN_LITERAL_ID {
        if blen - pos < 2 {
            proof {
                assert forall|t2: EncodedTerm| decodes_to(bytes@, pos as int, t2) implies false by {
                    lemma_term_tag(t2);
                    assert(spec_encode_term(t2)[0] == bytes@[pos as int]);
                    assert(t2 is BooleanLiteral);
                    assert(spec_encode_term(t2).len() == 2);
                }
            }
            return Err(StorageError::Corruption("truncated term encoding".to_owned()));
        }
        let b0 = bytes[pos + 1];
        if b0 > 1 {
            proof {
                assert forall|t2: EncodedTerm| decodes_to(bytes@, pos as int, t2) implies false by {
                    lemma_term_tag(t2);
                    assert(spec_encode_term(t2)[0] == bytes@[pos as int]);
                    assert(t2 is BooleanLiteral);
                    let enc2 = spec_encode_term(t2);
                    assert(enc2[1] == (if t2->BooleanLiteral_value { 1u8 } else { 0u8 }));
                    assert(bytes@.subrange(pos as int, pos + 2)[1] == bytes@[pos + 1]);
                }
            }
            return Err(StorageError::Corruption("malformed boolean literal".to_owned()));
        }
        let v0 = b0 == 1;
        let t = EncodedTerm::BooleanLiteral { value: v0 };
        let end = pos + 2;
        proof {
            assert(spec_encode_term(t) =~= bytes@.subrange(pos as int, pos + 2));
            assert(decodes_to(bytes@, pos as int, t));
            assert forall|t2: EncodedTerm| decodes_to(bytes@, pos as int, t2) implies t2 == t by {
                lemma_term_tag(t2);
                assert(spec_encode_term(t2)[0] == bytes@[pos as int]);
                assert(t2 is BooleanLiteral);
                let enc2 = spec_encode_term(t2);
                assert(enc2.len() == 2);
                assert(enc2[1] == (if t2->BooleanLiteral_value { 1u8 } else { 0u8 }));
                assert(bytes@.subrange(pos as int, pos + 2)[1] == bytes@[pos + 1]);
                assert(t2->BooleanLiteral_value == v0);
            }
        }
        Ok((t, end))
    } else if tag == TYPE_FLOAT_LITERAL_ID {
        if blen - pos < 5 {
            proof {
                assert forall|t2: EncodedTerm| decodes_to(bytes@, pos as int, t2) implies false by {
                    lemma_term_tag(t2);
                    assert(spec_encode_term(t2)[0] == bytes@[pos as int]);
                    assert(t2 is FloatLiteral);
                    assert(spec_encode_term(t2).len() == 5);
                }
            }
            return Err(StorageError::Corruption("truncated term encoding".to_owned()));
        }
        let v0 = read_u32_be(bytes, pos + 1);
        let t = EncodedTerm::FloatLiteral { bits: v0 };
        let end = pos + 5;
        proof {
            assert(spec_encode_term(t) =~= bytes@.subrange(pos as int, pos + 5));
            assert(decodes_to(bytes@, pos as int, t));
            assert forall|t2: EncodedTerm| decodes_to(bytes@, pos as int, t2) implies t2 == t by {
                lemma_term_tag(t2);
                assert(spec_encode_term(t2)[0] == bytes@[pos as int]);
                assert(t2 is FloatLiteral);
                let enc2 = spec_encode_term(t2);
                assert(enc2.len() == 5);
                assert forall|ii: int| 0 <= ii < 4 implies be_byte_u32(t2->FloatLiteral_bits, ii) == be_byte_u32(v0, ii) by {
                    assert(enc2[1 + ii] == be_byte_u32(t2->FloatLiteral_bits, ii));
                    assert(bytes@.subrange(pos as int, pos + 5)[1 + ii] == bytes@[pos + 1 + ii]);
                }
                lemma_eq_from_bytes_u32(t2->FloatLiteral_bits, v0);
            }
        }
        Ok((t, end))
    } else if tag == TYPE_DOUBLE_LITERAL_ID {
        if blen - pos < 9 {
            proof {
                assert forall|t2: EncodedTerm| decodes_to(bytes@, pos as int, t2) implies false by {
                    lemma_term_tag(t2);
                    assert(spec_encode_term(t2)[0] == bytes@[pos as int]);
                    assert(t2 is DoubleLiteral);
                    assert(spec_encode_term(t2).len() == 9);
                }
            }
            return Err(StorageError::Corruption("truncated term encoding".to_owned()));
        }
        let v0 = read_u64_be(bytes, pos + 1);
        let t = EncodedTerm::DoubleLiteral { bits: v0 };
        let end = pos + 9;
        proof {
            assert(spec_encode_term(t) =~= bytes@.subrange(pos as int, pos + 9));
            assert(decodes_to(bytes@, pos as int, t));
            assert forall|t2: EncodedTerm| decodes_to(bytes@, pos as int, t2) implies t2 == t by {
                lemma_term_tag(t2);
                assert(spec_encode_term(t2)[0] == bytes@[pos as int]);
                assert(t2 is DoubleLiteral);
                let enc2 = spec_encode_term(t2);
                assert(enc2.len() == 9);
                assert forall|ii: int| 0 <= ii < 8 implies be_byte_u64(t2->DoubleLiteral_bits, ii) == be_byte_u64(v0, ii) by {
                    assert(enc2[1 + ii] == be_byte_u64(t2->DoubleLiteral_bits, ii));
                    assert(bytes@.subrange(pos as int, pos + 9)[1 + ii] == bytes@[pos + 1 + ii]);
                }
                lemma_eq_from_bytes_u64(t2->DoubleLiteral_bits, v0);
            }
        }
        Ok((t, end))
    } else if tag == TYPE_INTEGER_LITERAL_ID {
        if blen - pos < 9 {
            proof {
                assert forall|t2: EncodedTerm| decodes_to(bytes@, pos as int, t2) implies false by {
                    lemma_term_tag(t2);
                    assert(spec_encode_term(t2)[0] == bytes@[pos as int]);
                    assert(t2 is IntegerLiteral);
                    assert(spec_encode_term(t2).len() == 9);
                }
            }
            return Err(StorageError::Corruption("truncated term encoding".to_owned()));
        }
        let v0u = read_u64_be(bytes, pos + 1);
        let v0 = #[verifier::truncate] (v0u as i64);
        let t = EncodedTerm::IntegerLiteral { value: v0 };
        let end = pos + 9;
        proof {
            lemma_cast_u64_i64(v0u);
            assert(spec_encode_term(t) =~= bytes@.subrange(pos as int, pos + 9));
            assert(decodes_to(bytes@, pos as int, t));
            assert forall|t2: EncodedTerm| decodes_to(bytes@, pos as int, t2) implies t2 == t by {
                lemma_term_tag(t2);
                assert(spec_encode_term(t2)[0] == bytes@[pos as int]);
                assert(t2 is IntegerLiteral);
                let enc2 = spec_encode_term(t2);
                assert(enc2.len() == 9);
                assert forall|ii: int| 0 <= ii < 8 implies be_byte_u64((t2->IntegerLiteral_value as u64), ii) == be_byte_u64(v0u, ii) by {
                    assert(enc2[1 + ii] == be_byte_u64((t2->IntegerLiteral_value as u64), ii));
                    assert(bytes@.subrange(pos as int, pos + 9)[1 + ii] == bytes@[pos + 1 + ii]);
                }
                lemma_eq_from_bytes_u64((t2->IntegerLiteral_value as u64), v0u);
                lemma_cast_i64_u64(t2->IntegerLiteral_value);
            }
        }
        Ok((t, end))
    } else if tag == TYPE_DECIMAL_LITERAL_ID {
        if blen - pos < 17 {
            proof {
                assert forall|t2: EncodedTerm| decodes_to(bytes@, pos as int, t2) implies false by {
                    lemma_term_tag(t2);
                    assert(spec_encode_term(t2)[0] == bytes@[pos as int]);
                    assert(t2 is DecimalLiteral);
                    assert(spec_encode_term(t2).len() == 17);
                }
            }
            return Err(StorageError::Corruption("truncated term encoding".to_owned()));
        }
        let v0u = read_u128_be(bytes, pos + 1);
        let v0 = #[verifier::truncate] (v0u as i128);
        let t = EncodedTerm::DecimalLiteral { value: v0 };
        let end = pos + 17;
        proof {
            lemma_cast_u128_i128(v0u);
            assert(spec_encode_term(t) =~= bytes@.subrange(pos as int, pos + 17));
            assert(decodes_to(bytes@, pos as int, t));
            assert forall|t2: EncodedTerm| decodes_to(bytes@, pos as int, t2) implies t2 == t by {
                lemma_term_tag(t2);
                assert(spec_encode_term(t2)[0] == bytes@[pos as int]);
                assert(t2 is DecimalLiteral);
                let enc2 = spec_encode_term(t2);
                assert(enc2.len() == 17);
                assert forall|ii: int| 0 <= ii < 16 implies be_byte_u128((t2->DecimalLiteral_value as u128), ii) == be_byte_u128(v0u, ii) by {
                    assert(enc2[1 + ii] == be_byte_u128((t2->DecimalLiteral_value as u128), ii));
                    assert(bytes@.subrange(pos as int, pos + 17)[1 + ii] == bytes@[pos + 1 + ii]);
                }
                lemma_eq_from_bytes_u128((t2->DecimalLiteral_value as u128), v0u);
                lemma_cast_i128_u128(t2->DecimalLiteral_value);
            }
        }
        Ok((t, end))
    } else if tag == TYPE_DATE_TIME_LITERAL_ID {
        if blen - pos < 11 {
            proof {
                assert forall|t2: EncodedTerm| decodes_to(bytes@, pos as int, t2) implies false by {
                    lemma_term_tag(t2);
                    assert(spec_encode_term(t2)[0] == bytes@[pos as int]);
                    assert(t2 is DateTimeLiteral);
                    assert(spec_encode_term(t2).len() == 11);
                }
            }
            return Err(StorageError::Corruption("truncated term encoding".to_owned()));
        }
        let v0u = read_u64_be(bytes, pos + 1);
        let v0 = #[verifier::truncate] (v0u as i64);
        let v1u = read_u16_be(bytes, pos + 9);
        let v1 = #[verifier::truncate] (v1u as i16);
        let t = EncodedTerm::DateTimeLiteral { seconds: v0, offset_minutes: v1 };
        let end = pos + 11;
        proof {
            lemma_cast_u64_i64(v0u);
            lemma_cast_u16_i16(v1u);
            assert(spec_encode_term(t) =~= bytes@.subrange(pos as int, pos + 11));
            assert(decodes_to(bytes@, pos as int, t));
            assert forall|t2: EncodedTerm| decodes_to(bytes@, pos as int, t2) implies t2 == t by {
                lemma_term_tag(t2);
                assert(spec_encode_term(t2)[0] == bytes@[pos as int]);
                assert(t2 is DateTimeLiteral);
                let enc2 = spec_encode_term(t2);
                assert(enc2.len() == 11);
                assert forall|ii: int| 0 <= ii < 8 implies be_byte_u64((t2->DateTimeLiteral_seconds as u64), ii) == be_byte_u64(v0u, ii) by {
                    assert(enc2[1 + ii] == be_byte_u64((t2->DateTimeLiteral_seconds as u64), ii));
                    assert(bytes@.subrange(pos as int, pos + 11)[1 + ii] == bytes@[pos + 1 + ii]);
                }
                lemma_eq_from_bytes_u64((t2->DateTimeLiteral_seconds as u64), v0u);
                lemma_cast_i64_u64(t2->DateTimeLiteral_seconds);
                assert forall|ii: int| 0 <= ii < 2 implies be_byte_u16((t2->DateTimeLiteral_offset_minutes as u16), ii) == be_byte_u16(v1u, ii) by {
                    assert(enc2[9 + ii] == be_byte_u16((t2->DateTimeLiteral_offset_minutes as u16), ii));
                    assert(bytes@.subrange(pos as int, pos + 11)[9 + ii] == bytes@[pos + 9 + ii]);
                }
                lemma_eq_from_bytes_u16((t2->DateTimeLiteral_offset_minutes as u16), v1u);
                lemma_cast_i16_u16(t2->DateTimeLiteral_offset_minutes);
            }
        }
        Ok((t, end))
    } else if tag == TYPE_DATE_LITERAL_ID {
        if blen - pos < 11 {
            proof {
                assert forall|t2: EncodedTerm| decodes_to(bytes@, pos as int, t2) implies false by {
                    lemma_term_tag(t2);
                    assert(spec_encode_term(t2)[0] == bytes@[pos as int]);
                    assert(t2 is DateLiteral);
                    assert(spec_encode_term(t2).len() == 11);
                }
            }
            return Err(StorageError::Corruption("truncated term encoding".to_owned()));
        }
        let v0u = read_u64_be(bytes, pos + 1);
        let v0 = #[verifier::truncate] (v0u as i64);
        let v1u = read_u16_be(bytes, pos + 9);
        let v1 = #[verifier::truncate] (v1u as i16);
        let t = EncodedTerm::DateLiteral { seconds: v0, offset_minutes: v1 };
        let end = pos + 11;
        proof {
            lemma_cast_u64_i64(v0u);
            lemma_cast_u16_i16(v1u);
            assert(spec_encode_term(t) =~= bytes@.subrange(pos as int, pos + 11));
            assert(decodes_to(bytes@, pos as int, t));
            assert forall|t2: EncodedTerm| decodes_to(bytes@, pos as int, t2) implies t2 == t by {
                lemma_term_tag(t2);
                assert(spec_encode_term(t2)[0] == bytes@[pos as int]);
                assert(t2 is DateLiteral);
                let enc2 = spec_encode_term(t2);
                assert(enc2.len() == 11);
                assert forall|ii: int| 0 <= ii < 8 implies be_byte_u64((t2->DateLiteral_seconds as u64), ii) == be_byte_u64(v0u, ii) by {
                    assert(enc2[1 + ii] == be_byte_u64((t2->DateLiteral_seconds as u64), ii));
                    assert(bytes@.subrange(pos as int, pos + 11)[1 + ii] == bytes@[pos + 1 + ii]);
                }
                lemma_eq_from_bytes_u64((t2->DateLiteral_seconds as u64), v0u);
                lemma_cast_i64_u64(t2->DateLiteral_seconds);
                assert forall|ii: int| 0 <= ii < 2 implies be_byte_u16((t2->DateLiteral_offset_minutes as u16), ii) == be_byte_u16(v1u, ii) by {
                    assert(enc2[9 + ii] == be_byte_u16((t2->DateLiteral_offset_minutes as u16), ii));
                    assert(bytes@.subrange(pos as int, pos + 11)[9 + ii] == bytes@[pos + 9 + ii]);
                }
                lemma_eq_from_bytes_u16((t2->DateLiteral_offset_minutes as u16), v1u);
                lemma_cast_i16_u16(t2->DateLiteral_offset_minutes);
            }
        }
        Ok((t, end))
    } else if tag == TYPE_TIME_LITERAL_ID {
        if blen - pos < 11 {
            proof {
                assert forall|t2: EncodedTerm| decodes_to(bytes@, pos as int, t2) implies false by {
                    lemma_term_tag(t2);
                    assert(spec_encode_term(t2)[0] == bytes@[pos as int]);
                    assert(t2 is TimeLiteral);
                    assert(spec_encode_term(t2).len() == 11);
                }
            }
            return Err(StorageError::Corruption("truncated term encoding".to_owned()));
        }
        let v0u = read_u64_be(bytes, pos + 1);
        let v0 = #[verifier::truncate] (v0u as i64);
        let v1u = read_u16_be(bytes, pos + 9);
        let v1 = #[verifier::truncate] (v1u as i16);
        let t = EncodedTerm::TimeLiteral { seconds: v0, offset_minutes: v1 };
        let end = pos + 11;
        proof {
            lemma_cast_u64_i64(v0u);
            lemma_cast_u16_i16(v1u);
            assert(spec_encode_term(t) =~= bytes@.subrange(pos as int, pos + 11));
            assert(decodes_to(bytes@, pos as int, t));
            assert forall|t2: EncodedTerm| decodes_to(bytes@, pos as int, t2) implies t2 == t by {
                lemma_term_tag(t2);
                assert(spec_encode_term(t2)[0] == bytes@[pos as int]);
                assert(t2 is TimeLiteral);
                let enc2 = spec_encode_term(t2);
                assert(enc2.len() == 11);
                assert forall|ii: int| 0 <= ii < 8 implies be_byte_u64((t2->TimeLiteral_seconds as u64), ii) == be_byte_u64(v0u, ii) by {
                    assert(enc2[1 + ii] == be_byte_u64((t2->TimeLiteral_seconds as u64), ii));
                    assert(bytes@.subrange(pos as int, pos + 11)[1 + ii] == bytes@[pos + 1 + ii]);
                }
                lemma_eq_from_bytes_u64((t2->TimeLiteral_seconds as u64), v0u);
                lemma_cast_i64_u64(t2->TimeLiteral_seconds);
                assert forall|ii: int| 0 <= ii < 2 implies be_byte_u16((t2->TimeLiteral_offset_minutes as u16), ii) == be_byte_u16(v1u, ii) by {
                    assert(enc2[9 + ii] == be_byte_u16((t2->TimeLiteral_offset_minutes as u16), ii));
                    assert(bytes@.subrange(pos as int, pos + 11)[9 + ii] == bytes@[pos + 9 + ii]);
                }
                lemma_eq_from_bytes_u16((t2->TimeLiteral_offset_minutes as u16), v1u);
                lemma_cast_i16_u16(t2->TimeLiteral_offset_minutes);
            }
        }
        Ok((t, end))
    } else {
        proof {
            assert forall|t2: EncodedTerm| decodes_to(bytes@, pos as int, t2) implies false by {
                lemma_term_tag(t2);
                assert(spec_encode_term(t2)[0] == bytes@[pos as int]);
            }
        }
        Err(StorageError::Corruption("unknown term type code".to_owned()))
    }
}

/// Decodes one whole buffer as a single term; trailing bytes are refused.
pub fn decode_term(bytes: &[u8]) -> (r: Result<EncodedTerm, StorageError>)
    ensures
        r matches Ok(t) ==> t.wf() && bytes@ == spec_encode_term(t),
        forall|t: EncodedTerm| t.wf() && bytes@ == #[trigger] spec_encode_term(t) ==> (r matches
            Ok(t2) && t2 == t),
{
    let blen = bytes.len();
    let (t, end) = match decode_term_from(bytes, 0) {
        Ok(p) => p,
        Err(e) => {
            proof {
                assert forall|t2: EncodedTerm|
                    t2.wf() && bytes@ == spec_encode_term(t2) implies false by {
                    assert(bytes@.subrange(0, spec_encode_term(t2).len() as int) =~= spec_encode_term(t2));
                    assert(decodes_to(bytes@, 0, t2));
                }
            }
            return Err(e);
        },
    };
    if end != blen {
        proof {
            assert forall|t2: EncodedTerm|
                t2.wf() && bytes@ == spec_encode_term(t2) implies false by {
                assert(bytes@.subrange(0, spec_encode_term(t2).len() as int) =~= spec_encode_term(t2));
                assert(decodes_to(bytes@, 0, t2));
            }
        }
        return Err(StorageError::Corruption("trailing bytes after term".to_owned()));
    }
    proof {
        assert(bytes@.subrange(0, spec_encode_term(t).len() as int) =~= bytes@);
        assert forall|t2: EncodedTerm| t2.wf() && bytes@ == spec_encode_term(t2) implies t2 == t by {
            assert(bytes@.subrange(0, spec_encode_term(t2).len() as int) =~= spec_encode_term(t2));
            assert(decodes_to(bytes@, 0, t2));
        }
    }
    Ok(t)
}

/// Reads a three-term key in full; trailing bytes are refused.
fn decode_triple_terms(bytes: &[u8]) -> (r: Result<
    (EncodedTerm, EncodedTerm, EncodedTerm),
    StorageError,
>)
    ensures
        r matches Ok(p) ==> p.0.wf() && p.1.wf() && p.2.wf() && bytes@ == spec_encode_term(p.0)
            + spec_encode_term(p.1) + spec_encode_term(p.2),
        forall|a: EncodedTerm, b: EncodedTerm, c: EncodedTerm|
            #![trigger spec_encode_term(a), spec_encode_term(b), spec_encode_term(c)]
            a.wf() && b.wf() && c.wf() && bytes@ == spec_encode_term(a) + spec_encode_term(b)
                + spec_encode_term(c) ==> (r matches Ok(p) && p.0 == a && p.1 == b && p.2 == c),
{
    let blen = bytes.len();
    let ghost valid = |a: EncodedTerm, b: EncodedTerm, c: EncodedTerm|
        a.wf() && b.wf() && c.wf() && bytes@ == spec_encode_term(a) + spec_encode_term(b)
            + spec_encode_term(c);
    proof {
        assert forall|a: EncodedTerm, b: EncodedTerm, c: EncodedTerm|
            #![trigger spec_encode_term(a), spec_encode_term(b), spec_encode_term(c)]
            a.wf() && b.wf() && c.wf() && bytes@ == spec_encode_term(a) + spec_encode_term(b)
                + spec_encode_term(c) implies decodes_to(bytes@, 0, a) by {
            assert(bytes@.subrange(0, spec_encode_term(a).len() as int) =~= spec_encode_term(a));
        }
    }
    let (t1, e1) = match decode_term_from(bytes, 0) {
        Ok(p) => p,
        Err(e) => {
            return Err(e);
        },
    };
    proof {
        assert forall|a: EncodedTerm, b: EncodedTerm, c: EncodedTerm|
            #![trigger spec_encode_term(a), spec_encode_term(b), spec_encode_term(c)]
            a.wf() && b.wf() && c.wf() && bytes@ == spec_encode_term(a) + spec_encode_term(b)
                + spec_encode_term(c) implies a == t1 && decodes_to(bytes@, e1 as int, b) by {
            assert(decodes_to(bytes@, 0, a));
            assert(a == t1);
            assert(bytes@.subrange(e1 as int, e1 + spec_encode_term(b).len()) =~= spec_encode_term(
                b,
            ));
        }
    }
    let (t2, e2) = match decode_term_from(bytes, e1) {
        Ok(p) => p,
        Err(e) => {
            return Err(e);
        },
    };
    proof {
        assert forall|a: EncodedTerm, b: EncodedTerm, c: EncodedTerm|
            #![trigger spec_encode_term(a), spec_encode_term(b), spec_encode_term(c)]
            a.wf() && b.wf() && c.wf() && bytes@ == spec_encode_term(a) + spec_encode_term(b)
                + spec_encode_term(c) implies a == t1 && b == t2 && decodes_to(
            bytes@,
            e2 as int,
            c,
        ) by {
            assert(decodes_to(bytes@, 0, a));
            assert(a == t1);
            assert(decodes_to(bytes@, e1 as int, b));
            assert(b == t2);
            assert(bytes@.subrange(e2 as int, e2 + spec_encode_term(c).len()) =~= spec_encode_term(
                c,
            ));
        }
    }
    let (t3, e3) = match decode_term_from(bytes, e2) {
        Ok(p) => p,
        Err(e) => {
            return Err(e);
        },
    };
    if e3 != blen {
        proof {
            assert forall|a: EncodedTerm, b: EncodedTerm, c: EncodedTerm|
                #![trigger spec_encode_term(a), spec_encode_term(b), spec_encode_term(c)]
                a.wf() && b.wf() && c.wf() && bytes@ == spec_encode_term(a) + spec_encode_term(b)
                    + spec_encode_term(c) implies false by {
                assert(decodes_to(bytes@, e2 as int, c));
                assert(c == t3);
            }
        }
        return Err(StorageError::Corruption("trailing bytes after key".to_owned()));
    }
    proof {
        assert(bytes@ =~= spec_encode_term(t1) + spec_encode_term(t2) + spec_encode_term(t3));
        assert forall|a: EncodedTerm, b: EncodedTerm, c: EncodedTerm|
            #![trigger spec_encode_term(a), spec_encode_term(b), spec_encode_term(c)]
            a.wf() && b.wf() && c.wf() && bytes@ == spec_encode_term(a) + spec_encode_term(b)
                + spec_encode_term(c) implies a == t1 && b == t2 && c == t3 by {
            assert(decodes_to(bytes@, e2 as int, c));
        }
    }
    Ok((t1, t2, t3))
}

/// A byte sequence is exactly four concatenated term encodings.
pub open spec fn splits4(
    bytes: Seq<u8>,
    a: EncodedTerm,
    b: EncodedTerm,
    c: EncodedTerm,
    d: EncodedTerm,
) -> bool {
    &&& a.wf()
    &&& b.wf()
    &&& c.wf()
    &&& d.wf()
    &&& bytes == spec_encode_term(a) + spec_encode_term(b) + spec_encode_term(c)
        + spec_encode_term(d)
}

proof fn lemma_splits4_first(bytes: Seq<u8>, a: EncodedTerm, b: EncodedTerm, c: EncodedTerm, d: EncodedTerm)
    requires
        splits4(bytes, a, b, c, d),
    ensures
        decodes_to(bytes, 0, a),
{
    assert(bytes.subrange(0, spec_encode_term(a).len() as int) =~= spec_encode_term(a));
}

proof fn lemma_splits4_second(
    bytes: Seq<u8>,
    a: EncodedTerm,
    b: EncodedTerm,
    c: EncodedTerm,
    d: EncodedTerm,
    e1: int,
)
    requires
        splits4(bytes, a, b, c, d),
        e1 == spec_encode_term(a).len(),
    ensures
        decodes_to(bytes, e1, b),
{
    assert(bytes.subrange(e1, e1 + spec_encode_term(b).len()) =~= spec_encode_term(b));
}

proof fn lemma_splits4_third(
    bytes: Seq<u8>,
    a: EncodedTerm,
    b: EncodedTerm,
    c: EncodedTerm,
    d: EncodedTerm,
    e2: int,
)
    requires
        splits4(bytes, a, b, c, d),
        e2 == spec_encode_term(a).len() + spec_encode_term(b).len(),
    ensures
        decodes_to(bytes, e2, c),
{
    assert(bytes.subrange(e2, e2 + spec_encode_term(c).len()) =~= spec_encode_term(c));
}

proof fn lemma_splits4_fourth(
    bytes: Seq<u8>,
    a: EncodedTerm,
    b: EncodedTerm,
    c: EncodedTerm,
    d: EncodedTerm,
    e3: int,
)
    requires
        splits4(bytes, a, b, c, d),
        e3 == spec_encode_term(a).len() + spec_encode_term(b).len() + spec_encode_term(c).len(),
    ensures
        decodes_to(bytes, e3, d),
        spec_encode_term(a).len() + spec_encode_term(b).len() + spec_encode_term(c).len()
            + spec_encode_term(d).len() == bytes.len(),
{
    assert(bytes.subrange(e3, e3 + spec_encode_term(d).len()) =~= spec_encode_term(d));
}

/// Reads a four-term key in full; trailing bytes are refused.
fn decode_quad_terms(bytes: &[u8]) -> (r: Result<
    (EncodedTerm, EncodedTerm, EncodedTerm, EncodedTerm),
    StorageError,
>)
    ensures
        r matches Ok(p) ==> p.0.wf() && p.1.wf() && p.2.wf() && p.3.wf() && bytes@
            == spec_encode_term(p.0) + spec_encode_term(p.1) + spec_encode_term(p.2)
            + spec_encode_term(p.3),
        forall|a: EncodedTerm, b: EncodedTerm, c: EncodedTerm, d: EncodedTerm|
            #![trigger spec_encode_term(a), spec_encode_term(b), spec_encode_term(c), spec_encode_term(d)]
            splits4(bytes@, a, b, c, d) ==> (r matches Ok(p) && p.0 == a && p.1 == b && p.2 == c
                && p.3 == d),
{
    let blen = bytes.len();
    let (t1, e1) = match decode_term_from(bytes, 0) {
        Ok(p) => p,
        Err(e) => {
            proof {
                assert forall|a: EncodedTerm, b: EncodedTerm, c: EncodedTerm, d: EncodedTerm|
                    #![trigger spec_encode_term(a), spec_encode_term(b), spec_encode_term(c), spec_encode_term(d)]
                    splits4(bytes@, a, b, c, d) implies false by {
                    lemma_splits4_first(bytes@, a, b, c, d);
                }
            }
            return Err(e);
        },
    };
    let (t2, e2) = match decode_term_from(bytes, e1) {
        Ok(p) => p,
        Err(e) => {
            proof {
                assert forall|a: EncodedTerm, b: EncodedTerm, c: EncodedTerm, d: EncodedTerm|
                    #![trigger spec_encode_term(a), spec_encode_term(b), spec_encode_term(c), spec_encode_term(d)]
                    splits4(bytes@, a, b, c, d) implies false by {
                    lemma_splits4_first(bytes@, a, b, c, d);
                    assert(a == t1);
                    lemma_splits4_second(bytes@, a, b, c, d, e1 as int);
                }
            }
            return Err(e);
        },
    };
    let (t3, e3) = match decode_term_from(bytes, e2) {
        Ok(p) => p,
        Err(e) => {
            proof {
                assert forall|a: EncodedTerm, b: EncodedTerm, c: EncodedTerm, d: EncodedTerm|
                    #![trigger spec_encode_term(a), spec_encode_term(b), spec_encode_term(c), spec_encode_term(d)]
                    splits4(bytes@, a, b, c, d) implies false by {
                    lemma_splits4_first(bytes@, a, b, c, d);
                    assert(a == t1);
                    lemma_splits4_second(bytes@, a, b, c, d, e1 as int);
                    assert(b == t2);
                    lemma_splits4_third(bytes@, a, b, c, d, e2 as int);
                }
            }
            return Err(e);
        },
    };
    let (t4, e4) = match decode_term_from(bytes, e3) {
        Ok(p) => p,
        Err(e) => {
            proof {
                assert forall|a: EncodedTerm, b: EncodedTerm, c: EncodedTerm, d: EncodedTerm|
                    #![trigger spec_encode_term(a), spec_encode_term(b), spec_encode_term(c), spec_encode_term(d)]
                    splits4(bytes@, a, b, c, d) implies false by {
                    lemma_splits4_first(bytes@, a, b, c, d);
                    assert(a == t1);
                    lemma_splits4_second(bytes@, a, b, c, d, e1 as int);
                    assert(b == t2);
                    lemma_splits4_third(bytes@, a, b, c, d, e2 as int);
                    assert(c == t3);
                    lemma_splits4_fourth(bytes@, a, b, c, d, e3 as int);
                }
            }
            return Err(e);
        },
    };
    if e4 != blen {
        proof {
            assert forall|a: EncodedTerm, b: EncodedTerm, c: EncodedTerm, d: EncodedTerm|
                #![trigger spec_encode_term(a), spec_encode_term(b), spec_encode_term(c), spec_encode_term(d)]
                splits4(bytes@, a, b, c, d) implies false by {
                lemma_splits4_first(bytes@, a, b, c, d);
                assert(a == t1);
                lemma_splits4_second(bytes@, a, b, c, d, e1 as int);
                assert(b == t2);
                lemma_splits4_third(bytes@, a, b, c, d, e2 as int);
                assert(c == t3);
                lemma_splits4_fourth(bytes@, a, b, c, d, e3 as int);
                assert(d == t4);
            }
        }
        return Err(StorageError::Corruption("trailing bytes after key".to_owned()));
    }
    proof {
        assert(bytes@ =~= spec_encode_term(t1) + spec_encode_term(t2) + spec_encode_term(t3)
            + spec_encode_term(t4));
        assert forall|a: EncodedTerm, b: EncodedTerm, c: EncodedTerm, d: EncodedTerm|
            #![trigger spec_encode_term(a), spec_encode_term(b), spec_encode_term(c), spec_encode_term(d)]
            splits4(bytes@, a, b, c, d) implies a == t1 && b == t2 && c == t3 && d == t4 by {
            lemma_splits4_first(bytes@, a, b, c, d);
            assert(a == t1);
            lemma_splits4_second(bytes@, a, b, c, d, e1 as int);
            assert(b == t2);
            lemma_splits4_third(bytes@, a, b, c, d, e2 as int);
            assert(c == t3);
            lemma_splits4_fourth(bytes@, a, b, c, d, e3 as int);
            assert(d == t4);
        }
    }
    Ok((t1, t2, t3, t4))
}

/// Which index key ordering a raw key uses.
#[derive(Clone, Copy, PartialEq, Eq, Structural, Debug)]
pub enum QuadEncoding {
    Spog,
    Posg,
    Ospg,
    Gspo,
    Gpos,
    Gosp,
    Dspo,
    Dpos,
    Dosp,
}

/// The key that a quad takes in the index with this ordering.
pub open spec fn spec_quad_key(e: QuadEncoding, q: EncodedQuad) -> Seq<u8> {
    match e {
        QuadEncoding::Spog => spec_spog_key(q),
        QuadEncoding::Posg => spec_posg_key(q),
        QuadEncoding::Ospg => spec_ospg_key(q),
        QuadEncoding::Gspo => spec_gspo_key(q),
        QuadEncoding::Gpos => spec_gpos_key(q),
        QuadEncoding::Gosp => spec_gosp_key(q),
        QuadEncoding::Dspo => spec_spo_key(q),
        QuadEncoding::Dpos => spec_pos_key(q),
        QuadEncoding::Dosp => spec_osp_key(q),
    }
}

/// Default-graph orderings carry the default-graph marker, named-graph
/// orderings a real graph name.
pub open spec fn graph_position_ok(e: QuadEncoding, q: EncodedQuad) -> bool {
    match e {
        QuadEncoding::Dspo | QuadEncoding::Dpos | QuadEncoding::Dosp => q.graph_name
            is DefaultGraph,
        _ => !(q.graph_name is DefaultGraph),
    }
}

impl QuadEncoding {
    /// Decodes one whole index key back into the quad it was written for,
    /// refusing keys that are not the canonical encoding of a well-formed
    /// quad in this ordering.
    #[verifier::rlimit(100)]
    pub fn decode(self, bytes: &[u8]) -> (r: Result<EncodedQuad, StorageError>)
        ensures
            r matches Ok(q) ==> q.wf() && graph_position_ok(self, q) && bytes@ == spec_quad_key(
                self,
                q,
            ),
            forall|q: EncodedQuad|
                q.wf() && graph_position_ok(self, q) && bytes@ == #[trigger] spec_quad_key(self, q)
                    ==> (r matches Ok(q2) && q2 == q),
    {
        match self {
            QuadEncoding::Dspo => {
                let p = match decode_triple_terms(bytes) {
                    Ok(p) => p,
                    Err(e) => {
                        proof {
                            assert forall|q2: EncodedQuad|
                                q2.wf() && graph_position_ok(self, q2) && bytes@ == spec_quad_key(
                                self,
                                q2,
                            ) implies false by {
                                assert(bytes@ == spec_encode_term(q2.subject) + spec_encode_term(
                                    q2.predicate,
                                ) + spec_encode_term(q2.object));
                            }
                        }
                        return Err(e);
                    },
                };
                let q = EncodedQuad { subject: p.0, predicate: p.1, object: p.2, graph_name: EncodedTerm::DefaultGraph };
                if !(q.subject.is_named_or_blank() && q.predicate.is_named_node()
                    && !q.object.is_default_graph()) {
                    proof {
                        assert forall|q2: EncodedQuad|
                            q2.wf() && graph_position_ok(self, q2) && bytes@ == spec_quad_key(
                            self,
                            q2,
                        ) implies false by {
                            assert(bytes@ == spec_encode_term(q2.subject) + spec_encode_term(
                                q2.predicate,
                            ) + spec_encode_term(q2.object));
                        }
                    }
                    return Err(StorageError::Corruption("ill-positioned term in key".to_owned()));
                }
                proof {
                    assert(bytes@ == spec_quad_key(self, q));
                    assert forall|q2: EncodedQuad|
                        q2.wf() && graph_position_ok(self, q2) && bytes@ == spec_quad_key(
                        self,
                        q2,
                    ) implies q2 == q by {
                        assert(bytes@ == spec_encode_term(q2.subject) + spec_encode_term(
                            q2.predicate,
                        ) + spec_encode_term(q2.object));
                    }
                }
                Ok(q)
            },
            QuadEncoding::Dpos => {
                let p = match decode_triple_terms(bytes) {
                    Ok(p) => p,
                    Err(e) => {
                        proof {
                            assert forall|q2: EncodedQuad|
                                q2.wf() && graph_position_ok(self, q2) && bytes@ == spec_quad_key(
                                self,
                                q2,
                            ) implies false by {
                                assert(bytes@ == spec_encode_term(q2.predicate) + spec_encode_term(
                                    q2.object,
                                ) + spec_encode_term(q2.subject));
                            }
                        }
                        return Err(e);
                    },
                };
                let q = EncodedQuad { subject: p.2, predicate: p.0, object: p.1, graph_name: EncodedTerm::DefaultGraph };
                if !(q.subject.is_named_or_blank() && q.predicate.is_named_node()
                    && !q.object.is_default_graph()) {
                    proof {
                        assert forall|q2: EncodedQuad|
                            q2.wf() && graph_position_ok(self, q2) && bytes@ == spec_quad_key(
                            self,
                            q2,
                        ) implies false by {
                            assert(bytes@ == spec_encode_term(q2.predicate) + spec_encode_term(
                                q2.object,
                            ) + spec_encode_term(q2.subject));
                        }
                    }
                    return Err(StorageError::Corruption("ill-positioned term in key".to_owned()));
                }
                proof {
                    assert(bytes@ == spec_quad_key(self, q));
                    assert forall|q2: EncodedQuad|
                        q2.wf() && graph_position_ok(self, q2) && bytes@ == spec_quad_key(
                        self,
                        q2,
                    ) implies q2 == q by {
                        assert(bytes@ == spec_encode_term(q2.predicate) + spec_encode_term(
                            q2.object,
                        ) + spec_encode_term(q2.subject));
                    }
                }
                Ok(q)
            },
            QuadEncoding::Dosp => {
                let p = match decode_triple_terms(bytes) {
                    Ok(p) => p,
                    Err(e) => {
                        proof {
                            assert forall|q2: EncodedQuad|
                                q2.wf() && graph_position_ok(self, q2) && bytes@ == spec_quad_key(
                                self,
                                q2,
                            ) implies false by {
                                assert(bytes@ == spec_encode_term(q2.object) + spec_encode_term(
                                    q2.subject,
                                ) + spec_encode_term(q2.predicate));
                            }
                        }
                        return Err(e);
                    },
                };
                let q = EncodedQuad { subject: p.1, predicate: p.2, object: p.0, graph_name: EncodedTerm::DefaultGraph };
                if !(q.subject.is_named_or_blank() && q.predicate.is_named_node()
                    && !q.object.is_default_graph()) {
                    proof {
                        assert forall|q2: EncodedQuad|
                            q2.wf() && graph_position_ok(self, q2) && bytes@ == spec_quad_key(
                            self,
                            q2,
                        ) implies false by {
                            assert(bytes@ == spec_encode_term(q2.object) + spec_encode_term(
                                q2.subject,
                            ) + spec_encode_term(q2.predicate));
                        }
                    }
                    return Err(StorageError::Corruption("ill-positioned term in key".to_owned()));
                }
                proof {
                    assert(bytes@ == spec_quad_key(self, q));
                    assert forall|q2: EncodedQuad|
                        q2.wf() && graph_position_ok(self, q2) && bytes@ == spec_quad_key(
                        self,
                        q2,
                    ) implies q2 == q by {
                        assert(bytes@ == spec_encode_term(q2.object) + spec_encode_term(
                            q2.subject,
                        ) + spec_encode_term(q2.predicate));
                    }
                }
                Ok(q)
            },
            QuadEncoding::Spog => {
                let p = match decode_quad_terms(bytes) {
                    Ok(p) => p,
                    Err(e) => {
                        proof {
                            assert forall|q2: EncodedQuad|
                                q2.wf() && graph_position_ok(self, q2) && bytes@ == spec_quad_key(
                                self,
                                q2,
                            ) implies false by {
                                assert(bytes@ == spec_encode_term(q2.subject) + spec_encode_term(
                                    q2.predicate,
                                ) + spec_encode_term(q2.object) + spec_encode_term(
                                    q2.graph_name,
                                ));
                            }
                        }
                        return Err(e);
                    },
                };
                let q = EncodedQuad { subject: p.0, predicate: p.1, object: p.2, graph_name: p.3 };
                if !(q.subject.is_named_or_blank() && q.predicate.is_named_node()
                    && !q.object.is_default_graph() && q.graph_name.is_named_or_blank()) {
                    proof {
                        assert forall|q2: EncodedQuad|
                            q2.wf() && graph_position_ok(self, q2) && bytes@ == spec_quad_key(
                            self,
                            q2,
                        ) implies false by {
                            assert(bytes@ == spec_encode_term(q2.subject) + spec_encode_term(
                                q2.predicate,
                            ) + spec_encode_term(q2.object) + spec_encode_term(q2.graph_name));
                        }
                    }
                    return Err(StorageError::Corruption("ill-positioned term in key".to_owned()));
                }
                proof {
                    assert(bytes@ == spec_quad_key(self, q));
                    assert forall|q2: EncodedQuad|
                        q2.wf() && graph_position_ok(self, q2) && bytes@ == spec_quad_key(
                        self,
                        q2,
                    ) implies q2 == q by {
                        assert(bytes@ == spec_encode_term(q2.subject) + spec_encode_term(
                            q2.predicate,
                        ) + spec_encode_term(q2.object) + spec_encode_term(q2.graph_name));
                    }
                }
                Ok(q)
            },
            QuadEncoding::Posg => {
                let p = match decode_quad_terms(bytes) {
                    Ok(p) => p,
                    Err(e) => {
                        proof {
                            assert forall|q2: EncodedQuad|
                                q2.wf() && graph_position_ok(self, q2) && bytes@ == spec_quad_key(
                                self,
                                q2,
                            ) implies false by {
                                assert(bytes@ == spec_encode_term(q2.predicate) + spec_encode_term(
                                    q2.object,
                                ) + spec_encode_term(q2.subject) + spec_encode_term(
                                    q2.graph_name,
                                ));
                            }
                        }
                        return Err(e);
                    },
                };
                let q = EncodedQuad { subject: p.2, predicate: p.0, object: p.1, graph_name: p.3 };
                if !(q.subject.is_named_or_blank() && q.predicate.is_named_node()
                    && !q.object.is_default_graph() && q.graph_name.is_named_or_blank()) {
                    proof {
                        assert forall|q2: EncodedQuad|
                            q2.wf() && graph_position_ok(self, q2) && bytes@ == spec_quad_key(
                            self,
                            q2,
                        ) implies false by {
                            assert(bytes@ == spec_encode_term(q2.predicate) + spec_encode_term(
                                q2.object,
                            ) + spec_encode_term(q2.subject) + spec_encode_term(q2.graph_name));
                        }
                    }
                    return Err(StorageError::Corruption("ill-positioned term in key".to_owned()));
                }
                proof {
                    assert(bytes@ == spec_quad_key(self, q));
                    assert forall|q2: EncodedQuad|
                        q2.wf() && graph_position_ok(self, q2) && bytes@ == spec_quad_key(
                        self,
                        q2,
                    ) implies q2 == q by {
                        assert(bytes@ == spec_encode_term(q2.predicate) + spec_encode_term(
                            q2.object,
                        ) + spec_encode_term(q2.subject) + spec_encode_term(q2.graph_name));
                    }
                }
                Ok(q)
            },
            QuadEncoding::Ospg => {
                let p = match decode_quad_terms(bytes) {
                    Ok(p) => p,
                    Err(e) => {
                        proof {
                            assert forall|q2: EncodedQuad|
                                q2.wf() && graph_position_ok(self, q2) && bytes@ == spec_quad_key(
                                self,
                                q2,
                            ) implies false by {
                                assert(bytes@ == spec_encode_term(q2.object) + spec_encode_term(
                                    q2.subject,
                                ) + spec_encode_term(q2.predicate) + spec_encode_term(
                                    q2.graph_name,
                                ));
                            }
                        }
                        return Err(e);
                    },
                };
                let q = EncodedQuad { subject: p.1, predicate: p.2, object: p.0, graph_name: p.3 };
                if !(q.subject.is_named_or_blank() && q.predicate.is_named_node()
                    && !q.object.is_default_graph() && q.graph_name.is_named_or_blank()) {
                    proof {
                        assert forall|q2: EncodedQuad|
                            q2.wf() && graph_position_ok(self, q2) && bytes@ == spec_quad_key(
                            self,
                            q2,
                        ) implies false by {
                            assert(bytes@ == spec_encode_term(q2.object) + spec_encode_term(
                                q2.subject,
                            ) + spec_encode_term(q2.predicate) + spec_encode_term(q2.graph_name));
                        }
                    }
                    return Err(StorageError::Corruption("ill-positioned term in key".to_owned()));
                }
                proof {
                    assert(bytes@ == spec_quad_key(self, q));
                    assert forall|q2: EncodedQuad|
                        q2.wf() && graph_position_ok(self, q2) && bytes@ == spec_quad_key(
                        self,
                        q2,
                    ) implies q2 == q by {
                        assert(bytes@ == spec_encode_term(q2.object) + spec_encode_term(
                            q2.subject,
                        ) + spec_encode_term(q2.predicate) + spec_encode_term(q2.graph_name));
                    }
                }
                Ok(q)
            },
            QuadEncoding::Gspo => {
                let p = match decode_quad_terms(bytes) {
                    Ok(p) => p,
                    Err(e) => {
                        proof {
                            assert forall|q2: EncodedQuad|
                                q2.wf() && graph_position_ok(self, q2) && bytes@ == spec_quad_key(
                                self,
                                q2,
                            ) implies false by {
                                assert(bytes@ == spec_encode_term(q2.graph_name) + spec_encode_term(
                                    q2.subject,
                                ) + spec_encode_term(q2.predicate) + spec_encode_term(
                                    q2.object,
                                ));
                            }
                        }
                        return Err(e);
                    },
                };
                let q = EncodedQuad { subject: p.1, predicate: p.2, object: p.3, graph_name: p.0 };
                if !(q.subject.is_named_or_blank() && q.predicate.is_named_node()
                    && !q.object.is_default_graph() && q.graph_name.is_named_or_blank()) {
                    proof {
                        assert forall|q2: EncodedQuad|
                            q2.wf() && graph_position_ok(self, q2) && bytes@ == spec_quad_key(
                            self,
                            q2,
                        ) implies false by {
                            assert(bytes@ == spec_encode_term(q2.graph_name) + spec_encode_term(
                                q2.subject,
                            ) + spec_encode_term(q2.predicate) + spec_encode_term(q2.object));
                        }
                    }
                    return Err(StorageError::Corruption("ill-positioned term in key".to_owned()));
                }
                proof {
                    assert(bytes@ == spec_quad_key(self, q));
                    assert forall|q2: EncodedQuad|
                        q2.wf() && graph_position_ok(self, q2) && bytes@ == spec_quad_key(
                        self,
                        q2,
                    ) implies q2 == q by {
                        assert(bytes@ == spec_encode_term(q2.graph_name) + spec_encode_term(
                            q2.subject,
                        ) + spec_encode_term(q2.predicate) + spec_encode_term(q2.object));
                    }
                }
                Ok(q)
            },
            QuadEncoding::Gpos => {
                let p = match decode_quad_terms(bytes) {
                    Ok(p) => p,
                    Err(e) => {
                        proof {
                            assert forall|q2: EncodedQuad|
                                q2.wf() && graph_position_ok(self, q2) && bytes@ == spec_quad_key(
                                self,
                                q2,
                            ) implies false by {
                                assert(bytes@ == spec_encode_term(q2.graph_name) + spec_encode_term(
                                    q2.predicate,
                                ) + spec_encode_term(q2.object) + spec_encode_term(
                                    q2.subject,
                                ));
                            }
                        }
                        return Err(e);
                    },
                };
                let q = EncodedQuad { subject: p.3, predicate: p.1, object: p.2, graph_name: p.0 };
                if !(q.subject.is_named_or_blank() && q.predicate.is_named_node()
                    && !q.object.is_default_graph() && q.graph_name.is_named_or_blank()) {
                    proof {
                        assert forall|q2: EncodedQuad|
                            q2.wf() && graph_position_ok(self, q2) && bytes@ == spec_quad_key(
                            self,
                            q2,
                        ) implies false by {
                            assert(bytes@ == spec_encode_term(q2.graph_name) + spec_encode_term(
                                q2.predicate,
                            ) + spec_encode_term(q2.object) + spec_encode_term(q2.subject));
                        }
                    }
                    return Err(StorageError::Corruption("ill-positioned term in key".to_owned()));
                }
                proof {
                    assert(bytes@ == spec_quad_key(self, q));
                    assert forall|q2: EncodedQuad|
                        q2.wf() && graph_position_ok(self, q2) && bytes@ == spec_quad_key(
                        self,
                        q2,
                    ) implies q2 == q by {
                        assert(bytes@ == spec_encode_term(q2.graph_name) + spec_encode_term(
                            q2.predicate,
                        ) + spec_encode_term(q2.object) + spec_encode_term(q2.subject));
                    }
                }
                Ok(q)
            },
            QuadEncoding::Gosp => {
                let p = match decode_quad_terms(bytes) {
                    Ok(p) => p,
                    Err(e) => {
                        proof {
                            assert forall|q2: EncodedQuad|
                                q2.wf() && graph_position_ok(self, q2) && bytes@ == spec_quad_key(
                                self,
                                q2,
                            ) implies false by {
                                assert(bytes@ == spec_encode_term(q2.graph_name) + spec_encode_term(
                                    q2.object,
                                ) + spec_encode_term(q2.subject) + spec_encode_term(
                                    q2.predicate,
                                ));
                            }
                        }
                        return Err(e);
                    },
                };
                let q = EncodedQuad { subject: p.2, predicate: p.3, object: p.1, graph_name: p.0 };
                if !(q.subject.is_named_or_blank() && q.predicate.is_named_node()
                    && !q.object.is_default_graph() && q.graph_name.is_named_or_blank()) {
                    proof {
                        assert forall|q2: EncodedQuad|
                            q2.wf() && graph_position_ok(self, q2) && bytes@ == spec_quad_key(
                            self,
                            q2,
                        ) implies false by {
                            assert(bytes@ == spec_encode_term(q2.graph_name) + spec_encode_term(
                                q2.object,
                            ) + spec_encode_term(q2.subject) + spec_encode_term(q2.predicate));
                        }
                    }
                    return Err(StorageError::Corruption("ill-positioned term in key".to_owned()));
                }
                proof {
                    assert(bytes@ == spec_quad_key(self, q));
                    assert forall|q2: EncodedQuad|
                        q2.wf() && graph_position_ok(self, q2) && bytes@ == spec_quad_key(
                        self,
                        q2,
                    ) implies q2 == q by {
                        assert(bytes@ == spec_encode_term(q2.graph_name) + spec_encode_term(
                            q2.object,
                        ) + spec_encode_term(q2.subject) + spec_encode_term(q2.predicate));
                    }
                }
                Ok(q)
            },
        }
    }
}

} // verus!
