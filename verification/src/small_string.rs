//! Inline strings: up to 15 bytes packed into one machine word pair, so
//! that short literals can live inside an encoded term without a
//! dictionary reference.

use vstd::prelude::*;

verus! {

/// Largest byte length that fits inline.
pub const INLINE_STR_CAPACITY: usize = 15;

/// The byte of `data` at position `i`, counting from the most significant
/// end; positions 0..=14 carry the string, position 15 is always free.
pub open spec fn packed_byte(data: u128, i: int) -> u8
    recommends
        0 <= i < 16,
{
    ((data >> (((15 - i) * 8) as u128)) & 0xff) as u8
}

/// A string of at most 15 bytes, stored inline: `data` holds the bytes
/// big-endian from the most significant end, `len` how many are used.
#[derive(Clone, Copy, PartialEq, Eq, Structural, Debug)]
pub struct SmallString {
    pub len: u8,
    pub data: u128,
}

impl View for SmallString {
    type V = Seq<u8>;

    open spec fn view(&self) -> Seq<u8> {
        Seq::new(self.len as nat, |i: int| packed_byte(self.data, i))
    }
}

pub proof fn lemma_or_shifted_byte(data: u128, b: u8, i: u128, j: u128)
    requires
        i < 16,
        j < 16,
        packed_byte(data, i as int) == 0,
    ensures
        packed_byte(data | ((b as u128) << (((15 - i) * 8) as u128)), j as int) == if i == j {
            b
        } else {
            packed_byte(data, j as int)
        },
{
    assert((((data | ((b as u128) << (((15 - i) * 8) as u128))) >> (((15 - j) * 8) as u128))
        & 0xff) as u8 == if i == j {
        b
    } else {
        ((data >> (((15 - j) * 8) as u128)) & 0xff) as u8
    }) by (bit_vector)
        requires
            i < 16,
            j < 16,
            ((data >> (((15 - i) * 8) as u128)) & 0xff) as u8 == 0,
    ;
}

impl SmallString {
    /// All bytes at and beyond `len` are zero, so equal strings have
    /// equal packed words.
    pub open spec fn wf(&self) -> bool {
        self.len <= 15 && forall|i: int|
            self.len <= i < 16 ==> packed_byte(self.data, i) == 0
    }

    pub fn empty() -> (r: SmallString)
        ensures
            r.wf(),
            r@ == Seq::<u8>::empty(),
    {
        let r = SmallString { len: 0, data: 0 };
        proof {
            assert forall|i: int| 0 <= i < 16 implies packed_byte(0u128, i) == 0 by {
                let sh = ((15 - i) * 8) as u128;
                assert((0u128 >> sh) & 0xff == 0) by (bit_vector);
            }
            assert(r@ =~= Seq::<u8>::empty());
        }
        r
    }

    /// Packs at most 15 bytes; longer inputs are refused.
    pub fn from_bytes(bytes: &[u8]) -> (r: Option<SmallString>)
        ensures
            bytes@.len() <= 15 ==> (r matches Some(s) && s.wf() && s@ == bytes@),
            bytes@.len() > 15 ==> r is None,
    {
        let n = bytes.len();
        if n > 15 {
            return None;
        }
        let mut data: u128 = 0;
        proof {
            assert forall|j: int| 0 <= j < 16 implies packed_byte(0u128, j) == 0 by {
                let sh = ((15 - j) * 8) as u128;
                assert((0u128 >> sh) & 0xff == 0) by (bit_vector);
            }
        }
        let mut i: usize = 0;
        while i < n
            invariant
                n == bytes@.len(),
                n <= 15,
                i <= n,
                forall|j: int| 0 <= j < i ==> packed_byte(data, j) == bytes@[j],
                forall|j: int| i <= j < 16 ==> packed_byte(data, j) == 0,
            decreases n - i,
        {
            let b = bytes[i];
            let sh: u128 = ((15 - (i as u128)) * 8);
            let ghost old_data = data;
            data = data | ((b as u128) << sh);
            proof {
                assert forall|j: int| 0 <= j < 16 implies packed_byte(data, j) == (if j == i {
                    bytes@[i as int]
                } else {
                    packed_byte(old_data, j)
                }) by {
                    lemma_or_shifted_byte(old_data, b, i as u128, j as u128);
                }
            }
            i = i + 1;
        }
        let r = SmallString { len: n as u8, data };
        proof {
            assert(r@ =~= bytes@);
        }
        Some(r)
    }

    pub fn len(&self) -> (r: usize)
        ensures
            r == self@.len(),
    {
        self.len as usize
    }

    /// The byte at position `i`.
    pub fn get(&self, i: usize) -> (r: u8)
        requires
            self.wf(),
            i < self@.len(),
        ensures
            r == self@[i as int],
    {
        let sh: u128 = (15 - (i as u128)) * 8;
        ((self.data >> sh) & 0xff) as u8
    }

    /// Copies the string back out as plain bytes.
    pub fn to_bytes(&self) -> (r: Vec<u8>)
        requires
            self.wf(),
        ensures
            r@ == self@,
    {
        let n = self.len as usize;
        let mut out: Vec<u8> = Vec::new();
        let mut i: usize = 0;
        while i < n
            invariant
                self.wf(),
                n == self.len,
                i <= n,
                out@.len() == i,
                forall|j: int| 0 <= j < i ==> out@[j] == packed_byte(self.data, j),
            decreases n - i,
        {
            let sh: u128 = (15 - (i as u128)) * 8;
            out.push(((self.data >> sh) & 0xff) as u8);
            i = i + 1;
        }
        proof {
            assert(out@ =~= self@);
        }
        out
    }
}

/// Equal contents force equal representations: the packing is canonical.
pub proof fn lemma_small_string_canonical(a: SmallString, b: SmallString)
    requires
        a.wf(),
        b.wf(),
        a@ == b@,
    ensures
        a == b,
{
    assert(a@.len() == a.len as nat);
    assert(b@.len() == b.len as nat);
    assert(a.len == b.len);
    assert forall|i: int| 0 <= i < 16 implies packed_byte(a.data, i) == packed_byte(b.data, i) by {
        if i < a.len {
            assert(a@[i] == packed_byte(a.data, i));
            assert(b@[i] == packed_byte(b.data, i));
        }
    }
    let da = a.data;
    let db = b.data;
    assert(packed_byte(da, 0) == packed_byte(db, 0));
    assert(packed_byte(da, 1) == packed_byte(db, 1));
    assert(packed_byte(da, 2) == packed_byte(db, 2));
    assert(packed_byte(da, 3) == packed_byte(db, 3));
    assert(packed_byte(da, 4) == packed_byte(db, 4));
    assert(packed_byte(da, 5) == packed_byte(db, 5));
    assert(packed_byte(da, 6) == packed_byte(db, 6));
    assert(packed_byte(da, 7) == packed_byte(db, 7));
    assert(packed_byte(da, 8) == packed_byte(db, 8));
    assert(packed_byte(da, 9) == packed_byte(db, 9));
    assert(packed_byte(da, 10) == packed_byte(db, 10));
    assert(packed_byte(da, 11) == packed_byte(db, 11));
    assert(packed_byte(da, 12) == packed_byte(db, 12));
    assert(packed_byte(da, 13) == packed_byte(db, 13));
    assert(packed_byte(da, 14) == packed_byte(db, 14));
    assert(packed_byte(da, 15) == packed_byte(db, 15));
    assert(da == db) by (bit_vector)
        requires
            ((da >> 120) & 0xff) as u8 == ((db >> 120) & 0xff) as u8,
            ((da >> 112) & 0xff) as u8 == ((db >> 112) & 0xff) as u8,
            ((da >> 104) & 0xff) as u8 == ((db >> 104) & 0xff) as u8,
            ((da >> 96) & 0xff) as u8 == ((db >> 96) & 0xff) as u8,
            ((da >> 88) & 0xff) as u8 == ((db >> 88) & 0xff) as u8,
            ((da >> 80) & 0xff) as u8 == ((db >> 80) & 0xff) as u8,
            ((da >> 72) & 0xff) as u8 == ((db >> 72) & 0xff) as u8,
            ((da >> 64) & 0xff) as u8 == ((db >> 64) & 0xff) as u8,
            ((da >> 56) & 0xff) as u8 == ((db >> 56) & 0xff) as u8,
            ((da >> 48) & 0xff) as u8 == ((db >> 48) & 0xff) as u8,
            ((da >> 40) & 0xff) as u8 == ((db >> 40) & 0xff) as u8,
            ((da >> 32) & 0xff) as u8 == ((db >> 32) & 0xff) as u8,
            ((da >> 24) & 0xff) as u8 == ((db >> 24) & 0xff) as u8,
            ((da >> 16) & 0xff) as u8 == ((db >> 16) & 0xff) as u8,
            ((da >> 8) & 0xff) as u8 == ((db >> 8) & 0xff) as u8,
            ((da >> 0) & 0xff) as u8 == ((db >> 0) & 0xff) as u8,
    ;
}

} // verus!
