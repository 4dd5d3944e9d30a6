//! A compact bitmap stored as a byte vector, least significant bit first within each byte.
use vstd::prelude::*;
use crate::num_utils::div_ceil;

verus! {

/// The number of bytes needed to store a bitmap of `size` bits.
pub fn bytes_required(size: usize) -> (r: usize)
    requires
        size + 8 <= usize::MAX,
    ensures
        r == (size + 7) / 8,
        r * 8 >= size,
        r * 8 < size + 8,
{
    div_ceil(size, 8)
}

/// Whether bit `bit` of `byte` is set.
pub open spec fn byte_bit(byte: u8, bit: int) -> bool {
    (byte >> (bit as u8)) & 1u8 != 0u8
}

/// A bitmap whose bits are stored in `bytes`; bit `i` lives in byte `i / 8` at position `i % 8`.
pub struct Bitmap {
    bytes: Vec<u8>,
}

/// Splits a bit index into its byte index and the bit position within that byte.
fn split_index(index: usize) -> (r: (usize, usize))
    ensures
        r.0 == index / 8,
        r.1 == index % 8,
        r.1 < 8,
{
    (index / 8, index % 8)
}

proof fn lemma_set_bit(b: u8, j: u8, k: u8)
    requires
        j < 8,
        k < 8,
    ensures
        ((b | (1u8 << j)) >> k) & 1u8 != 0u8 <==> (k == j || (b >> k) & 1u8 != 0u8),
        ((b & !(1u8 << j)) >> k) & 1u8 != 0u8 <==> (k != j && (b >> k) & 1u8 != 0u8),
        ((b ^ (1u8 << j)) >> k) & 1u8 != 0u8 <==> (if k == j {
            (b >> k) & 1u8 == 0u8
        } else {
            (b >> k) & 1u8 != 0u8
        }),
{
    assert(((b | (1u8 << j)) >> k) & 1u8 != 0u8 <==> (k == j || (b >> k) & 1u8 != 0u8))
        by (bit_vector)
        requires j < 8, k < 8;
    assert(((b & !(1u8 << j)) >> k) & 1u8 != 0u8 <==> (k != j && (b >> k) & 1u8 != 0u8))
        by (bit_vector)
        requires j < 8, k < 8;
    assert(((b ^ (1u8 << j)) >> k) & 1u8 != 0u8 <==> (if k == j {
        (b >> k) & 1u8 == 0u8
    } else {
        (b >> k) & 1u8 != 0u8
    })) by (bit_vector)
        requires j < 8, k < 8;
}

impl Bitmap {
    /// The bits of the bitmap, in index order.
    pub closed spec fn view(&self) -> Seq<bool> {
        Seq::new((self.bytes@.len() * 8) as nat, |i: int| byte_bit(self.bytes@[i / 8], i % 8))
    }

    /// The underlying bytes.
    pub closed spec fn bytes_view(&self) -> Seq<u8> {
        self.bytes@
    }

    /// Creates a bitmap backed by `bytes`.
    pub fn new(bytes: Vec<u8>) -> (r: Self)
        ensures
            r.bytes_view() == bytes@,
            r@.len() == bytes@.len() * 8,
            forall|i: int| 0 <= i < r@.len() ==> r@[i] == byte_bit(bytes@[i / 8], i % 8),
    {
        Self { bytes }
    }

    /// Creates a bitmap of `bytes` zeroed bytes.
    pub fn zeroed(bytes: usize) -> (r: Self)
        ensures
            r@.len() == bytes * 8,
            forall|i: int| 0 <= i < r@.len() ==> !r@[i],
    {
        let mut v: Vec<u8> = Vec::new();
        let mut n: usize = 0;
        while n < bytes
            invariant
                n <= bytes,
                v@.len() == n,
                forall|k: int| 0 <= k < n ==> v@[k] == 0u8,
            decreases bytes - n,
        {
            v.push(0u8);
            n = n + 1;
        }
        let r = Self { bytes: v };
        assert forall|i: int| 0 <= i < r@.len() implies !r@[i] by {
            let k = (i % 8) as u8;
            assert(((0u8 >> k) & 1u8) == 0u8) by (bit_vector);
        }
        r
    }

    /// Returns whether bit `index` is set.
    pub fn get(&self, index: usize) -> (r: bool)
        requires
            index < self@.len(),
        ensures
            r == self@[index as int],
    {
        let (byte, bit) = split_index(index);
        ((self.bytes[byte] >> (bit as u8)) & 1) != 0
    }

    /// Returns the first clear bit below `limit`, if any.
    pub fn first_zero(&self, limit: usize) -> (r: Option<usize>)
        requires
            limit <= self@.len(),
        ensures
            match r {
                Some(i) => i < limit && !self@[i as int] && forall|j: int| 0 <= j < i ==> self@[j],
                None => forall|j: int| 0 <= j < limit ==> self@[j],
            },
    {
        let mut index: usize = 0;
        while index < limit
            invariant
                index <= limit,
                limit <= self@.len(),
                forall|j: int| 0 <= j < index ==> self@[j],
            decreases limit - index,
        {
            if !self.get(index) {
                return Some(index);
            }
            index = index + 1;
        }
        None
    }

    /// Sets bit `index`.
    pub fn set(&mut self, index: usize)
        requires
            index < old(self)@.len(),
        ensures
            final(self)@ == old(self)@.update(index as int, true),
            final(self).bytes_view() == old(self).bytes_view().update(
                (index / 8) as int,
                old(self).bytes_view()[(index / 8) as int] | (1u8 << ((index % 8) as u8)),
            ),
    {
        let (byte, bit) = split_index(index);
        let old_byte = self.bytes[byte];
        let new_byte = old_byte | (1u8 << (bit as u8));
        self.bytes.set(byte, new_byte);
        proof {
            self.lemma_byte_update(*old(self), index as int, old_byte, new_byte);
            assert forall|k: int| 0 <= k < 8 implies byte_bit(new_byte, k) == (if k == bit {
                true
            } else {
                byte_bit(old_byte, k)
            }) by {
                lemma_set_bit(old_byte, bit as u8, k as u8);
            }
        }
        assert(self@ =~= old(self)@.update(index as int, true));
    }

    /// Clears bit `index`.
    pub fn unset(&mut self, index: usize)
        requires
            index < old(self)@.len(),
        ensures
            final(self)@ == old(self)@.update(index as int, false),
            final(self).bytes_view() == old(self).bytes_view().update(
                (index / 8) as int,
                old(self).bytes_view()[(index / 8) as int] & !(1u8 << ((index % 8) as u8)),
            ),
    {
        let (byte, bit) = split_index(index);
        let old_byte = self.bytes[byte];
        let new_byte = old_byte & !(1u8 << (bit as u8));
        self.bytes.set(byte, new_byte);
        proof {
            self.lemma_byte_update(*old(self), index as int, old_byte, new_byte);
            assert forall|k: int| 0 <= k < 8 implies byte_bit(new_byte, k) == (if k == bit {
                false
            } else {
                byte_bit(old_byte, k)
            }) by {
                lemma_set_bit(old_byte, bit as u8, k as u8);
            }
        }
        assert(self@ =~= old(self)@.update(index as int, false));
    }

    /// Flips bit `index`.
    pub fn toggle(&mut self, index: usize)
        requires
            index < old(self)@.len(),
        ensures
            final(self)@ == old(self)@.update(index as int, !old(self)@[index as int]),
            final(self).bytes_view() == old(self).bytes_view().update(
                (index / 8) as int,
                old(self).bytes_view()[(index / 8) as int] ^ (1u8 << ((index % 8) as u8)),
            ),
    {
        let (byte, bit) = split_index(index);
        let old_byte = self.bytes[byte];
        let new_byte = old_byte ^ (1u8 << (bit as u8));
        self.bytes.set(byte, new_byte);
        proof {
            self.lemma_byte_update(*old(self), index as int, old_byte, new_byte);
            assert forall|k: int| 0 <= k < 8 implies byte_bit(new_byte, k) == (if k == bit {
                !byte_bit(old_byte, k)
            } else {
                byte_bit(old_byte, k)
            }) by {
                lemma_set_bit(old_byte, bit as u8, k as u8);
            }
        }
        assert(self@ =~= old(self)@.update(index as int, !old(self)@[index as int]));
    }

    /// Relates the bits of `self` to those of `prev` when only the byte holding `index` changed.
    proof fn lemma_byte_update(&self, prev: Self, index: int, old_byte: u8, new_byte: u8)
        requires
            0 <= index < prev@.len(),
            old_byte == prev.bytes@[index / 8],
            self.bytes@ == prev.bytes@.update(index / 8, new_byte),
        ensures
            self@.len() == prev@.len(),
            forall|i: int| 0 <= i < self@.len() && i / 8 != index / 8 ==> self@[i] == prev@[i],
            forall|i: int|
                0 <= i < self@.len() && i / 8 == index / 8 ==> self@[i] == byte_bit(new_byte, i % 8),
            forall|i: int|
                0 <= i < self@.len() && i / 8 == index / 8 ==> prev@[i] == byte_bit(old_byte, i % 8),
            forall|i: int| 0 <= i < self@.len() && i / 8 == index / 8 ==> (i == index <==> #[trigger] (i % 8) == index % 8),
    {
    }
}

/// Toggling a bit twice leaves the bitmap as it was.
pub proof fn law_toggle_twice(b0: Seq<bool>, b1: Seq<bool>, b2: Seq<bool>, index: int)
    requires
        0 <= index < b0.len(),
        b1 == b0.update(index, !b0[index]),
        b2 == b1.update(index, !b1[index]),
    ensures
        b2 == b0,
{
    assert(b2 =~= b0);
}

/// Setting a bit makes it read as set, and leaves every other bit as it was; unsetting it makes
/// it read as unset.
pub proof fn law_set_then_get(b0: Seq<bool>, b1: Seq<bool>, b2: Seq<bool>, index: int)
    requires
        0 <= index < b0.len(),
        b1 == b0.update(index, true),
        b2 == b1.update(index, false),
    ensures
        b1[index],
        !b2[index],
        forall|j: int| 0 <= j < b0.len() && j != index ==> b1[j] == b0[j] && b2[j] == b0[j],
{
}

} // verus!
