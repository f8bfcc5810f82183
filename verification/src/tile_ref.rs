//! The packed 64-bit tile address and the power-of-two size class it carries.

use crate::bits::{lemma_bit_length_unique, lemma_leading_zeros_is_bit_length};
use vstd::arithmetic::power2::{
    lemma2_to64, lemma_pow2_pos, lemma_pow2_strictly_increases, lemma_pow2_unfold, pow2,
};
use vstd::bits::lemma_u32_shl_is_mul;
use vstd::prelude::*;
use vstd::std_specs::bits::axiom_u32_leading_zeros;

verus! {

/// The weight of the size class in an address: it fills the top 8 bits.
pub const SIZE_UNIT: u64 = 0x0100_0000_0000_0000;

/// The weight of the sequence index in an address: it sits above the 16 chunk bits.
pub const INDEX_UNIT: u64 = 0x1_0000;

/// The number of sequence indices: an index is kept modulo this.
pub const INDEX_COUNT: u64 = 0x0100_0000_0000;

/// A power of two, held as its exponent.
#[derive(Debug, PartialEq, Eq, Structural)]
pub struct Pow2(pub u8);

impl Pow2 {
    /// The exponent of `i`, which must be a power of two.
    pub fn from(i: u32) -> (r: Pow2)
        requires
            exists|k: nat| k < 32 && i == pow2(k),
        ensures
            r.0 < 32,
            pow2(r.0 as nat) == i,
    {
        proof {
            let k = choose|k: nat| k < 32 && i == pow2(k);
            lemma_pow2_pos(k);
            lemma_pow2_unfold(k + 1);
            lemma_bit_length_unique(i as nat, k + 1);
            lemma_leading_zeros_is_bit_length(i);
            axiom_u32_leading_zeros(i);
        }
        Pow2((32 - i.leading_zeros() - 1) as u8)
    }

    /// Two to the power of the exponent. The exponent must be below 32, so
    /// that the power fits.
    pub fn u32(&self) -> (r: u32)
        requires
            self.0 < 32,
        ensures
            r == pow2(self.0 as nat),
    {
        proof {
            lemma2_to64();
            if self.0 < 31 {
                lemma_pow2_strictly_increases(self.0 as nat, 31);
            }
            lemma_u32_shl_is_mul(1u32, self.0 as u32);
        }
        1u32 << (self.0 as u32)
    }
}

/// The address that packs a size class, a sequence index and a chunk index:
/// the size class in the top 8 bits, the index modulo 2^40 in the next 40,
/// the chunk in the low 16.
pub open spec fn pack(size: u8, index: u64, chunk: u16) -> u64 {
    (size * SIZE_UNIT + (index % INDEX_COUNT) * INDEX_UNIT + chunk) as u64
}

/// Whether the triple `(s1, i1, c1)` comes before `(s2, i2, c2)` in
/// lexicographic order.
pub open spec fn triple_less(s1: int, i1: int, c1: int, s2: int, i2: int, c2: int) -> bool {
    s1 < s2 || (s1 == s2 && (i1 < i2 || (i1 == i2 && c1 < c2)))
}

/// The address of one tile: one ordered integer key.
#[derive(Debug, PartialEq, Eq, Structural, PartialOrd, Ord, Hash, Clone, Copy, Default)]
pub struct TileRef(pub u64);

impl TileRef {
    /// The size class held in the top 8 bits.
    pub open spec fn size_class(self) -> u8 {
        (self.0 / SIZE_UNIT) as u8
    }

    /// The sequence index held in the middle 40 bits.
    pub open spec fn index(self) -> u64 {
        (self.0 / INDEX_UNIT) % INDEX_COUNT
    }

    /// The chunk index held in the low 16 bits.
    pub open spec fn chunk(self) -> u16 {
        (self.0 % INDEX_UNIT) as u16
    }

    /// Packs a size class, a sequence index and a chunk index into an address.
    /// The index is reduced modulo 2^40.
    pub fn new(size: Pow2, index: u64, chunk: u16) -> (r: TileRef)
        ensures
            r.0 == pack(size.0, index, chunk),
            r.size_class() == size.0,
            r.index() == index % 0x0100_0000_0000,
            r.chunk() == chunk,
    {
        let s: u8 = size.0;
        let low: u64 = chunk as u64;
        let mid: u64 = (index % INDEX_COUNT) << 16;
        let high: u64 = (s as u64) << 56;
        let packed: u64 = low | mid | high;
        proof {
            assert(mid == (index % 0x0100_0000_0000u64) * 0x1_0000u64) by (bit_vector)
                requires
                    mid == (index % 0x0100_0000_0000u64) << 16,
            ;
            assert(high == (s as u64) * 0x0100_0000_0000_0000u64) by (bit_vector)
                requires
                    high == (s as u64) << 56,
            ;
            assert(packed == low + mid + high) by (bit_vector)
                requires
                    packed == low | mid | high,
                    low == chunk as u64,
                    mid == (index % 0x0100_0000_0000u64) << 16,
                    high == (s as u64) << 56,
            ;
            lemma_round_trip(s, index, chunk);
        }
        TileRef(packed)
    }

    /// Unpacks the address into its size class, sequence index and chunk index.
    pub fn deconstruct(&self) -> (r: (Pow2, u64, u16))
        ensures
            r.0.0 == self.size_class(),
            r.1 == self.index(),
            r.2 == self.chunk(),
            pack(r.0.0, r.1, r.2) == self.0,
    {
        let v: u64 = self.0;
        let size: u8 = ((v & 0xFF00_0000_0000_0000u64) >> 56) as u8;
        let index: u64 = (v & 0x00FF_FFFF_FFFF_0000u64) >> 16;
        let chunk: u16 = (v & 0x0000_0000_0000_FFFFu64) as u16;
        proof {
            assert(((v & 0xFF00_0000_0000_0000u64) >> 56) == v / 0x0100_0000_0000_0000u64)
                by (bit_vector);
            assert(v / 0x0100_0000_0000_0000u64 < 256) by (bit_vector);
            assert(((v & 0x00FF_FFFF_FFFF_0000u64) >> 16) == (v / 0x1_0000u64)
                % 0x0100_0000_0000u64) by (bit_vector);
            assert((v & 0x0000_0000_0000_FFFFu64) == v % 0x1_0000u64) by (bit_vector);
            lemma_pack_inverse(*self);
        }
        (Pow2(size), index, chunk)
    }
}

/// Decoding an encoded triple gives the triple back, with the index reduced
/// modulo 2^40.
pub proof fn lemma_round_trip(size: u8, index: u64, chunk: u16)
    ensures
        TileRef(pack(size, index, chunk)).size_class() == size,
        TileRef(pack(size, index, chunk)).index() == index % INDEX_COUNT,
        TileRef(pack(size, index, chunk)).chunk() == chunk,
        index < INDEX_COUNT ==> TileRef(pack(size, index, chunk)).index() == index,
{
}

/// Encoding the three fields of an address gives the address back.
pub proof fn lemma_pack_inverse(t: TileRef)
    ensures
        pack(t.size_class(), t.index(), t.chunk()) == t.0,
{
}

/// An address with a smaller size class is the smaller address, whatever the
/// index and the chunk are.
pub proof fn lemma_size_class_orders(s1: u8, i1: u64, c1: u16, s2: u8, i2: u64, c2: u16)
    requires
        s1 < s2,
    ensures
        pack(s1, i1, c1) < pack(s2, i2, c2),
{
}

/// Addresses are ordered as their triples are: by size class, then by index
/// (modulo 2^40), then by chunk.
pub proof fn lemma_order_is_lexicographic(s1: u8, i1: u64, c1: u16, s2: u8, i2: u64, c2: u16)
    ensures
        pack(s1, i1, c1) < pack(s2, i2, c2) <==> triple_less(
            s1 as int,
            (i1 % INDEX_COUNT) as int,
            c1 as int,
            s2 as int,
            (i2 % INDEX_COUNT) as int,
            c2 as int,
        ),
{
}

} // verus!
