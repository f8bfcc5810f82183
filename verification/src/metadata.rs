//! Pyramid metadata: the resolution levels of one image, the lookup of the
//! level nearest to a target size, and the tile grid of a level.

use crate::bits::{
    bit_length, bit_length_u32, lemma_bit_length_bounds, lemma_bit_length_unique, next_pow2,
};
use crate::tile_ref::TileRef;
use vstd::arithmetic::power2::{
    lemma2_to64, lemma_pow2_pos, lemma_pow2_strictly_increases, lemma_pow2_unfold, pow2,
};
use vstd::bits::lemma_u64_shl_is_mul;
use vstd::prelude::*;

verus! {

/// One resolution level of a pyramid: the pixel dimensions of the whole image
/// at this level, and the addresses of its tiles in row-major order.
#[derive(Debug, PartialEq, Eq)]
pub struct Thumb {
    pub img_size: [u32; 2],
    pub tile_refs: Vec<TileRef>,
}

/// The ordered resolution levels of one source image.
#[derive(Debug, PartialEq, Eq)]
pub struct Metadata {
    pub thumbs: Vec<Thumb>,
}

/// The tile grid that covers one level.
#[derive(Debug, PartialEq, Eq)]
pub struct TileSpec {
    pub img_size: [u32; 2],
    /// Grid width and height, in tiles.
    pub grid_size: [u32; 2],
    /// Tile width and height, in pixels.
    pub tile_size: [u32; 2],
}

/// Where one tile of a level is drawn: its address and the pixel at which its
/// top left corner lies within the level.
#[derive(Debug, PartialEq, Eq)]
pub struct Placement {
    pub tile_ref: TileRef,
    pub x: u32,
    pub y: u32,
}

/// The larger of the two dimensions.
pub open spec fn max_dimension_spec(img_size: [u32; 2]) -> u32 {
    if img_size[0] >= img_size[1] {
        img_size[0]
    } else {
        img_size[1]
    }
}

/// The bit length of a level's size, the size being its larger dimension
/// rounded up to a power of two.
pub open spec fn level_bits(dim: u32) -> nat {
    bit_length(next_pow2(dim as nat))
}

/// How far a level of larger dimension `dim` is from a target size: the
/// absolute difference of the bit lengths of the target and of the level's
/// size.
pub open spec fn level_distance(target: u32, dim: u32) -> nat {
    let t = bit_length(target as nat);
    let s = level_bits(dim);
    if t >= s {
        (t - s) as nat
    } else {
        (s - t) as nat
    }
}

/// `a / b` rounded up, and 0 where `b` is 0.
pub open spec fn ceil_div_spec(a: u32, b: u32) -> u32 {
    if b == 0 {
        0
    } else {
        ((a + b - 1) / b as int) as u32
    }
}

/// The `i`-th of the ranges into which tiles of `tile_size` pixels cut a
/// dimension of `img_size` pixels: where the tile starts, and where it or the
/// image ends.
pub open spec fn range_spec(img_size: u32, tile_size: u32, i: int) -> (u32, u32) {
    let min = i * tile_size;
    let max = if min + tile_size <= img_size {
        min + tile_size
    } else {
        img_size as int
    };
    (min as u32, max as u32)
}

/// The bit length of a power of two is one more than its exponent.
pub proof fn lemma_bit_length_pow2(k: nat)
    ensures
        bit_length(pow2(k)) == k + 1,
{
    lemma_pow2_pos(k);
    lemma_pow2_unfold(k + 1);
    lemma_bit_length_unique(pow2(k), k + 1);
}

/// The level bits of a dimension, from the bit length of the dimension less one.
pub proof fn lemma_level_bits(dim: u32)
    ensures
        level_bits(dim) == if dim <= 1 {
            1
        } else {
            bit_length((dim - 1) as nat) + 1
        },
        1 <= level_bits(dim) <= 33,
{
    lemma2_to64();
    if dim <= 1 {
        lemma_bit_length_pow2(0);
    } else {
        let b = bit_length((dim - 1) as nat);
        lemma_bit_length_pow2(b);
        lemma_bit_length_bounds((dim - 1) as nat);
        if b > 32 {
            if b > 33 {
                lemma_pow2_strictly_increases(32, (b - 1) as nat);
            }
        }
    }
}

/// Rounding up covers the dividend, and no smaller quotient does.
pub proof fn lemma_ceil_div(a: u32, b: u32)
    requires
        b > 0,
    ensures
        ceil_div_spec(a, b) * b >= a,
        a > 0 ==> (ceil_div_spec(a, b) - 1) * b < a,
        a == 0 ==> ceil_div_spec(a, b) == 0,
        ceil_div_spec(a, b) <= a,
{
    let q = (a + b - 1) / b as int;
    assert(q * b <= a + b - 1 < q * b + b && 0 <= q <= a) by (nonlinear_arith)
        requires
            q == (a + b - 1) / b as int,
            b > 0,
            a >= 0,
    ;
    assert((q - 1) * b == q * b - b) by (nonlinear_arith);
}

impl Thumb {
    /// The larger of the level's two dimensions.
    pub fn max_dimension(&self) -> (r: u32)
        ensures
            r == max_dimension_spec(self.img_size),
    {
        let w: u32 = self.img_size[0];
        let h: u32 = self.img_size[1];
        if w >= h {
            w
        } else {
            h
        }
    }

    /// The level's size: its larger dimension rounded up to a power of two.
    /// It is returned as a `u64`, since a dimension above 2^31 rounds up to 2^32.
    pub fn size(&self) -> (r: u64)
        ensures
            r == next_pow2(max_dimension_spec(self.img_size) as nat),
    {
        let d: u32 = self.max_dimension();
        if d <= 1 {
            1
        } else {
            let b: u32 = bit_length_u32(d - 1);
            proof {
                lemma2_to64();
                if b < 32 {
                    lemma_pow2_strictly_increases(b as nat, 32);
                }
                lemma_u64_shl_is_mul(1u64, b as u64);
            }
            1u64 << (b as u64)
        }
    }

    /// The bit length of the level's size.
    pub fn size_bits(&self) -> (r: u32)
        ensures
            r == level_bits(max_dimension_spec(self.img_size)),
            1 <= r <= 33,
    {
        let d: u32 = self.max_dimension();
        proof {
            lemma_level_bits(d);
        }
        if d <= 1 {
            1
        } else {
            bit_length_u32(d - 1) + 1
        }
    }

    /// The tile grid of the level for a grid of `grid_size` tiles: each tile
    /// dimension is the image dimension divided by the grid dimension,
    /// rounded up, so that the grid covers the image and no smaller tile would.
    /// A grid dimension of 0 gives a tile dimension of 0.
    pub fn tile_spec(&self, grid_size: [u32; 2]) -> (r: TileSpec)
        ensures
            r.img_size == self.img_size,
            r.grid_size == grid_size,
            r.tile_size[0] == ceil_div_spec(self.img_size[0], grid_size[0]),
            r.tile_size[1] == ceil_div_spec(self.img_size[1], grid_size[1]),
    {
        let tile_w: u32 = ceil_div(self.img_size[0], grid_size[0]);
        let tile_h: u32 = ceil_div(self.img_size[1], grid_size[1]);
        TileSpec { img_size: self.img_size, grid_size, tile_size: [tile_w, tile_h] }
    }

    /// Where each tile of the level lies: the tile addresses are taken in
    /// order and laid out row by row over the grid, the row outside and the
    /// column inside. The cell at position `k` of that order lies in column
    /// `k % width` and row `k / width`; it gets the address at position `k`
    /// and the corner `(column * tile width, row * tile height)`.
    ///
    /// The level must hold an address for each cell, and each corner must fit
    /// in a `u32`.
    pub fn placements(&self, spec: &TileSpec) -> (out: Vec<Placement>)
        requires
            spec.fits(),
            self.tile_refs@.len() >= spec.grid_size[0] * spec.grid_size[1],
        ensures
            out@.len() == spec.grid_size[0] * spec.grid_size[1],
            forall|k: int|
                0 <= k < out@.len() ==> (#[trigger] out@[k]) == cell_spec(
                    self.tile_refs@,
                    spec.grid_size[0],
                    spec.tile_size,
                    k,
                ),
    {
        let gw: u32 = spec.grid_size[0];
        let gh: u32 = spec.grid_size[1];
        let tw: u32 = spec.tile_size[0];
        let th: u32 = spec.tile_size[1];
        proof {
            assert(gw * gh <= 0xFFFF_FFFF * 0xFFFF_FFFF) by (nonlinear_arith)
                requires
                    0 <= gw <= 0xFFFF_FFFF,
                    0 <= gh <= 0xFFFF_FFFF,
            ;
            assert(gw == 0 ==> gw * gh == 0) by (nonlinear_arith);
        }
        let total: u64 = (gw as u64) * (gh as u64);
        let mut out: Vec<Placement> = Vec::new();
        let mut col: u32 = 0;
        let mut row: u32 = 0;
        while (out.len() as u64) < total
            invariant
                gw == spec.grid_size[0],
                gh == spec.grid_size[1],
                tw == spec.tile_size[0],
                th == spec.tile_size[1],
                total == gw * gh,
                spec.fits(),
                self.tile_refs@.len() >= total,
                out@.len() <= total,
                out@.len() == row * gw + col,
                out@.len() < total ==> col < gw,
                forall|k: int|
                    0 <= k < out@.len() ==> (#[trigger] out@[k]) == cell_spec(
                        self.tile_refs@,
                        gw,
                        spec.tile_size,
                        k,
                    ),
            decreases total - out@.len(),
        {
            let k: usize = out.len();
            proof {
                lemma_cell_index(k as int, row as int, col as int, gw as int, gh as int);
                assert(col * tw <= (gw - 1) * tw) by (nonlinear_arith)
                    requires
                        col <= gw - 1,
                        tw >= 0,
                ;
                assert(row * th <= (gh - 1) * th) by (nonlinear_arith)
                    requires
                        row <= gh - 1,
                        th >= 0,
                ;
            }
            out.push(Placement { tile_ref: self.tile_refs[k], x: col * tw, y: row * th });
            if col + 1 == gw {
                proof {
                    assert((row + 1) * gw + 0 == row * gw + col + 1) by (nonlinear_arith)
                        requires
                            col + 1 == gw,
                    ;
                }
                col = 0;
                row = row + 1;
            } else {
                col = col + 1;
            }
        }
        out
    }
}

/// The placement of the cell at position `k` of the row-major order.
pub open spec fn cell_spec(tile_refs: Seq<TileRef>, width: u32, tile_size: [u32; 2], k: int) -> Placement {
    Placement {
        tile_ref: tile_refs[k],
        x: ((k % width as int) * tile_size[0]) as u32,
        y: ((k / width as int) * tile_size[1]) as u32,
    }
}

/// A position `row * width + col` in row-major order has that row and that
/// column, and lies in a row of the grid.
proof fn lemma_cell_index(k: int, row: int, col: int, w: int, h: int)
    requires
        0 <= row,
        0 <= col < w,
        k == row * w + col,
        k < w * h,
    ensures
        k / w == row,
        k % w == col,
        row < h,
{
    vstd::arithmetic::div_mod::lemma_fundamental_div_mod_converse(k, w, row, col);
    assert(row < h) by (nonlinear_arith)
        requires
            row * w + col < w * h,
            0 <= col,
            w > 0,
            0 <= row,
    ;
}

/// `a / b` rounded up, and 0 where `b` is 0.
pub fn ceil_div(a: u32, b: u32) -> (r: u32)
    ensures
        r == ceil_div_spec(a, b),
{
    if b == 0 {
        0
    } else {
        proof {
            lemma_ceil_div(a, b);
        }
        ((a as u64 + b as u64 - 1) / (b as u64)) as u32
    }
}

impl TileSpec {
    /// Whether every tile corner of the grid fits in a `u32`, along both axes.
    pub open spec fn fits(&self) -> bool {
        &&& self.grid_size[0] > 0 ==> (self.grid_size[0] - 1) * self.tile_size[0] <= u32::MAX
        &&& self.grid_size[1] > 0 ==> (self.grid_size[1] - 1) * self.tile_size[1] <= u32::MAX
    }

    /// The pixel ranges of the `grid_size` tiles along one dimension, in
    /// order: tile `i` starts at `i * tile_size` and ends where the next one
    /// starts, or where the image ends if that comes first.
    ///
    /// The start of the last tile must fit in a `u32`.
    pub fn ranges(img_size: u32, grid_size: u32, tile_size: u32) -> (out: Vec<(u32, u32)>)
        requires
            grid_size > 0 ==> (grid_size - 1) * tile_size <= u32::MAX,
        ensures
            out@.len() == grid_size,
            forall|i: int|
                0 <= i < grid_size ==> #[trigger] out@[i] == range_spec(img_size, tile_size, i),
    {
        let mut out: Vec<(u32, u32)> = Vec::new();
        let mut i: u32 = 0;
        while i < grid_size
            invariant
                i <= grid_size,
                grid_size > 0 ==> (grid_size - 1) * tile_size <= u32::MAX,
                out@.len() == i,
                forall|j: int| 0 <= j < i ==> #[trigger] out@[j] == range_spec(img_size, tile_size, j),
            decreases grid_size - i,
        {
            proof {
                assert(i * tile_size <= (grid_size - 1) * tile_size) by (nonlinear_arith)
                    requires
                        i <= grid_size - 1,
                        tile_size >= 0,
                ;
            }
            let min: u32 = i * tile_size;
            let end: u64 = min as u64 + tile_size as u64;
            let max: u32 = if end <= img_size as u64 {
                end as u32
            } else {
                img_size
            };
            out.push((min, max));
            i = i + 1;
        }
        out
    }

    /// The pixel ranges of the tile columns.
    pub fn x_ranges(&self) -> (out: Vec<(u32, u32)>)
        requires
            self.fits(),
        ensures
            out@.len() == self.grid_size[0],
            forall|i: int|
                0 <= i < self.grid_size[0] ==> #[trigger] out@[i] == range_spec(
                    self.img_size[0],
                    self.tile_size[0],
                    i,
                ),
    {
        Self::ranges(self.img_size[0], self.grid_size[0], self.tile_size[0])
    }

    /// The pixel ranges of the tile rows.
    pub fn y_ranges(&self) -> (out: Vec<(u32, u32)>)
        requires
            self.fits(),
        ensures
            out@.len() == self.grid_size[1],
            forall|i: int|
                0 <= i < self.grid_size[1] ==> #[trigger] out@[i] == range_spec(
                    self.img_size[1],
                    self.tile_size[1],
                    i,
                ),
    {
        Self::ranges(self.img_size[1], self.grid_size[1], self.tile_size[1])
    }
}

impl Metadata {
    /// The larger dimension of level `j`.
    pub open spec fn dimension(&self, j: int) -> u32 {
        max_dimension_spec(self.thumbs@[j].img_size)
    }

    /// The distance of level `j` from a target size.
    pub open spec fn distance(&self, target: u32, j: int) -> nat {
        level_distance(target, self.dimension(j))
    }

    /// Whether `r` is the level nearest to the target: no level is nearer, and
    /// every level before it is farther.
    pub open spec fn is_nearest(&self, target: u32, r: int) -> bool {
        &&& 0 <= r < self.thumbs@.len()
        &&& forall|j: int|
            0 <= j < self.thumbs@.len() ==> self.distance(target, r) <= #[trigger] self.distance(
                target,
                j,
            )
        &&& forall|j: int| 0 <= j < r ==> self.distance(target, r) < #[trigger] self.distance(target, j)
    }

    /// The index of the level nearest to `target_size`: the one whose size has
    /// the bit length closest to the target's, and the first of those where
    /// several are equally close. There must be at least one level.
    pub fn nearest(&self, target_size: u32) -> (r: usize)
        requires
            self.thumbs@.len() > 0,
        ensures
            self.is_nearest(target_size, r as int),
    {
        let target_bits: u32 = bit_length_u32(target_size);
        let mut found: usize = 0;
        let mut found_dist: u32 = bit_distance(target_bits, self.thumbs[0].size_bits());
        let mut i: usize = 1;
        while i < self.thumbs.len()
            invariant
                1 <= i <= self.thumbs@.len(),
                target_bits == bit_length(target_size as nat),
                0 <= found < i,
                found_dist == self.distance(target_size, found as int),
                forall|j: int|
                    0 <= j < i ==> found_dist <= #[trigger] self.distance(target_size, j),
                forall|j: int|
                    0 <= j < found ==> found_dist < #[trigger] self.distance(target_size, j),
            decreases self.thumbs@.len() - i,
        {
            let dist: u32 = bit_distance(target_bits, self.thumbs[i].size_bits());
            if dist < found_dist {
                found = i;
                found_dist = dist;
            }
            i = i + 1;
        }
        found
    }
}

/// The absolute difference of two bit lengths.
fn bit_distance(a: u32, b: u32) -> (r: u32)
    ensures
        r == if a >= b {
            a - b
        } else {
            b - a
        },
{
    if a >= b {
        a - b
    } else {
        b - a
    }
}

/// The first of the nearest among the first `n` levels.
spec fn nearest_among(m: Metadata, target: u32, n: nat) -> int
    decreases n,
{
    if n <= 1 {
        0
    } else {
        let r = nearest_among(m, target, (n - 1) as nat);
        if m.distance(target, n - 1) < m.distance(target, r) {
            n - 1
        } else {
            r
        }
    }
}

proof fn lemma_nearest_among(m: Metadata, target: u32, n: nat)
    requires
        1 <= n <= m.thumbs@.len(),
    ensures
        0 <= nearest_among(m, target, n) < n,
        forall|j: int|
            0 <= j < n ==> m.distance(target, nearest_among(m, target, n)) <= #[trigger] m.distance(
                target,
                j,
            ),
        forall|j: int|
            0 <= j < nearest_among(m, target, n) ==> m.distance(
                target,
                nearest_among(m, target, n),
            ) < #[trigger] m.distance(target, j),
    decreases n,
{
    if n > 1 {
        lemma_nearest_among(m, target, (n - 1) as nat);
    }
}

/// A pyramid with at least one level has a level nearest to any target.
pub proof fn lemma_nearest_exists(m: Metadata, target: u32)
    requires
        m.thumbs@.len() > 0,
    ensures
        exists|r: int| m.is_nearest(target, r),
{
    lemma_nearest_among(m, target, m.thumbs@.len());
    assert(m.is_nearest(target, nearest_among(m, target, m.thumbs@.len())));
}

/// Two levels cannot both be the nearest to one target.
pub proof fn lemma_nearest_is_unique(m: Metadata, target: u32, r1: int, r2: int)
    requires
        m.is_nearest(target, r1),
        m.is_nearest(target, r2),
    ensures
        r1 == r2,
{
    if r1 < r2 {
        assert(m.distance(target, r2) < m.distance(target, r1));
        assert(m.distance(target, r1) <= m.distance(target, r2));
    } else if r2 < r1 {
        assert(m.distance(target, r1) < m.distance(target, r2));
        assert(m.distance(target, r2) <= m.distance(target, r1));
    }
}

/// A target that is a power of two and is the size of some level selects a
/// level of exactly that size, and the first such level.
pub proof fn lemma_exact_size_is_selected(m: Metadata, target: u32, j: int, r: int)
    requires
        0 <= j < m.thumbs@.len(),
        target == next_pow2(m.dimension(j) as nat),
        m.is_nearest(target, r),
    ensures
        next_pow2(m.dimension(r) as nat) == target,
        r <= j,
        forall|i: int| 0 <= i < r ==> next_pow2(m.dimension(i) as nat) != target,
{
    assert(m.distance(target, j) == 0);
    assert(m.distance(target, r) <= m.distance(target, j));
    lemma_same_bits_same_size(m.dimension(r), target);
    if j < r {
        assert(m.distance(target, r) < m.distance(target, j));
    }
    assert forall|i: int| 0 <= i < r implies next_pow2(m.dimension(i) as nat) != target by {
        assert(m.distance(target, r) < m.distance(target, i));
    }
}

/// A level whose size has the bit length of a power of two is of that size.
proof fn lemma_same_bits_same_size(dim: u32, target: u32)
    requires
        exists|d: u32| target == next_pow2(d as nat),
        level_bits(dim) == bit_length(target as nat),
    ensures
        next_pow2(dim as nat) == target,
{
    let d = choose|d: u32| target == next_pow2(d as nat);
    lemma_level_bits(dim);
    lemma_level_bits(d);
    lemma2_to64();
}

} // verus!
