//! Two-component integer vectors: grid coordinates and extents.

use vstd::prelude::*;

verus! {

/// The key under which the coordinate pair `(x, y)` is stored: `x` in the
/// high half, `y` in the low half, so that keys are ordered as the pairs are,
/// first component first.
pub open spec fn pair_key(x: u32, y: u32) -> u64 {
    (x * 0x1_0000_0000 + y) as u64
}

/// The key under which a coordinate pair is stored.
pub open spec fn coords_key_spec(coords: [u32; 2]) -> u64 {
    pair_key(coords[0], coords[1])
}

/// The coordinate pair that a key stands for.
pub open spec fn key_coords_spec(key: u64) -> Seq<u32> {
    seq![(key / 0x1_0000_0000) as u32, (key % 0x1_0000_0000) as u32]
}

/// The component-wise sum, computed by `vecmath::vec2_add`.
///
/// Trusted: for `u32` components `vecmath::vec2_add` returns
/// `[a[0] + b[0], a[1] + b[1]]`. Each sum must fit in a `u32`, because the
/// addition inside it may otherwise panic.
#[verifier::external_body]
pub(crate) fn vec2_add(a: [u32; 2], b: [u32; 2]) -> (r: [u32; 2])
    requires
        a[0] + b[0] <= u32::MAX,
        a[1] + b[1] <= u32::MAX,
    ensures
        r[0] == a[0] + b[0],
        r[1] == a[1] + b[1],
{
    vecmath::vec2_add(a, b)
}

/// The component-wise minimum.
pub fn vec2_min(a: [u32; 2], b: [u32; 2]) -> (r: [u32; 2])
    ensures
        r[0] == if a[0] <= b[0] { a[0] } else { b[0] },
        r[1] == if a[1] <= b[1] { a[1] } else { b[1] },
{
    [if a[0] <= b[0] { a[0] } else { b[0] }, if a[1] <= b[1] { a[1] } else { b[1] }]
}

/// The component-wise maximum.
pub fn vec2_max(a: [u32; 2], b: [u32; 2]) -> (r: [u32; 2])
    ensures
        r[0] == if a[0] >= b[0] { a[0] } else { b[0] },
        r[1] == if a[1] >= b[1] { a[1] } else { b[1] },
{
    [if a[0] >= b[0] { a[0] } else { b[0] }, if a[1] >= b[1] { a[1] } else { b[1] }]
}

/// The component-wise quotient, rounded down. No component of `b` may be 0.
pub fn vec2_div(a: [u32; 2], b: [u32; 2]) -> (r: [u32; 2])
    requires
        b[0] > 0,
        b[1] > 0,
    ensures
        r[0] == a[0] / b[0],
        r[1] == a[1] / b[1],
{
    [a[0] / b[0], a[1] / b[1]]
}

/// The grid cell of the image with sequence number `i` in a grid that is
/// `grid_size[0]` cells wide: column `i % width`, row `i / width`. The width
/// must not be 0. A row beyond `u32::MAX` is kept modulo 2^32.
pub fn i2c(i: usize, grid_size: [u32; 2]) -> (r: [u32; 2])
    requires
        grid_size[0] > 0,
    ensures
        r[0] == i as int % grid_size[0] as int,
        r[1] == (i as int / grid_size[0] as int) % 0x1_0000_0000,
{
    let w: u64 = grid_size[0] as u64;
    let n: u64 = i as u64;
    [(n % w) as u32, ((n / w) % 0x1_0000_0000u64) as u32]
}

/// Packs a coordinate pair into its key.
pub fn coords_key(coords: [u32; 2]) -> (key: u64)
    ensures
        key == coords_key_spec(coords),
        key_coords_spec(key) == coords@,
{
    let key: u64 = (coords[0] as u64) * 0x1_0000_0000u64 + (coords[1] as u64);
    proof {
        assert(key_coords_spec(key) =~= coords@);
    }
    key
}

/// Unpacks a key into its coordinate pair.
pub fn key_coords(key: u64) -> (coords: [u32; 2])
    ensures
        coords@ == key_coords_spec(key),
        coords_key_spec(coords) == key,
{
    let coords: [u32; 2] = [(key / 0x1_0000_0000u64) as u32, (key % 0x1_0000_0000u64) as u32];
    proof {
        assert(coords@ =~= key_coords_spec(key));
    }
    coords
}

} // verus!
