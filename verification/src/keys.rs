//! Spatial sort keys: bit-interleaved positions of box centres.
use vstd::prelude::*;
use crate::aabb::Aabb;
use crate::config::MAX_AXIS_BITS;

verus! {

/// Number of distinct keys of `bits` bits per axis: 8 to the power `bits`.
pub open spec fn key_limit(bits: int) -> int
    decreases bits,
{
    if bits <= 0 {
        1
    } else {
        8 * key_limit(bits - 1)
    }
}

/// Number of cells along one axis: 2 to the power `bits`.
pub open spec fn axis_cells(bits: int) -> int
    decreases bits,
{
    if bits <= 0 {
        1
    } else {
        2 * axis_cells(bits - 1)
    }
}

/// The low `bits` bits of `x`, `y` and `z`, interleaved: bit `i` of `x`
/// lands on bit `3 i` of the result, that of `y` on `3 i + 1`, that of `z`
/// on `3 i + 2`.
pub open spec fn spec_interleave(x: int, y: int, z: int, bits: int) -> int
    decreases bits,
{
    if bits <= 0 {
        0
    } else {
        8 * spec_interleave(x / 2, y / 2, z / 2, bits - 1) + (x % 2) + 2 * (y % 2) + 4 * (z % 2)
    }
}

/// Keys of up to `MAX_AXIS_BITS` bits per axis fit 63 bits, and their cells 21.
pub proof fn lemma_key_limit(bits: int)
    requires
        0 <= bits <= MAX_AXIS_BITS,
    ensures
        1 <= key_limit(bits) <= 0x8000_0000_0000_0000,
        1 <= axis_cells(bits) <= 0x20_0000,
    decreases MAX_AXIS_BITS - bits,
{
    if bits == MAX_AXIS_BITS {
        reveal_with_fuel(key_limit, 22);
        reveal_with_fuel(axis_cells, 22);
        assert(key_limit(21) == 0x8000_0000_0000_0000);
        assert(axis_cells(21) == 0x20_0000);
    } else {
        lemma_key_limit(bits + 1);
        assert(key_limit(bits + 1) == 8 * key_limit(bits));
        assert(axis_cells(bits + 1) == 2 * axis_cells(bits));
        lemma_limits_positive(bits);
    }
}

/// There is at least one key and one cell.
pub proof fn lemma_limits_positive(bits: int)
    ensures
        1 <= key_limit(bits),
        1 <= axis_cells(bits),
    decreases bits,
{
    if bits > 0 {
        lemma_limits_positive(bits - 1);
    }
}

/// The low `bits` bits of `x`, `y` and `z`, interleaved.
pub fn interleave(x: u32, y: u32, z: u32, bits: u8) -> (k: u64)
    requires
        bits <= MAX_AXIS_BITS,
    ensures
        k == spec_interleave(x as int, y as int, z as int, bits as int),
        k < key_limit(bits as int),
    decreases bits,
{
    if bits == 0 {
        0
    } else {
        let upper: u64 = interleave(x / 2, y / 2, z / 2, bits - 1);
        proof {
            lemma_key_limit(bits as int);
            assert(key_limit(bits as int) == 8 * key_limit(bits - 1));
        }
        let low: u64 = (x % 2) as u64 + 2 * ((y % 2) as u64) + 4 * ((z % 2) as u64);
        8 * upper + low
    }
}

/// The cell count `2^bits` of one axis.
pub fn cells(bits: u8) -> (c: u64)
    requires
        bits <= MAX_AXIS_BITS,
    ensures
        c == axis_cells(bits as int),
        1 <= c <= 0x20_0000,
    decreases bits,
{
    proof {
        lemma_key_limit(bits as int);
    }
    if bits == 0 {
        1
    } else {
        let half: u64 = cells(bits - 1);
        2 * half
    }
}

/// The cell, among `cells` of them, of the centre of the interval
/// `[lo, hi]` within the interval `[scene_lo, scene_hi]`. The centre is
/// clamped to the scene; a scene without extent has the single cell 0.
pub open spec fn spec_cell_of(lo: int, hi: int, scene_lo: int, scene_hi: int, cells: int) -> int {
    let span = 2 * (scene_hi - scene_lo);
    let twice = lo + hi - 2 * scene_lo;
    let offset = if twice < 0 {
        0
    } else if twice > span {
        span
    } else {
        twice
    };
    if span <= 0 {
        0
    } else {
        (offset * (cells - 1)) / span
    }
}

/// A share of `m`, rounded down, is at most `m`.
pub proof fn lemma_cell_bound(offset: int, span: int, m: int)
    by (nonlinear_arith)
    requires
        0 <= offset <= span,
        0 < span,
        0 <= m,
    ensures
        0 <= (offset * m) / span <= m,
        0 <= offset * m <= span * m,
{
}

/// The cell of the centre of an interval within the scene.
pub fn cell_of(lo: i32, hi: i32, scene_lo: i32, scene_hi: i32, cells: u64) -> (q: u32)
    requires
        1 <= cells <= 0x20_0000,
    ensures
        q == spec_cell_of(lo as int, hi as int, scene_lo as int, scene_hi as int, cells as int),
        q < cells,
{
    let span: i64 = 2 * (scene_hi as i64 - scene_lo as i64);
    if span <= 0 {
        return 0;
    }
    let twice: i64 = lo as i64 + hi as i64 - 2 * (scene_lo as i64);
    let offset: u64 = if twice < 0 {
        0
    } else if twice > span {
        span as u64
    } else {
        twice as u64
    };
    let m: u64 = cells - 1;
    proof {
        lemma_cell_bound(offset as int, span as int, m as int);
        assert(span as int * m as int <= 0x2_0000_0000 * 0x20_0000) by (nonlinear_arith)
            requires
                0 < span <= 0x2_0000_0000,
                0 <= m <= 0x20_0000,
        ;
    }
    let q: u64 = (offset * m) / (span as u64);
    q as u32
}

/// The sort key of `b` in a scene bounded by `scene`, with `bits` bits per
/// axis: the interleaved cells of its centre.
pub open spec fn spec_spatial_key(b: Aabb, scene: Aabb, bits: int) -> int {
    let c = axis_cells(bits);
    spec_interleave(
        spec_cell_of(b.min.x as int, b.max.x as int, scene.min.x as int, scene.max.x as int, c),
        spec_cell_of(b.min.y as int, b.max.y as int, scene.min.y as int, scene.max.y as int, c),
        spec_cell_of(b.min.z as int, b.max.z as int, scene.min.z as int, scene.max.z as int, c),
        bits,
    )
}

/// The sort key of `b` in a scene bounded by `scene`.
pub fn spatial_key(b: &Aabb, scene: &Aabb, bits: u8) -> (k: u64)
    requires
        bits <= MAX_AXIS_BITS,
    ensures
        k == spec_spatial_key(*b, *scene, bits as int),
        k < key_limit(bits as int),
{
    let c: u64 = cells(bits);
    let qx: u32 = cell_of(b.min.x, b.max.x, scene.min.x, scene.max.x, c);
    let qy: u32 = cell_of(b.min.y, b.max.y, scene.min.y, scene.max.y, c);
    let qz: u32 = cell_of(b.min.z, b.max.z, scene.min.z, scene.max.z, c);
    interleave(qx, qy, qz, bits)
}

} // verus!
