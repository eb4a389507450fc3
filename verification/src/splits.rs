//! Splitting of large triangles into several references before
//! clustering.
//!
//! A triangle whose box is much larger than the average is cut into slabs
//! along the longest axis of its box. Each slab gets a reference whose box
//! is the box of the part of the triangle within the slab: of the corners
//! that lie in the slab and of the points at which the edges pass through
//! the two planes of the slab, rounded outward to the grid.
use vstd::prelude::*;
use crate::aabb::{Aabb, Point};
use crate::config::MAX_REFERENCES;
use crate::cwbvh::{lemma_div_floor, lemma_div_within};
use crate::primitive::{Boundable, PrimitiveReference, Triangle, lemma_triangle_bound};
use crate::setup::{bounds_of, unsplit};

verus! {

/// A dividend below `m + 1` divisors has a quotient of at most `m`.
pub proof fn lemma_div_below(x: int, d: int, m: int)
    by (nonlinear_arith)
    requires
        0 <= x < (m + 1) * d,
        0 < d,
        0 <= m,
    ensures
        0 <= x / d <= m,
{
}

/// A multiple of the divisor divides without a rest, rounded down or up.
pub proof fn lemma_div_exact(t: int, d: int)
    by (nonlinear_arith)
    requires
        0 <= t,
        0 < d,
    ensures
        (d * t) / d == t,
        (d * t + d - 1) / d == t,
{
}

/// Rounding down gives no more than rounding up.
pub proof fn lemma_div_up(x: int, d: int)
    by (nonlinear_arith)
    requires
        0 <= x,
        0 < d,
    ensures
        x / d <= (x + d - 1) / d,
{
}

/// A part of a difference of coordinates is within the difference, and the
/// products that yield it fit 64 bits.
pub proof fn lemma_scaled(d: int, t: int, den: int)
    by (nonlinear_arith)
    requires
        0 <= d <= 0xffff_ffff,
        0 < t < den <= 0xffff_ffff,
    ensures
        0 <= d * t <= d * den,
        d * t + den - 1 < (d + 1) * den,
        d * t + den < 0x1_0000_0000_0000_0000,
{
}

/// The least grid value at or below the point at which the segment from
/// `(pa, pc)` to `(qa, qc)` reaches `s` in its first coordinate.
pub open spec fn spec_cross_lo(pa: int, pc: int, qa: int, qc: int, s: int) -> int {
    let den = qa - pa;
    let t = s - pa;
    if qc >= pc {
        pc + ((qc - pc) * t) / den
    } else {
        pc - ((pc - qc) * t + den - 1) / den
    }
}

/// The least grid value at or above that point.
pub open spec fn spec_cross_hi(pa: int, pc: int, qa: int, qc: int, s: int) -> int {
    let den = qa - pa;
    let t = s - pa;
    if qc >= pc {
        pc + ((qc - pc) * t + den - 1) / den
    } else {
        pc - ((pc - qc) * t) / den
    }
}

/// Both roundings lie between the two ends, the lower no higher than the
/// upper; where the second coordinate is the first, both are `s`.
pub proof fn lemma_cross_range(pa: int, pc: int, qa: int, qc: int, s: int)
    requires
        pa < s < qa,
        qa - pa <= 0xffff_ffff,
        -0x8000_0000 <= pc <= 0x7fff_ffff,
        -0x8000_0000 <= qc <= 0x7fff_ffff,
    ensures
        spec_cross_lo(pa, pc, qa, qc, s) <= spec_cross_hi(pa, pc, qa, qc, s),
        pc <= qc ==> pc <= spec_cross_lo(pa, pc, qa, qc, s) && spec_cross_hi(pa, pc, qa, qc, s)
            <= qc,
        qc <= pc ==> qc <= spec_cross_lo(pa, pc, qa, qc, s) && spec_cross_hi(pa, pc, qa, qc, s)
            <= pc,
        pc == pa && qc == qa ==> spec_cross_lo(pa, pc, qa, qc, s) == s && spec_cross_hi(
            pa,
            pc,
            qa,
            qc,
            s,
        ) == s,
{
    let den = qa - pa;
    let t = s - pa;
    let d = if qc >= pc {
        qc - pc
    } else {
        pc - qc
    };
    lemma_scaled(d, t, den);
    lemma_div_within(d * t, den, d);
    lemma_div_below(d * t + den - 1, den, d);
    lemma_div_up(d * t, den);
    lemma_div_floor(d * t, den);
    if pc == pa && qc == qa {
        lemma_div_exact(t, den);
    }
}

/// The crossing of a segment with a plane, rounded down.
pub fn cross_lo(pa: i32, pc: i32, qa: i32, qc: i32, s: i32) -> (r: i32)
    requires
        pa < s < qa,
    ensures
        r == spec_cross_lo(pa as int, pc as int, qa as int, qc as int, s as int),
{
    let den: u64 = (qa as i64 - pa as i64) as u64;
    let t: u64 = (s as i64 - pa as i64) as u64;
    proof {
        lemma_cross_range(pa as int, pc as int, qa as int, qc as int, s as int);
    }
    if qc >= pc {
        let d: u64 = (qc as i64 - pc as i64) as u64;
        proof {
            lemma_scaled(d as int, t as int, den as int);
        }
        (pc as i64 + ((d * t) / den) as i64) as i32
    } else {
        let d: u64 = (pc as i64 - qc as i64) as u64;
        proof {
            lemma_scaled(d as int, t as int, den as int);
        }
        (pc as i64 - ((d * t + den - 1) / den) as i64) as i32
    }
}

/// The crossing of a segment with a plane, rounded up.
pub fn cross_hi(pa: i32, pc: i32, qa: i32, qc: i32, s: i32) -> (r: i32)
    requires
        pa < s < qa,
    ensures
        r == spec_cross_hi(pa as int, pc as int, qa as int, qc as int, s as int),
{
    let den: u64 = (qa as i64 - pa as i64) as u64;
    let t: u64 = (s as i64 - pa as i64) as u64;
    proof {
        lemma_cross_range(pa as int, pc as int, qa as int, qc as int, s as int);
    }
    if qc >= pc {
        let d: u64 = (qc as i64 - pc as i64) as u64;
        proof {
            lemma_scaled(d as int, t as int, den as int);
        }
        (pc as i64 + ((d * t + den - 1) / den) as i64) as i32
    } else {
        let d: u64 = (pc as i64 - qc as i64) as u64;
        proof {
            lemma_scaled(d as int, t as int, den as int);
        }
        (pc as i64 - ((d * t) / den) as i64) as i32
    }
}

/// The segment from `p` to `q` passes through the plane `s` of `axis`,
/// with an end on either side.
pub open spec fn crosses(p: Point, q: Point, axis: int, s: int) -> bool {
    (p.coord(axis) < s < q.coord(axis)) || (q.coord(axis) < s < p.coord(axis))
}

/// The box, rounded outward, of the point at which the segment from `p`
/// to `q`, with `p` below the plane `s` of `axis` and `q` above it, passes
/// through that plane.
pub open spec fn spec_cross_box(p: Point, q: Point, axis: int, s: int) -> Aabb {
    let pa = p.coord(axis);
    let qa = q.coord(axis);
    Aabb {
        min: Point {
            x: spec_cross_lo(pa, p.x as int, qa, q.x as int, s) as i32,
            y: spec_cross_lo(pa, p.y as int, qa, q.y as int, s) as i32,
            z: spec_cross_lo(pa, p.z as int, qa, q.z as int, s) as i32,
        },
        max: Point {
            x: spec_cross_hi(pa, p.x as int, qa, q.x as int, s) as i32,
            y: spec_cross_hi(pa, p.y as int, qa, q.y as int, s) as i32,
            z: spec_cross_hi(pa, p.z as int, qa, q.z as int, s) as i32,
        },
    }
}

/// `b`, grown to hold the point at which the segment from `p` to `q`
/// passes through the plane `s` of `axis`, if it does.
pub open spec fn spec_add_crossing(b: Aabb, p: Point, q: Point, axis: int, s: int) -> Aabb {
    if p.coord(axis) < s < q.coord(axis) {
        b.spec_union(spec_cross_box(p, q, axis, s))
    } else if q.coord(axis) < s < p.coord(axis) {
        b.spec_union(spec_cross_box(q, p, axis, s))
    } else {
        b
    }
}

/// `b`, grown to hold the corner `p` if that lies in the slab, and the
/// points at which the edge from `p` to `q` passes through the planes of
/// the slab.
pub open spec fn spec_add_edge(b: Aabb, p: Point, q: Point, axis: int, lo: int, hi: int) -> Aabb {
    let with_corner = if lo <= p.coord(axis) <= hi {
        b.spec_extend(p)
    } else {
        b
    };
    spec_add_crossing(spec_add_crossing(with_corner, p, q, axis, lo), p, q, axis, hi)
}

/// The box of the part of the triangle within the slab from `lo` to `hi`
/// along `axis`.
#[verifier::opaque]
pub open spec fn spec_clip(t: Triangle, axis: int, lo: int, hi: int) -> Aabb {
    spec_add_edge(
        spec_add_edge(spec_add_edge(Aabb::spec_empty(), t.v0, t.v1, axis, lo, hi), t.v1, t.v2, axis, lo, hi),
        t.v2,
        t.v0,
        axis,
        lo,
        hi,
    )
}

fn cross_box(p: &Point, q: &Point, axis: u8, s: i32) -> (b: Aabb)
    requires
        axis < 3,
        p.coord(axis as int) < s < q.coord(axis as int),
    ensures
        b == spec_cross_box(*p, *q, axis as int, s as int),
{
    let pa: i32 = p.get(axis);
    let qa: i32 = q.get(axis);
    Aabb {
        min: Point {
            x: cross_lo(pa, p.x, qa, q.x, s),
            y: cross_lo(pa, p.y, qa, q.y, s),
            z: cross_lo(pa, p.z, qa, q.z, s),
        },
        max: Point {
            x: cross_hi(pa, p.x, qa, q.x, s),
            y: cross_hi(pa, p.y, qa, q.y, s),
            z: cross_hi(pa, p.z, qa, q.z, s),
        },
    }
}

fn add_crossing(b: Aabb, p: &Point, q: &Point, axis: u8, s: i32) -> (r: Aabb)
    requires
        axis < 3,
    ensures
        r == spec_add_crossing(b, *p, *q, axis as int, s as int),
{
    let pa: i32 = p.get(axis);
    let qa: i32 = q.get(axis);
    if pa < s && s < qa {
        b.union(cross_box(p, q, axis, s))
    } else if qa < s && s < pa {
        b.union(cross_box(q, p, axis, s))
    } else {
        b
    }
}

fn add_edge(b: Aabb, p: &Point, q: &Point, axis: u8, lo: i32, hi: i32) -> (r: Aabb)
    requires
        axis < 3,
    ensures
        r == spec_add_edge(b, *p, *q, axis as int, lo as int, hi as int),
{
    let pa: i32 = p.get(axis);
    let with_corner = if lo <= pa && pa <= hi {
        b.extend(*p)
    } else {
        b
    };
    add_crossing(add_crossing(with_corner, p, q, axis, lo), p, q, axis, hi)
}

/// The box of the part of the triangle within a slab.
pub fn clip(t: &Triangle, axis: u8, lo: i32, hi: i32) -> (b: Aabb)
    requires
        axis < 3,
    ensures
        b == spec_clip(*t, axis as int, lo as int, hi as int),
{
    proof {
        reveal(spec_clip);
    }
    let b0 = add_edge(Aabb::empty(), &t.v0, &t.v1, axis, lo, hi);
    let b1 = add_edge(b0, &t.v1, &t.v2, axis, lo, hi);
    add_edge(b1, &t.v2, &t.v0, axis, lo, hi)
}

/// `b` lies in `outer`, or holds nothing.
pub open spec fn within_or_empty(b: Aabb, outer: Aabb) -> bool {
    b == Aabb::spec_empty() || (outer.contains(b) && b.valid())
}

/// The box of a crossing lies in every valid box that holds both ends.
pub proof fn lemma_cross_box_within(p: Point, q: Point, axis: int, s: int, outer: Aabb)
    requires
        0 <= axis < 3,
        p.coord(axis) < s < q.coord(axis),
        outer.valid(),
        outer.contains_point(p),
        outer.contains_point(q),
    ensures
        outer.contains(spec_cross_box(p, q, axis, s)),
        spec_cross_box(p, q, axis, s).valid(),
        spec_cross_box(p, q, axis, s).min.coord(axis) == s,
        spec_cross_box(p, q, axis, s).max.coord(axis) == s,
{
    let pa = p.coord(axis);
    let qa = q.coord(axis);
    lemma_cross_range(pa, p.x as int, qa, q.x as int, s);
    lemma_cross_range(pa, p.y as int, qa, q.y as int, s);
    lemma_cross_range(pa, p.z as int, qa, q.z as int, s);
}

/// `b` holds nothing, or lies within the slab from `lo` to `hi`.
pub open spec fn in_slab(b: Aabb, axis: int, lo: int, hi: int) -> bool {
    b.valid() ==> lo <= b.min.coord(axis) && b.max.coord(axis) <= hi
}

/// The union of a box that holds nothing or lies within `outer` and the
/// slab, and a valid box that lies within both, is valid, lies within
/// both, and holds the two.
pub proof fn lemma_union_within(a: Aabb, c: Aabb, outer: Aabb, axis: int, lo: int, hi: int)
    requires
        0 <= axis < 3,
        outer.valid(),
        within_or_empty(a, outer),
        in_slab(a, axis, lo, hi),
        c.valid(),
        outer.contains(c),
        lo <= c.min.coord(axis),
        c.max.coord(axis) <= hi,
    ensures
        a.spec_union(c).valid(),
        outer.contains(a.spec_union(c)),
        in_slab(a.spec_union(c), axis, lo, hi),
        a.spec_union(c).contains(c),
        a.valid() ==> a.spec_union(c).contains(a),
{
}

/// Growing a box by a crossing keeps it within the triangle's bound and
/// within the slab, and keeps what it held.
pub proof fn lemma_add_crossing(
    b: Aabb,
    p: Point,
    q: Point,
    axis: int,
    s: int,
    lo: int,
    hi: int,
    outer: Aabb,
)
    requires
        0 <= axis < 3,
        lo <= s <= hi,
        outer.valid(),
        outer.contains_point(p),
        outer.contains_point(q),
        within_or_empty(b, outer),
        in_slab(b, axis, lo, hi),
    ensures
        ({
            let r = spec_add_crossing(b, p, q, axis, s);
            &&& within_or_empty(r, outer)
            &&& in_slab(r, axis, lo, hi)
            &&& b.valid() ==> r.valid() && r.contains(b)
            &&& crosses(p, q, axis, s) ==> r.valid()
        }),
{
    if p.coord(axis) < s < q.coord(axis) {
        let c = spec_cross_box(p, q, axis, s);
        lemma_cross_box_within(p, q, axis, s, outer);
        lemma_union_within(b, c, outer, axis, lo, hi);
    } else if q.coord(axis) < s < p.coord(axis) {
        let c = spec_cross_box(q, p, axis, s);
        lemma_cross_box_within(q, p, axis, s, outer);
        lemma_union_within(b, c, outer, axis, lo, hi);
    }
}

/// Growing a box by an edge keeps it within the triangle's bound and
/// within the slab, keeps what it held, and takes in the corner if that
/// lies in the slab.
pub proof fn lemma_add_edge(b: Aabb, p: Point, q: Point, axis: int, lo: int, hi: int, outer: Aabb)
    requires
        0 <= axis < 3,
        lo <= hi,
        outer.valid(),
        outer.contains_point(p),
        outer.contains_point(q),
        within_or_empty(b, outer),
        in_slab(b, axis, lo, hi),
    ensures
        ({
            let r = spec_add_edge(b, p, q, axis, lo, hi);
            &&& within_or_empty(r, outer)
            &&& in_slab(r, axis, lo, hi)
            &&& b.valid() ==> r.valid() && r.contains(b)
            &&& lo <= p.coord(axis) <= hi ==> r.valid() && r.contains_point(p)
            &&& crosses(p, q, axis, lo) || crosses(p, q, axis, hi) ==> r.valid()
        }),
{
    let corner = Aabb { min: p, max: p };
    let b1 = if lo <= p.coord(axis) <= hi {
        b.spec_extend(p)
    } else {
        b
    };
    if lo <= p.coord(axis) <= hi {
        assert(b.spec_extend(p) == b.spec_union(corner));
        lemma_union_within(b, corner, outer, axis, lo, hi);
    }
    let b2 = spec_add_crossing(b1, p, q, axis, lo);
    lemma_add_crossing(b1, p, q, axis, lo, lo, hi, outer);
    lemma_add_crossing(b2, p, q, axis, hi, lo, hi, outer);
}

/// The box of the part of a triangle within a slab lies within the
/// triangle's bound and within the slab, and holds every corner that lies
/// in the slab; it holds something wherever the slab meets the bound.
pub proof fn lemma_clip(t: Triangle, axis: int, lo: int, hi: int)
    requires
        t.in_range(),
        0 <= axis < 3,
        lo <= hi,
    ensures
        ({
            let c = spec_clip(t, axis, lo, hi);
            &&& within_or_empty(c, t.bound())
            &&& in_slab(c, axis, lo, hi)
            &&& lo <= t.v0.coord(axis) <= hi ==> c.valid() && c.contains_point(t.v0)
            &&& lo <= t.v1.coord(axis) <= hi ==> c.valid() && c.contains_point(t.v1)
            &&& lo <= t.v2.coord(axis) <= hi ==> c.valid() && c.contains_point(t.v2)
            &&& lo <= t.bound().max.coord(axis) && t.bound().min.coord(axis) <= hi ==> c.valid()
        }),
{
    reveal(spec_clip);
    let outer = t.bound();
    lemma_triangle_bound(t);
    let b0 = Aabb::spec_empty();
    let b1 = spec_add_edge(b0, t.v0, t.v1, axis, lo, hi);
    lemma_add_edge(b0, t.v0, t.v1, axis, lo, hi, outer);
    let b2 = spec_add_edge(b1, t.v1, t.v2, axis, lo, hi);
    lemma_add_edge(b1, t.v1, t.v2, axis, lo, hi, outer);
    lemma_add_edge(b2, t.v2, t.v0, axis, lo, hi, outer);
}

/// Most pieces that one triangle is cut into.
pub const MAX_PIECES: u32 = 8;

/// The axis along which the box is longest; the first of equals.
pub open spec fn spec_longest_axis(b: Aabb) -> int {
    if b.extent(0) >= b.extent(1) && b.extent(0) >= b.extent(2) {
        0
    } else if b.extent(1) >= b.extent(2) {
        1
    } else {
        2
    }
}

/// The axis along which the box is longest; the first of equals.
pub fn longest_axis(b: &Aabb) -> (axis: u8)
    ensures
        axis == spec_longest_axis(*b),
        axis < 3,
{
    let ex: i64 = b.max.x as i64 - b.min.x as i64;
    let ey: i64 = b.max.y as i64 - b.min.y as i64;
    let ez: i64 = b.max.z as i64 - b.min.z as i64;
    if ex >= ey && ex >= ez {
        0
    } else if ey >= ez {
        1
    } else {
        2
    }
}

/// The number of pieces for a triangle whose box has half-area `area` and
/// the length `extent` along its longest axis, with `left` more
/// references allowed: one, unless the largest half-area of all is more
/// than 8 times the average and `area` is more than 4 times the average;
/// then one more than `area` holds 4 times the average plus 1, but no
/// more than `MAX_PIECES`, than `extent`, and than `left + 1`.
#[verifier::opaque]
pub open spec fn spec_pieces(area: int, average: int, largest: int, extent: int, left: int) -> int {
    let base = 4 * average + 1;
    if largest > 8 * average && area >= base {
        let want = area / base + 1;
        let a = if want > MAX_PIECES as int {
            MAX_PIECES as int
        } else {
            want
        };
        let b = if extent < a {
            extent
        } else {
            a
        };
        let c = if left + 1 < b {
            left + 1
        } else {
            b
        };
        if c >= 2 {
            c
        } else {
            1
        }
    } else {
        1
    }
}

/// The number of pieces for a triangle.
pub fn pieces(area: u64, average: u64, largest: u64, extent: u64, left: usize) -> (k: u32)
    ensures
        k == spec_pieces(area as int, average as int, largest as int, extent as int, left as int),
        1 <= k <= MAX_PIECES,
        k >= 2 ==> k <= extent && k <= left + 1,
{
    proof {
        reveal(spec_pieces);
    }
    let base: u128 = 4 * (average as u128) + 1;
    if (largest as u128) > 8 * (average as u128) && (area as u128) >= base {
        let want: u128 = (area as u128) / base + 1;
        let a: u128 = if want > MAX_PIECES as u128 {
            MAX_PIECES as u128
        } else {
            want
        };
        let b: u128 = if (extent as u128) < a {
            extent as u128
        } else {
            a
        };
        let c: u128 = if (left as u128) + 1 < b {
            (left as u128) + 1
        } else {
            b
        };
        if c >= 2 {
            c as u32
        } else {
            1
        }
    } else {
        1
    }
}

/// The lower plane of slab `j` of `k` slabs of the box along `axis`.
#[verifier::opaque]
pub open spec fn slab_lo(b: Aabb, axis: int, k: int, j: int) -> int {
    b.min.coord(axis) + (b.extent(axis) / k) * j
}

/// The upper plane of that slab: the lower plane of the next, or the far
/// side of the box for the last slab.
pub open spec fn slab_hi(b: Aabb, axis: int, k: int, j: int) -> int {
    if j == k - 1 {
        b.max.coord(axis)
    } else {
        slab_lo(b, axis, k, j + 1)
    }
}

/// The box of piece `j` of a triangle cut into `k` pieces.
pub open spec fn spec_piece(t: Triangle, k: int, j: int) -> Aabb {
    let b = t.bound();
    let axis = spec_longest_axis(b);
    spec_clip(t, axis, slab_lo(b, axis, k, j), slab_hi(b, axis, k, j))
}

/// The slabs are at least one wide, and all but the last, together, no wider
/// than the box is long.
pub proof fn lemma_slab_widths(extent: int, k: int, j: int)
    by (nonlinear_arith)
    requires
        1 <= k <= extent,
        0 <= j < k,
    ensures
        1 <= extent / k,
        0 <= (extent / k) * j,
        (extent / k) * (j + 1) == (extent / k) * j + extent / k,
        (extent / k) * (j + 1) <= extent,
        (extent / k) * 0 == 0,
{
}

/// The slabs start at the near side of the box, each is as wide as the
/// box is long, divided by their number and rounded down, and none
/// reaches beyond the far side.
pub proof fn lemma_slabs(b: Aabb, axis: int, k: int, j: int)
    requires
        1 <= k <= b.extent(axis),
        0 <= j < k,
    ensures
        slab_lo(b, axis, k, 0) == b.min.coord(axis),
        slab_lo(b, axis, k, j + 1) == slab_lo(b, axis, k, j) + b.extent(axis) / k,
        b.min.coord(axis) <= slab_lo(b, axis, k, j) <= slab_lo(b, axis, k, j + 1) <= b.max.coord(
            axis,
        ),
        slab_lo(b, axis, k, j) <= slab_hi(b, axis, k, j) <= b.max.coord(axis),
{
    reveal(slab_lo);
    lemma_slab_widths(b.extent(axis), k, j);
}

/// Where a corner is housed once a piece has been put in its place: the
/// corners below the slab were housed before, those in the slab are in
/// the piece.
pub proof fn lemma_corner_housed(
    before: Seq<PrimitiveReference>,
    after: Seq<PrimitiveReference>,
    i: int,
    v: Point,
    piece: Aabb,
    place: int,
    first: bool,
    c: int,
    lo: int,
    hi: int,
)
    requires
        0 <= place < after.len(),
        after[place] == (PrimitiveReference { aabb: piece, index: i as u32 }),
        0 <= i <= u32::MAX,
        before.len() <= after.len(),
        !first ==> forall|m: int| 0 <= m < before.len() ==> #[trigger] after[m] == before[m],
        first ==> lo <= c,
        c < lo ==> housed(before, i, v),
        lo <= c <= hi ==> piece.contains_point(v),
        c <= hi,
    ensures
        housed(after, i, v),
{
    if c < lo {
        let m = choose|m: int|
            0 <= m < before.len() && (#[trigger] before[m]).index == i
                && before[m].aabb.contains_point(v);
        assert(after[m] == before[m]);
    } else {
        assert(after[place].aabb.contains_point(v));
    }
}

/// The number of references that the triangles before `i` have added.
pub open spec fn spent(bounds: Seq<Aabb>, average: int, largest: int, budget: int, i: int) -> int
    decreases i,
{
    if i <= 0 {
        0
    } else {
        let before = spent(bounds, average, largest, budget, i - 1);
        before + pieces_at(bounds, average, largest, i - 1, budget - before) - 1
    }
}

/// The number of pieces of triangle `i` with `left` more references
/// allowed.
pub open spec fn pieces_at(bounds: Seq<Aabb>, average: int, largest: int, i: int, left: int) -> int {
    spec_pieces(
        bounds[i].spec_half_area(),
        average,
        largest,
        bounds[i].extent(spec_longest_axis(bounds[i])),
        left,
    )
}

/// The number of references that splitting may add to `n`: as many again,
/// within `MAX_REFERENCES` in all.
pub open spec fn spec_budget(n: int) -> int {
    if n <= MAX_REFERENCES - n {
        n
    } else {
        MAX_REFERENCES - n
    }
}

/// Some reference of triangle `i` holds the point `v`.
pub open spec fn housed(refs: Seq<PrimitiveReference>, i: int, v: Point) -> bool {
    exists|m: int|
        0 <= m < refs.len() && (#[trigger] refs[m]).index == i && refs[m].aabb.contains_point(v)
}

/// Where the pieces of triangle `i` stand and what they are: the first in
/// the triangle's own place, the others in a row behind the references of
/// the triangles before it.
pub open spec fn pieces_placed(
    refs: Seq<PrimitiveReference>,
    tris: Seq<Triangle>,
    average: int,
    largest: int,
    i: int,
) -> bool {
    let n = tris.len() as int;
    let bounds = bounds_of(tris);
    let before = spent(bounds, average, largest, spec_budget(n), i);
    let k = pieces_at(bounds, average, largest, i, spec_budget(n) - before);
    &&& refs[i].index == i
    &&& refs[i].aabb == if k == 1 {
        bounds[i]
    } else {
        spec_piece(tris[i], k, 0)
    }
    &&& forall|j: int|
        1 <= j < k ==> #[trigger] refs[n + before + j - 1] == (PrimitiveReference {
            aabb: spec_piece(tris[i], k, j),
            index: i as u32,
        })
}

/// What splitting makes of one reference per triangle: every triangle has
/// its pieces in their places; every reference lies within the bound of
/// its triangle; and every corner of every triangle lies in one of the
/// triangle's references.
pub open spec fn split_of(
    refs: Seq<PrimitiveReference>,
    tris: Seq<Triangle>,
    average: int,
    largest: int,
) -> bool {
    let n = tris.len() as int;
    let bounds = bounds_of(tris);
    &&& refs.len() == n + spent(bounds, average, largest, spec_budget(n), n)
    &&& n <= refs.len() <= n + spec_budget(n)
    &&& forall|i: int| 0 <= i < n ==> #[trigger] pieces_placed(refs, tris, average, largest, i)
    &&& forall|m: int|
        0 <= m < refs.len() ==> {
            &&& (#[trigger] refs[m]).index < n
            &&& refs[m].aabb.valid()
            &&& bounds[refs[m].index as int].contains(refs[m].aabb)
        }
    &&& forall|i: int|
        0 <= i < n ==> housed(refs, i, (#[trigger] tris[i]).v0) && housed(refs, i, tris[i].v1)
            && housed(refs, i, tris[i].v2)
}

/// Cuts the triangle `t`, whose reference stands at `i`, into `k` pieces:
/// the first takes the place of the reference, the others go to the end.
pub fn cut(references: &mut Vec<PrimitiveReference>, t: &Triangle, i: usize, k: u32)
    requires
        t.in_range(),
        i < old(references)@.len(),
        i <= u32::MAX,
        2 <= k <= MAX_PIECES,
        k <= t.bound().extent(spec_longest_axis(t.bound())),
        old(references)@.len() + k <= usize::MAX,
    ensures
        final(references)@.len() == old(references)@.len() + k - 1,
        final(references)@[i as int] == (PrimitiveReference {
            aabb: spec_piece(*t, k as int, 0),
            index: i as u32,
        }),
        forall|j: int|
            1 <= j < k ==> #[trigger] final(references)@[old(references)@.len() + j - 1] == (
            PrimitiveReference { aabb: spec_piece(*t, k as int, j), index: i as u32 }),
        forall|m: int|
            0 <= m < old(references)@.len() && m != i ==> #[trigger] final(references)@[m] == old(
                references,
            )@[m],
        forall|j: int|
            0 <= j < k ==> (#[trigger] spec_piece(*t, k as int, j)).valid() && t.bound().contains(
                spec_piece(*t, k as int, j),
            ),
        housed(final(references)@, i as int, t.v0),
        housed(final(references)@, i as int, t.v1),
        housed(final(references)@, i as int, t.v2),
{
    let b: Aabb = t.aabb();
    let axis: u8 = longest_axis(&b);
    let far: i32 = b.max.get(axis);
    let near: i32 = b.min.get(axis);
    let extent: i64 = far as i64 - near as i64;
    let width: i64 = extent / (k as i64);
    let ghost start = references@;
    let ghost len0 = references@.len() as int;
    let mut lo: i32 = near;
    let mut j: u32 = 0;
    proof {
        lemma_triangle_bound(*t);
        lemma_slabs(b, axis as int, k as int, 0);
    }
    while j < k
        invariant
            t.in_range(),
            b == t.bound(),
            b.valid(),
            axis == spec_longest_axis(b),
            axis < 3,
            far == b.max.coord(axis as int),
            near == b.min.coord(axis as int),
            extent == b.extent(axis as int),
            width == (extent as int) / (k as int),
            2 <= k <= MAX_PIECES,
            k <= extent,
            j <= k,
            i < len0,
            i <= u32::MAX,
            len0 == start.len(),
            len0 + k <= usize::MAX,
            j < k ==> lo == slab_lo(b, axis as int, k as int, j as int),
            j == k ==> lo == far,
            near <= lo <= far,
            b.contains_point(t.v0),
            b.contains_point(t.v1),
            b.contains_point(t.v2),
            references@.len() == if j == 0 {
                len0
            } else {
                len0 + j - 1
            },
            j == 0 ==> references@ == start,
            j > 0 ==> references@[i as int] == (PrimitiveReference {
                aabb: spec_piece(*t, k as int, 0),
                index: i as u32,
            }),
            forall|c: int|
                1 <= c < j ==> #[trigger] references@[len0 + c - 1] == (PrimitiveReference {
                    aabb: spec_piece(*t, k as int, c),
                    index: i as u32,
                }),
            forall|m: int| 0 <= m < len0 && m != i ==> #[trigger] references@[m] == start[m],
            forall|c: int|
                0 <= c < j ==> (#[trigger] spec_piece(*t, k as int, c)).valid() && b.contains(
                    spec_piece(*t, k as int, c),
                ),
            j > 0 ==> (t.v0.coord(axis as int) <= lo ==> housed(references@, i as int, t.v0)),
            j > 0 ==> (t.v1.coord(axis as int) <= lo ==> housed(references@, i as int, t.v1)),
            j > 0 ==> (t.v2.coord(axis as int) <= lo ==> housed(references@, i as int, t.v2)),
        decreases k - j,
    {
        proof {
            lemma_slabs(b, axis as int, k as int, j as int);
        }
        let hi: i32 = if j == k - 1 {
            far
        } else {
            (lo as i64 + width) as i32
        };
        assert(hi == slab_hi(b, axis as int, k as int, j as int));
        let piece: Aabb = clip(t, axis, lo, hi);
        proof {
            lemma_clip(*t, axis as int, lo as int, hi as int);
            assert(piece == spec_piece(*t, k as int, j as int));
        }
        let ghost before = references@;
        let entry = PrimitiveReference { aabb: piece, index: i as u32 };
        if j == 0 {
            references.set(i, entry);
        } else {
            references.push(entry);
        }
        let ghost place: int = if j == 0 {
            i as int
        } else {
            len0 + j - 1
        };
        proof {
            assert(references@[place] == entry);
            let a = axis as int;
            if t.v0.coord(a) <= hi {
                lemma_corner_housed(before, references@, i as int, t.v0, piece, place, j == 0, t.v0.coord(a), lo as int, hi as int);
            }
            if t.v1.coord(a) <= hi {
                lemma_corner_housed(before, references@, i as int, t.v1, piece, place, j == 0, t.v1.coord(a), lo as int, hi as int);
            }
            if t.v2.coord(a) <= hi {
                lemma_corner_housed(before, references@, i as int, t.v2, piece, place, j == 0, t.v2.coord(a), lo as int, hi as int);
            }
        }
        lo = hi;
        j = j + 1;
    }
}

/// Splits the references of large triangles. `references` holds one
/// reference per triangle on entry; `avg_half_area` and
/// `largest_half_area` are the average and the largest half-area of their
/// boxes.
pub fn split_aabbs_preset(
    references: &mut Vec<PrimitiveReference>,
    triangles: &[Triangle],
    avg_half_area: u64,
    largest_half_area: u64,
)
    requires
        old(references)@ == unsplit(bounds_of(triangles@)),
        triangles@.len() <= MAX_REFERENCES,
        forall|i: int| 0 <= i < triangles@.len() ==> (#[trigger] triangles@[i]).in_range(),
    ensures
        split_of(
            final(references)@,
            triangles@,
            avg_half_area as int,
            largest_half_area as int,
        ),
{
    let n: usize = triangles.len();
    let budget: usize = if n <= MAX_REFERENCES - n {
        n
    } else {
        MAX_REFERENCES - n
    };
    let ghost tris = triangles@;
    let ghost bounds = bounds_of(tris);
    let ghost whole = unsplit(bounds);
    let ghost avg = avg_half_area as int;
    let ghost largest = largest_half_area as int;
    let mut extra: usize = 0;
    let mut i: usize = 0;
    proof {
        assert forall|m: int| 0 <= m < references@.len() implies {
            &&& (#[trigger] references@[m]).index < n
            &&& references@[m].aabb.valid()
            &&& bounds[references@[m].index as int].contains(references@[m].aabb)
        } by {
            lemma_triangle_bound(tris[m]);
        }
    }
    while i < n
        invariant
            n == triangles@.len(),
            tris == triangles@,
            bounds == bounds_of(tris),
            whole == unsplit(bounds),
            avg == avg_half_area,
            largest == largest_half_area,
            n <= MAX_REFERENCES,
            budget == spec_budget(n as int),
            forall|c: int| 0 <= c < n ==> (#[trigger] tris[c]).in_range(),
            i <= n,
            references@.len() == n + extra,
            extra == spent(bounds, avg, largest, budget as int, i as int),
            extra <= budget,
            forall|c: int| i <= c < n ==> #[trigger] references@[c] == whole[c],
            forall|c: int| 0 <= c < i ==> #[trigger] pieces_placed(references@, tris, avg, largest, c),
            forall|m: int|
                0 <= m < references@.len() ==> {
                    &&& (#[trigger] references@[m]).index < n
                    &&& references@[m].aabb.valid()
                    &&& bounds[references@[m].index as int].contains(references@[m].aabb)
                },
            forall|c: int|
                0 <= c < i ==> housed(references@, c, (#[trigger] tris[c]).v0) && housed(
                    references@,
                    c,
                    tris[c].v1,
                ) && housed(references@, c, tris[c].v2),
        decreases n - i,
    {
        let t: &Triangle = &triangles[i];
        let b: Aabb = references[i].aabb;
        proof {
            assert(references@[i as int] == whole[i as int]);
            assert(b == t.bound());
            lemma_triangle_bound(*t);
        }
        let axis: u8 = longest_axis(&b);
        let extent: u64 = (b.max.get(axis) as i64 - b.min.get(axis) as i64) as u64;
        let k: u32 = pieces(b.half_area(), avg_half_area, largest_half_area, extent, budget - extra);
        let ghost before = references@;
        if k >= 2 {
            cut(references, t, i, k);
            proof {
                assert forall|c: int| 0 <= c < i implies #[trigger] pieces_placed(
                    references@,
                    tris,
                    avg,
                    largest,
                    c,
                ) by {
                    assert(pieces_placed(before, tris, avg, largest, c));
                    let s = spent(bounds, avg, largest, budget as int, c);
                    let kc = pieces_at(bounds, avg, largest, c, budget - s);
                    lemma_spent_grows(bounds, avg, largest, budget as int, c + 1, i as int);
                    lemma_spent_grows(bounds, avg, largest, budget as int, c, c);
                    assert(spent(bounds, avg, largest, budget as int, c + 1) == s + kc - 1);
                    assert forall|j: int| 1 <= j < kc implies #[trigger] references@[n + s + j - 1]
                        == (PrimitiveReference {
                        aabb: spec_piece(tris[c], kc, j),
                        index: c as u32,
                    }) by {
                        assert(before[n + s + j - 1] == (PrimitiveReference {
                            aabb: spec_piece(tris[c], kc, j),
                            index: c as u32,
                        }));
                    }
                }
                assert forall|m: int| 0 <= m < references@.len() implies {
                    &&& (#[trigger] references@[m]).index < n
                    &&& references@[m].aabb.valid()
                    &&& bounds[references@[m].index as int].contains(references@[m].aabb)
                } by {
                    if m == i {
                        assert(spec_piece(*t, k as int, 0).valid());
                    } else if m < before.len() {
                        assert(references@[m] == before[m]);
                    } else {
                        let j = m - before.len() + 1;
                        assert(references@[before.len() + j - 1] == (PrimitiveReference {
                            aabb: spec_piece(*t, k as int, j),
                            index: i as u32,
                        }));
                        assert(spec_piece(*t, k as int, j).valid());
                    }
                }
                assert forall|c: int| 0 <= c < i implies housed(
                    references@,
                    c,
                    (#[trigger] tris[c]).v0,
                ) && housed(references@, c, tris[c].v1) && housed(references@, c, tris[c].v2) by {
                    lemma_housed_kept(before, references@, c, tris[c].v0, i as int);
                    lemma_housed_kept(before, references@, c, tris[c].v1, i as int);
                    lemma_housed_kept(before, references@, c, tris[c].v2, i as int);
                }
                assert(pieces_placed(references@, tris, avg, largest, i as int));
            }
            extra = extra + (k as usize - 1);
        } else {
            proof {
                assert(references@[i as int].aabb.contains_point(t.v0));
                assert(housed(references@, i as int, t.v0));
                assert(housed(references@, i as int, t.v1));
                assert(housed(references@, i as int, t.v2));
                assert(pieces_placed(references@, tris, avg, largest, i as int));
            }
        }
        i = i + 1;
    }
}

/// The references added before a triangle are no more than those added
/// before a later one.
pub proof fn lemma_spent_grows(
    bounds: Seq<Aabb>,
    average: int,
    largest: int,
    budget: int,
    i: int,
    j: int,
)
    requires
        0 <= i <= j,
    ensures
        0 <= spent(bounds, average, largest, budget, i) <= spent(
            bounds,
            average,
            largest,
            budget,
            j,
        ),
    decreases j,
{
    reveal(spec_pieces);
    if j > 0 {
        if i < j {
            lemma_spent_grows(bounds, average, largest, budget, i, j - 1);
        } else {
            lemma_spent_grows(bounds, average, largest, budget, i - 1, j - 1);
        }
    }
}

/// A point that was housed stays housed when references of another
/// triangle change and references are added.
pub proof fn lemma_housed_kept(
    before: Seq<PrimitiveReference>,
    after: Seq<PrimitiveReference>,
    c: int,
    v: Point,
    i: int,
)
    requires
        housed(before, c, v),
        c != i,
        0 <= i < before.len(),
        before[i].index == i,
        before.len() <= after.len(),
        forall|m: int| 0 <= m < before.len() && m != i ==> #[trigger] after[m] == before[m],
    ensures
        housed(after, c, v),
{
    let m = choose|m: int|
        0 <= m < before.len() && (#[trigger] before[m]).index == c && before[m].aabb.contains_point(
            v,
        );
    assert(after[m] == before[m]);
}

} // verus!
