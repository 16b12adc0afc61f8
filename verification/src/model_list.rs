//! The shape library: pure geometric predicates (ellipsoid-shell and
//! line-segment proximity) and the per-model placement classifier that
//! decides, for one integer coordinate inside an edit region, whether a
//! voxel of the chosen model exists there, with which color and normal.
//!
//! All tests are exact integer arithmetic: the ellipsoid and distance
//! comparisons are cross-multiplied so no fraction is ever formed. A
//! degenerate axis (zero semi-axis) makes the membership test false.

use vstd::prelude::*;

verus! {

use crate::MILLI;
use crate::geom::{
    SHAPE_BOUND,
    div_floor,
    div_trunc,
    fdiv,
    in_world,
    pos_of,
    tdiv,
};
use crate::voxel::{Instance, VoxelType};

/// The square of an integer.
pub open spec fn sqz(v: int) -> int {
    v * v
}

/// Product of three squares, the building block of the ellipsoid test.
pub open spec fn prod3(x: int, y: int, z: int) -> int {
    sqz(x) * sqz(y) * sqz(z)
}

/// Truncating midpoint of two coordinates.
pub open spec fn mid(a: int, b: int) -> int {
    tdiv(a + b, 2)
}

/// All three components lie within the shape library's working range.
pub open spec fn shape_bounded(p: (int, int, int)) -> bool {
    -SHAPE_BOUND <= p.0 <= SHAPE_BOUND && -SHAPE_BOUND <= p.1 <= SHAPE_BOUND && -SHAPE_BOUND <= p.2
        <= SHAPE_BOUND
}

/// Membership in the hollow ellipsoid shell spanned by `[first, last]`:
/// inside the outer ellipsoid whose semi-axes are the half-extents of
/// the region, and not inside the inner ellipsoid whose semi-axes are
/// shrunk by the fixed inside diameter of 5 units. Both comparisons are
/// the cross-multiplied exact forms of `sum(offset^2 / semi_axis^2) < 1`
/// (respectively `> 1`); a zero semi-axis makes the test false.
pub open spec fn on_ellipsoid_shell(
    first: (int, int, int),
    last: (int, int, int),
    p: (int, int, int),
) -> bool {
    let a = tdiv(last.0 - first.0, 2);
    let b = tdiv(last.1 - first.1, 2);
    let c = tdiv(last.2 - first.2, 2);
    let ox = p.0 - first.0 - a;
    let oy = p.1 - first.1 - b;
    let oz = p.2 - first.2 - c;
    let aa = a - 5;
    let bb = b - 5;
    let cc = c - 5;
    let inside = prod3(ox, b, c) + prod3(oy, a, c) + prod3(oz, a, b) < prod3(a, b, c);
    let outside = prod3(ox, bb, cc) + prod3(oy, aa, cc) + prod3(oz, aa, bb) > prod3(aa, bb, cc);
    outside && inside
}

/// Proximity to the line through `first` and `last`: the perpendicular
/// distance is below 3 units (compared as `|cross|^2 < 9 |dir|^2`), and
/// the point lies on the depth slice of the segment's midpoint third
/// axis.
pub open spec fn on_line_segment(
    first: (int, int, int),
    last: (int, int, int),
    p: (int, int, int),
) -> bool {
    let ux = last.0 - first.0;
    let uy = last.1 - first.1;
    let uz = last.2 - first.2;
    let wx = last.0 - p.0;
    let wy = last.1 - p.1;
    let wz = last.2 - p.2;
    let cx = uy * wz - uz * wy;
    let cy = uz * wx - ux * wz;
    let cz = ux * wy - uy * wx;
    sqz(cx) + sqz(cy) + sqz(cz) < 9 * (sqz(ux) + sqz(uy) + sqz(uz)) && p.2 == mid(first.2, last.2)
}

/// Integer square root, rounded down.
pub open spec fn spec_isqrt(n: nat) -> nat
    decreases n,
{
    if n == 0 {
        0
    } else {
        let r = spec_isqrt((n - 1) as nat);
        if (r + 1) * (r + 1) <= n {
            r + 1
        } else {
            r
        }
    }
}

/// `spec_isqrt` is the floor of the square root.
pub proof fn lemma_isqrt(n: nat)
    ensures
        spec_isqrt(n) * spec_isqrt(n) <= n,
        n < (spec_isqrt(n) + 1) * (spec_isqrt(n) + 1),
    decreases n,
{
    if n > 0 {
        lemma_isqrt((n - 1) as nat);
        let r = spec_isqrt((n - 1) as nat);
        if (r + 1) * (r + 1) <= n {
            assert(spec_isqrt(n) == r + 1);
            assert(n < (r + 2) * (r + 2)) by (nonlinear_arith)
                requires
                    n - 1 < (r + 1) * (r + 1),
                    r >= 0,
            ;
            assert((r + 1 + 1) * (r + 1 + 1) == (r + 2) * (r + 2));
        } else {
            assert(spec_isqrt(n) == r);
            assert(r * r <= n - 1 <= n);
            assert(n < (r + 1) * (r + 1));
        }
    } else {
        assert(n == 0);
        assert(spec_isqrt(n) == 0);
        assert(n < 1);
        assert((spec_isqrt(n) + 1) * (spec_isqrt(n) + 1) == 1) by (nonlinear_arith)
            requires
                spec_isqrt(n) == 0,
        ;
    }
}

/// The floor square root is unique.
pub proof fn lemma_isqrt_unique(n: nat, r: nat)
    requires
        r * r <= n,
        n < (r + 1) * (r + 1),
    ensures
        r == spec_isqrt(n),
{
    lemma_isqrt(n);
    let s = spec_isqrt(n);
    assert(r == s) by (nonlinear_arith)
        requires
            r * r <= n < (r + 1) * (r + 1),
            s * s <= n < (s + 1) * (s + 1),
            r >= 0,
            s >= 0,
    ;
}

/// Integer square root on machine integers, by bisection.
pub fn isqrt64(n: u64) -> (r: u64)
    requires
        n < 0x4000000000000000,
    ensures
        r == spec_isqrt(n as nat),
        r * r <= n,
{
    let mut lo: u64 = 0;
    let mut hi: u64 = 0x80000000;
    proof {
        assert((0x80000000u64 as int) * (0x80000000u64 as int) > n) by (nonlinear_arith)
            requires
                n < 0x4000000000000000,
        ;
    }
    while hi - lo > 1
        invariant
            lo < hi <= 0x80000000,
            (lo as int) * (lo as int) <= n,
            n < (hi as int) * (hi as int),
        decreases hi - lo,
    {
        let m = lo + (hi - lo) / 2;
        proof {
            assert((m as int) * (m as int) <= 0x4000000000000000i64) by (nonlinear_arith)
                requires
                    0 <= m <= 0x80000000,
            ;
        }
        if m * m <= n {
            lo = m;
        } else {
            hi = m;
        }
    }
    proof {
        lemma_isqrt_unique(n as nat, lo as nat);
    }
    lo
}

/// The outward milli-unit normal of a sphere-shell voxel: the direction
/// from the region's center to the point, normalized to length one and
/// truncated componentwise.
pub open spec fn spec_sphere_normal(
    first: (int, int, int),
    last: (int, int, int),
    p: (int, int, int),
) -> [i32; 3] {
    let dx = 2 * p.0 - first.0 - last.0;
    let dy = 2 * p.1 - first.1 - last.1;
    let dz = 2 * p.2 - first.2 - last.2;
    let len = spec_isqrt((dx * dx + dy * dy + dz * dz) as nat);
    if len == 0 {
        [0i32, 0i32, 0i32]
    } else {
        [
            tdiv(1000 * dx, len as int) as i32,
            tdiv(1000 * dy, len as int) as i32,
            tdiv(1000 * dz, len as int) as i32,
        ]
    }
}

/// Product of three squares on machine integers: one point offset and
/// two semi-axes of an ellipsoid test.
fn shell_prod3(x: i64, y: i64, z: i64) -> (r: i128)
    requires
        -3_300_000 <= x <= 3_300_000,
        -1_100_000 <= y <= 1_100_000,
        -1_100_000 <= z <= 1_100_000,
    ensures
        r == prod3(x as int, y as int, z as int),
        0 <= r <= 17_000_000_000_000_000_000_000_000_000_000_000_000,
{
    proof {
        assert(0 <= (x as int) * (x as int) <= 10_890_000_000_000) by (nonlinear_arith)
            requires
                -3_300_000 <= x <= 3_300_000,
        ;
        assert(0 <= (y as int) * (y as int) <= 1_210_000_000_000) by (nonlinear_arith)
            requires
                -1_100_000 <= y <= 1_100_000,
        ;
        assert(0 <= (z as int) * (z as int) <= 1_210_000_000_000) by (nonlinear_arith)
            requires
                -1_100_000 <= z <= 1_100_000,
        ;
    }
    let x2: i128 = (x as i128) * (x as i128);
    let y2: i128 = (y as i128) * (y as i128);
    let z2: i128 = (z as i128) * (z as i128);
    proof {
        assert(0 <= (x2 as int) * (y2 as int) <= 14_000_000_000_000_000_000_000_000)
            by (nonlinear_arith)
            requires
                0 <= x2 <= 10_890_000_000_000,
                0 <= y2 <= 1_210_000_000_000,
        ;
    }
    let xy: i128 = x2 * y2;
    proof {
        assert(0 <= (xy as int) * (z2 as int) <= 17_000_000_000_000_000_000_000_000_000_000_000_000)
            by (nonlinear_arith)
            requires
                0 <= xy <= 14_000_000_000_000_000_000_000_000,
                0 <= z2 <= 1_210_000_000_000,
        ;
    }
    xy * z2
}

/// The exact ellipsoid-shell membership test. Relied on throughout the
/// shape library for domes, spheres and the round parts of the digit
/// glyphs.
pub fn to_ellipsoid(first: [i32; 3], last: [i32; 3], point: [i32; 3]) -> (r: bool)
    requires
        shape_bounded(pos_of(first)),
        shape_bounded(pos_of(last)),
        shape_bounded(pos_of(point)),
    ensures
        r == on_ellipsoid_shell(pos_of(first), pos_of(last), pos_of(point)),
{
    let a = div_trunc(last[0] as i64 - first[0] as i64, 2);
    let b = div_trunc(last[1] as i64 - first[1] as i64, 2);
    let c = div_trunc(last[2] as i64 - first[2] as i64, 2);
    proof {
        crate::geom::lemma_tdiv_abs(last[0] as int - first[0] as int, 2);
        crate::geom::lemma_tdiv_abs(last[1] as int - first[1] as int, 2);
        crate::geom::lemma_tdiv_abs(last[2] as int - first[2] as int, 2);
    }
    let ox = point[0] as i64 - first[0] as i64 - a;
    let oy = point[1] as i64 - first[1] as i64 - b;
    let oz = point[2] as i64 - first[2] as i64 - c;
    let aa = a - 5;
    let bb = b - 5;
    let cc = c - 5;
    let inside = shell_prod3(ox, b, c) + shell_prod3(oy, a, c) + shell_prod3(oz, a, b)
        < shell_prod3(a, b, c);
    let outside = shell_prod3(ox, bb, cc) + shell_prod3(oy, aa, cc) + shell_prod3(oz, aa, bb)
        > shell_prod3(aa, bb, cc);
    outside && inside
}

/// Signed product difference on machine integers: one component of a
/// cross product.
fn cross_comp(a: i64, b: i64, c: i64, d: i64) -> (r: i64)
    requires
        -2_100_000 <= a <= 2_100_000,
        -4_200_000 <= b <= 4_200_000,
        -2_100_000 <= c <= 2_100_000,
        -4_200_000 <= d <= 4_200_000,
    ensures
        r == a * b - c * d,
        -17_640_000_000_000 <= r <= 17_640_000_000_000,
{
    proof {
        assert(-8_820_000_000_000 <= (a as int) * (b as int) <= 8_820_000_000_000)
            by (nonlinear_arith)
            requires
                -2_100_000 <= a <= 2_100_000,
                -4_200_000 <= b <= 4_200_000,
        ;
        assert(-8_820_000_000_000 <= (c as int) * (d as int) <= 8_820_000_000_000)
            by (nonlinear_arith)
            requires
                -2_100_000 <= c <= 2_100_000,
                -4_200_000 <= d <= 4_200_000,
        ;
    }
    a * b - c * d
}

/// The square of a cross-product component, widened.
fn sq_wide(v: i64) -> (r: i128)
    requires
        -17_640_000_000_000 <= v <= 17_640_000_000_000,
    ensures
        r == sqz(v as int),
        0 <= r <= 0x1_0000_0000_0000_0000_0000_0000_0000,
{
    proof {
        assert(0 <= (v as int) * (v as int) <= 0x1_0000_0000_0000_0000_0000_0000_0000)
            by (nonlinear_arith)
            requires
                -17_640_000_000_000 <= v <= 17_640_000_000_000,
        ;
    }
    (v as i128) * (v as i128)
}

/// The exact line-proximity test. Relied on for the straight strokes of
/// the digit glyphs and the pillar model.
pub fn to_line(first: [i32; 3], last: [i32; 3], point: [i32; 3]) -> (r: bool)
    requires
        shape_bounded(pos_of(first)),
        shape_bounded(pos_of(last)),
        shape_bounded(pos_of(point)),
    ensures
        r == on_line_segment(pos_of(first), pos_of(last), pos_of(point)),
{
    let ux = last[0] as i64 - first[0] as i64;
    let uy = last[1] as i64 - first[1] as i64;
    let uz = last[2] as i64 - first[2] as i64;
    let wx = last[0] as i64 - point[0] as i64;
    let wy = last[1] as i64 - point[1] as i64;
    let wz = last[2] as i64 - point[2] as i64;
    let cx = cross_comp(uy, wz, uz, wy);
    let cy = cross_comp(uz, wx, ux, wz);
    let cz = cross_comp(ux, wy, uy, wx);
    let cross_sq = sq_wide(cx) + sq_wide(cy) + sq_wide(cz);
    let dir_sq = sq_wide(ux) + sq_wide(uy) + sq_wide(uz);
    let near = cross_sq < 9 * dir_sq;
    let slice = point[2] as i64 == div_trunc(first[2] as i64 + last[2] as i64, 2);
    near && slice
}

/// A placed voxel with the library's fixed render-blend strengths.
pub open spec fn spec_voxel(
    x: int,
    y: int,
    z: int,
    color: [i32; 4],
    normal: [i32; 3],
) -> Instance {
    Instance {
        position: [x as i32, y as i32, z as i32],
        color,
        normal,
        depth_strength: 500,
        normal_strength: 1000,
        light_strength: 0,
        current_type: VoxelType::Object,
    }
}

/// The checkerboard tile color: white where the 64-unit floor tiles of
/// the x and z axes have equal parity, the request color elsewhere.
pub open spec fn spec_checker_color(x: int, z: int, color: [i32; 4]) -> [i32; 4] {
    if (fdiv(x, 64) + fdiv(z, 64)) % 2 == 0 {
        [1000i32, 1000i32, 1000i32, color[3]]
    } else {
        color
    }
}

/// Face membership of a hollow box: the point touches at least one of
/// the six boundary planes of `[first, last]`.
pub open spec fn on_box_face(first: (int, int, int), last: (int, int, int), p: (int, int, int)) -> bool {
    p.0 == first.0 || p.0 == last.0 || p.1 == first.1 || p.1 == last.1 || p.2 == first.2 || p.2
        == last.2
}

/// Digit glyph 1: a vertical pillar stroke through the region's center
/// column.
pub open spec fn glyph_one(first: (int, int, int), last: (int, int, int), p: (int, int, int)) -> bool {
    let cx = mid(first.0, last.0);
    let cz = mid(first.2, last.2);
    on_line_segment((cx, first.1, cz), (cx, last.1, cz), p)
}

/// Digit glyph 2: an upper bowl, a lower-left bowl and a base stroke.
pub open spec fn glyph_two(first: (int, int, int), last: (int, int, int), p: (int, int, int)) -> bool {
    let midx = mid(first.0, last.0);
    let midy = mid(first.1, last.1);
    let midz = mid(first.2, last.2);
    let up_f = (first.0, midy, first.2);
    let up_l = last;
    let down_f = (first.0, first.1 - tdiv(last.1 - first.1, 2) - 5, first.2);
    let down_l = (last.0, midy + 5, last.2);
    let line_f = (first.0, first.1, midz);
    let line_l = (last.0, first.1, midz);
    (on_ellipsoid_shell(up_f, up_l, p) && (p.1 >= tdiv(midy + last.1, 2) || p.0 >= midx))
        || (on_ellipsoid_shell(down_f, down_l, p) && p.0 < midx) || on_line_segment(
        line_f,
        line_l,
        p,
    )
}

/// Digit glyph 3: two stacked bowls open to the left.
pub open spec fn glyph_three(first: (int, int, int), last: (int, int, int), p: (int, int, int)) -> bool {
    let midx = mid(first.0, last.0);
    let midy = mid(first.1, last.1);
    let up_f = (first.0, midy, first.2);
    let up_l = last;
    let down_f = first;
    let down_l = (last.0, midy + 5, last.2);
    (on_ellipsoid_shell(up_f, up_l, p) && (p.1 >= tdiv(midy + last.1, 2) || p.0 >= midx))
        || (on_ellipsoid_shell(down_f, down_l, p) && (p.1 <= first.1 + tdiv(last.1 - first.1, 4)
        || p.0 >= midx))
}

/// Digit glyph 4: a vertical stroke, a diagonal and a crossbar.
pub open spec fn glyph_four(first: (int, int, int), last: (int, int, int), p: (int, int, int)) -> bool {
    let midz = mid(first.2, last.2);
    let x14 = tdiv(mid(first.0, last.0) + last.0, 2);
    let y4 = first.1 + tdiv(last.1 - first.1, 4);
    let a1 = (x14, first.1, midz);
    let b1 = (x14, last.1, midz);
    let b2 = (first.0, y4, midz);
    let b3 = (last.0, y4, midz);
    on_line_segment(a1, b1, p) || on_line_segment(b1, b2, p) || on_line_segment(b2, b3, p)
}

/// Digit glyph 5: a top bar, an upper-left stem, a middle bar and a
/// lower bowl.
pub open spec fn glyph_five(first: (int, int, int), last: (int, int, int), p: (int, int, int)) -> bool {
    let midx = mid(first.0, last.0);
    let midz = mid(first.2, last.2);
    let h = last.1 - tdiv(last.1 - first.1, 2);
    let a1 = (first.0 + tdiv(last.1 - first.1, 16), last.1 - 2, midz);
    let b1 = (last.0, last.1 - 2, midz);
    let b2 = (first.0 + 2, h, midz);
    let b3 = (midx, h, midz);
    let down_f = first;
    let down_l = (last.0, last.1 - tdiv(last.1 - first.1, 2) + 3, last.2);
    (on_line_segment(a1, b1, p) && p.0 > first.0 + tdiv(last.1 - first.1, 15) && p.0 < last.0
        - tdiv(last.1 - first.1, 16)) || (on_line_segment(a1, b2, p) && p.1 >= h)
        || (on_line_segment(b2, b3, p) && p.0 <= midx) || (on_ellipsoid_shell(down_f, down_l, p)
        && (p.1 <= tdiv(first.1 + last.1 - tdiv(last.1 - first.1, 2), 2) || p.0 >= midx))
}

/// Digit glyph 6: a full lower bowl, the top of the upper bowl and a
/// left stem between them.
pub open spec fn glyph_six(first: (int, int, int), last: (int, int, int), p: (int, int, int)) -> bool {
    let midy = mid(first.1, last.1);
    let midz = mid(first.2, last.2);
    let q = tdiv(midy + last.1, 2);
    let y4 = first.1 + tdiv(last.1 - first.1, 4);
    let up_f = (first.0, midy, first.2);
    let up_l = last;
    let down_f = first;
    let down_l = (last.0, last.1 - tdiv(last.1 - first.1, 2) + 3, last.2);
    let a1 = (first.0 + 2, last.1, midz);
    let b1 = (first.0 + 2, first.1, midz);
    on_ellipsoid_shell(down_f, down_l, p) || (on_ellipsoid_shell(up_f, up_l, p) && p.1 >= q) || (
    on_line_segment(a1, b1, p) && p.1 <= q && p.1 >= y4)
}

/// Digit glyph 7: a top bar and a diagonal stroke.
pub open spec fn glyph_seven(first: (int, int, int), last: (int, int, int), p: (int, int, int)) -> bool {
    let midx = mid(first.0, last.0);
    let midz = mid(first.2, last.2);
    let a1 = (first.0, last.1 - 2, midz);
    let b1 = (last.0, last.1 - 2, midz);
    let b2 = (midx, first.1 + 2, midz);
    on_line_segment(a1, b1, p) || on_line_segment(b1, b2, p)
}

/// Digit glyph 8: two stacked full bowls.
pub open spec fn glyph_eight(first: (int, int, int), last: (int, int, int), p: (int, int, int)) -> bool {
    let midy = mid(first.1, last.1);
    let up_f = (first.0, midy, first.2);
    let up_l = last;
    let down_f = first;
    let down_l = (last.0, midy + 5, last.2);
    on_ellipsoid_shell(up_f, up_l, p) || on_ellipsoid_shell(down_f, down_l, p)
}

/// Digit glyph 9: a full upper bowl, the bottom of the lower bowl and a
/// right stem between them.
pub open spec fn glyph_nine(first: (int, int, int), last: (int, int, int), p: (int, int, int)) -> bool {
    let midy = mid(first.1, last.1);
    let midz = mid(first.2, last.2);
    let q = tdiv(midy + last.1, 2);
    let y4 = first.1 + tdiv(last.1 - first.1, 4);
    let up_f = (first.0, midy, first.2);
    let up_l = last;
    let down_f = first;
    let down_l = (last.0, last.1 - tdiv(last.1 - first.1, 2) + 3, last.2);
    let a1 = (last.0 - 4, last.1, midz);
    let b1 = (last.0 - 4, first.1, midz);
    (on_ellipsoid_shell(down_f, down_l, p) && p.1 <= tdiv(last.1 - first.1, 4) + first.1)
        || on_ellipsoid_shell(up_f, up_l, p) || (on_line_segment(a1, b1, p) && p.1 <= q && p.1
        >= y4)
}

/// Digit glyph 0: an ellipsoid shell over the whole region.
pub open spec fn glyph_zero(first: (int, int, int), last: (int, int, int), p: (int, int, int)) -> bool {
    on_ellipsoid_shell(first, last, p)
}

/// The up normal shared by the digit glyphs, in milli-units.
pub open spec fn up_normal() -> [i32; 3] {
    [0i32, 1000i32, 0i32]
}

/// The placement classifier: decides whether a voxel of model `id`
/// exists at `(x, y, z)` inside the region `[first, last]`, and with
/// which color and normal. A pure function of its arguments; an unknown
/// model id never places a voxel.
pub open spec fn spec_parse_place(
    x: int,
    y: int,
    z: int,
    first: (int, int, int),
    last: (int, int, int),
    color: [i32; 4],
    id: int,
) -> Option<Instance> {
    let p = (x, y, z);
    if id == 0 {
        if on_box_face(first, last, p) {
            Some(
                spec_voxel(
                    x,
                    y,
                    z,
                    spec_checker_color(x, z, color),
                    spec_y_face_normal(first.1, last.1, y),
                ),
            )
        } else {
            None
        }
    } else if id == 1 {
        if glyph_one(first, last, p) {
            Some(spec_voxel(x, y, z, color, up_normal()))
        } else {
            None
        }
    } else if id == 2 {
        if glyph_two(first, last, p) {
            Some(spec_voxel(x, y, z, color, up_normal()))
        } else {
            None
        }
    } else if id == 3 {
        if glyph_three(first, last, p) {
            Some(spec_voxel(x, y, z, color, up_normal()))
        } else {
            None
        }
    } else if id == 4 {
        if glyph_four(first, last, p) {
            Some(spec_voxel(x, y, z, color, up_normal()))
        } else {
            None
        }
    } else if id == 5 {
        if glyph_five(first, last, p) {
            Some(spec_voxel(x, y, z, color, up_normal()))
        } else {
            None
        }
    } else if id == 6 {
        if glyph_six(first, last, p) {
            Some(spec_voxel(x, y, z, color, up_normal()))
        } else {
            None
        }
    } else if id == 7 {
        if glyph_seven(first, last, p) {
            Some(spec_voxel(x, y, z, color, up_normal()))
        } else {
            None
        }
    } else if id == 8 {
        if glyph_eight(first, last, p) {
            Some(spec_voxel(x, y, z, color, up_normal()))
        } else {
            None
        }
    } else if id == 9 {
        if glyph_nine(first, last, p) {
            Some(spec_voxel(x, y, z, color, up_normal()))
        } else {
            None
        }
    } else if id == 10 {
        if glyph_zero(first, last, p) {
            Some(spec_voxel(x, y, z, color, up_normal()))
        } else {
            None
        }
    } else if id == 11 {
        if on_box_face(first, last, p) {
            Some(spec_voxel(x, y, z, color, spec_y_face_normal(first.1, last.1, y)))
        } else {
            None
        }
    } else if id == 12 {
        if on_box_face(first, last, p) {
            Some(spec_voxel(x, y, z, color, spec_box_face_normal(first, last, p)))
        } else {
            None
        }
    } else if id == 13 {
        if y == first.1 {
            Some(spec_voxel(x, y, z, color, up_normal()))
        } else {
            None
        }
    } else if id == 14 {
        if on_ellipsoid_shell(first, last, p) {
            Some(spec_voxel(x, y, z, color, spec_sphere_normal(first, last, p)))
        } else {
            None
        }
    } else {
        None
    }
}

/// The vertical face normal of a floor-or-ceiling voxel: down on the
/// bottom plane, up on the top plane (the top wins when they coincide),
/// zero elsewhere.
pub open spec fn spec_y_face_normal(first_y: int, last_y: int, y: int) -> [i32; 3] {
    if y == last_y {
        [0i32, 1000i32, 0i32]
    } else if y == first_y {
        [0i32, -1000i32, 0i32]
    } else {
        [0i32, 0i32, 0i32]
    }
}

/// The outward face normal of a hollow-box voxel: sideways on the x and
/// z walls (the high wall wins over the low one), vertical only where no
/// side wall claims the voxel.
pub open spec fn spec_box_face_normal(
    first: (int, int, int),
    last: (int, int, int),
    p: (int, int, int),
) -> [i32; 3] {
    let nx: i32 = if p.0 == last.0 {
        1000i32
    } else if p.0 == first.0 {
        -1000i32
    } else {
        0i32
    };
    let nz: i32 = if p.2 == last.2 {
        1000i32
    } else if p.2 == first.2 {
        -1000i32
    } else {
        0i32
    };
    if nx == 0 && nz == 0 {
        spec_y_face_normal(first.1, last.1, p.1)
    } else {
        [nx, 0i32, nz]
    }
}

/// Law: the placement classifier is pure. Its result is a function of
/// the coordinate, region, color and model id alone, so two
/// classifications of the same arguments always agree; no hidden state
/// can influence a placement decision.
pub proof fn lemma_parse_place_pure(
    x: int,
    y: int,
    z: int,
    first: (int, int, int),
    last: (int, int, int),
    color: [i32; 4],
    id: int,
    r1: Option<Instance>,
    r2: Option<Instance>,
)
    requires
        r1 == spec_parse_place(x, y, z, first, last, color, id),
        r2 == spec_parse_place(x, y, z, first, last, color, id),
    ensures
        r1 == r2,
{
}

/// The truncating midpoint sits at the truncated half-extent above the
/// low end, or one past it when the extent is odd and the ends sum to a
/// negative number.
pub proof fn lemma_mid_offset(f: int, l: int)
    requires
        l - f >= 0,
    ensures
        mid(f, l) - f - tdiv(l - f, 2) == 0 || mid(f, l) - f - tdiv(l - f, 2) == 1,
{
    let d = l - f;
    let k = d / 2;
    vstd::arithmetic::div_mod::lemma_fundamental_div_mod(d, 2);
    vstd::arithmetic::div_mod::lemma_mod_bound(d, 2);
    let m = d % 2;
    assert(tdiv(d, 2) == k);
    if f + l >= 0 {
        vstd::arithmetic::div_mod::lemma_fundamental_div_mod_converse(f + l, 2, f + k, m);
        assert(mid(f, l) == f + k);
    } else {
        if m == 0 {
            vstd::arithmetic::div_mod::lemma_fundamental_div_mod_converse(-(f + l), 2, -(f + k), 0);
            assert(mid(f, l) == f + k);
        } else {
            vstd::arithmetic::div_mod::lemma_fundamental_div_mod_converse(
                -(f + l),
                2,
                -f - k - 1,
                1,
            );
            assert(mid(f, l) == f + k + 1);
        }
    }
}

/// Law: an ellipsoid-shell region is a hollow shell of finite
/// thickness. Whenever every semi-axis of `[first, last]` is at least 7
/// units, the region's center point never classifies as part of the
/// shell (it lies inside the inner ellipsoid) and the region's first
/// corner never classifies either (it lies outside the outer
/// ellipsoid).
pub proof fn lemma_shell_containment(first: (int, int, int), last: (int, int, int))
    requires
        tdiv(last.0 - first.0, 2) >= 7,
        tdiv(last.1 - first.1, 2) >= 7,
        tdiv(last.2 - first.2, 2) >= 7,
    ensures
        !on_ellipsoid_shell(
            first,
            last,
            (mid(first.0, last.0), mid(first.1, last.1), mid(first.2, last.2)),
        ),
        !on_ellipsoid_shell(first, last, first),
{
    let a = tdiv(last.0 - first.0, 2);
    let b = tdiv(last.1 - first.1, 2);
    let c = tdiv(last.2 - first.2, 2);
    let aa = a - 5;
    let bb = b - 5;
    let cc = c - 5;
    crate::geom::lemma_tdiv_abs(last.0 - first.0, 2);
    crate::geom::lemma_tdiv_abs(last.1 - first.1, 2);
    crate::geom::lemma_tdiv_abs(last.2 - first.2, 2);
    assert(last.0 - first.0 >= 0 && last.1 - first.1 >= 0 && last.2 - first.2 >= 0);
    // The corner: each oriented offset is the full negative semi-axis,
    // so the inner-ellipsoid test fails by a factor of three.
    assert(sqz(-a) == sqz(a) && sqz(-b) == sqz(b) && sqz(-c) == sqz(c)) by (nonlinear_arith);
    assert(prod3(-a, b, c) == prod3(a, b, c) && prod3(-b, a, c) == prod3(b, a, c) && prod3(
        -c,
        a,
        b,
    ) == prod3(c, a, b)) by (nonlinear_arith);
    assert(prod3(a, b, c) > 0 && prod3(b, a, c) > 0 && prod3(c, a, b) > 0) by (nonlinear_arith)
        requires
            a >= 7 && b >= 7 && c >= 7,
    ;
    assert(!(prod3(a, b, c) + prod3(b, a, c) + prod3(c, a, b) < prod3(a, b, c)));
    // The center: each oriented offset is 0 or 1, so the outer-ellipsoid
    // test cannot exceed one quarter per term.
    lemma_mid_offset(first.0, last.0);
    lemma_mid_offset(first.1, last.1);
    lemma_mid_offset(first.2, last.2);
    let cp0 = mid(first.0, last.0) - first.0 - a;
    let cp1 = mid(first.1, last.1) - first.1 - b;
    let cp2 = mid(first.2, last.2) - first.2 - c;
    let abig = sqz(aa);
    let bbig = sqz(bb);
    let cbig = sqz(cc);
    assert(abig >= 4 && bbig >= 4 && cbig >= 4) by (nonlinear_arith)
        requires
            aa >= 2 && bb >= 2 && cc >= 2,
            abig == sqz(aa) && bbig == sqz(bb) && cbig == sqz(cc),
    ;
    assert(sqz(cp0) <= 1 && sqz(cp1) <= 1 && sqz(cp2) <= 1) by (nonlinear_arith)
        requires
            0 <= cp0 <= 1 && 0 <= cp1 <= 1 && 0 <= cp2 <= 1,
    ;
    assert(prod3(cp0, bb, cc) <= bbig * cbig && prod3(cp1, aa, cc) <= abig * cbig && prod3(
        cp2,
        aa,
        bb,
    ) <= abig * bbig) by (nonlinear_arith)
        requires
            sqz(cp0) <= 1 && sqz(cp1) <= 1 && sqz(cp2) <= 1,
            0 <= sqz(cp0) && 0 <= sqz(cp1) && 0 <= sqz(cp2),
            abig == sqz(aa) && bbig == sqz(bb) && cbig == sqz(cc),
            abig >= 4 && bbig >= 4 && cbig >= 4,
    ;
    assert(bbig * cbig + abig * cbig + abig * bbig <= abig * bbig * cbig) by (nonlinear_arith)
        requires
            abig >= 4 && bbig >= 4 && cbig >= 4,
    ;
    assert(prod3(aa, bb, cc) == abig * bbig * cbig);
    assert(!(prod3(cp0, bb, cc) + prod3(cp1, aa, cc) + prod3(cp2, aa, bb) > prod3(aa, bb, cc)));
}

/// A voxel the classifier places carries the coordinate it was asked
/// about.
pub proof fn lemma_parse_place_some(
    x: int,
    y: int,
    z: int,
    first: (int, int, int),
    last: (int, int, int),
    color: [i32; 4],
    id: int,
)
    requires
        in_world((x, y, z)),
    ensures
        spec_parse_place(x, y, z, first, last, color, id).is_some() ==> pos_of(
            spec_parse_place(x, y, z, first, last, color, id).unwrap().position,
        ) == (x, y, z),
{
}

/// Coordinate triple as an array, pinned to its spec view.
fn arr3(a: i32, b: i32, c: i32) -> (r: [i32; 3])
    ensures
        pos_of(r) == (a as int, b as int, c as int),
        r == [a, b, c],
{
    [a, b, c]
}

/// Truncating midpoint on machine integers.
fn tmid(a: i32, b: i32) -> (r: i32)
    requires
        -262016 <= a <= 262015,
        -262016 <= b <= 262015,
    ensures
        r == mid(a as int, b as int),
        -524032 <= r <= 524032,
{
    proof {
        crate::geom::lemma_tdiv_abs(a as int + b as int, 2);
    }
    div_trunc(a as i64 + b as i64, 2) as i32
}

/// The up normal on machine integers.
fn up_n() -> (r: [i32; 3])
    ensures
        r == up_normal(),
{
    proof {
        assert([0i32, 1000i32, 0i32] =~= up_normal());
    }
    [0, 1000, 0]
}

/// A placed voxel on machine integers.
fn make_voxel(x: i32, y: i32, z: i32, color: [i32; 4], normal: [i32; 3]) -> (r: Instance)
    ensures
        r == spec_voxel(x as int, y as int, z as int, color, normal),
{
    let r = Instance {
        position: [x, y, z],
        color,
        normal,
        depth_strength: 500,
        normal_strength: 1000,
        light_strength: 0,
        current_type: VoxelType::Object,
    };
    proof {
        assert(r.position =~= spec_voxel(x as int, y as int, z as int, color, normal).position);
    }
    r
}

/// Fourth-of-extent offset used by several glyphs.
fn quarter_up(f: i32, l: i32) -> (r: i64)
    requires
        -262016 <= f <= 262015,
        -262016 <= l <= 262015,
    ensures
        r == f + tdiv(l - f, 4),
        -786048 <= r <= 786048,
{
    proof {
        crate::geom::lemma_tdiv_abs(l as int - f as int, 4);
    }
    f as i64 + div_trunc(l as i64 - f as i64, 4)
}

/// The placement classifier on machine integers; see `spec_parse_place`.
pub fn parse_place(
    x: i32,
    y: i32,
    z: i32,
    first: [i32; 3],
    last: [i32; 3],
    color: [i32; 4],
    id: i32,
) -> (r: Option<Instance>)
    requires
        in_world(pos_of(first)),
        in_world(pos_of(last)),
        in_world((x as int, y as int, z as int)),
    ensures
        r == spec_parse_place(
            x as int,
            y as int,
            z as int,
            pos_of(first),
            pos_of(last),
            color,
            id as int,
        ),
{
    let p = arr3(x, y, z);
    if id == 0 {
        if x == first[0] || x == last[0] || y == first[1] || y == last[1] || z == first[2] || z
            == last[2] {
            let fx = div_floor(x as i64, 64);
            let fz = div_floor(z as i64, 64);
            let s = fx + fz;
            let par = s - div_floor(s, 2) * 2;
            proof {
                vstd::arithmetic::div_mod::lemma_fundamental_div_mod(s as int, 2);
                vstd::arithmetic::div_mod::lemma_mod_bound(s as int, 2);
                assert(par == (fdiv(x as int, 64) + fdiv(z as int, 64)) % 2);
            }
            let col = if par == 0 {
                let c: [i32; 4] = [1000, 1000, 1000, color[3]];
                proof {
                    assert(c =~= spec_checker_color(x as int, z as int, color));
                }
                c
            } else {
                color
            };
            let n = y_face_n(first[1], last[1], y);
            Some(make_voxel(x, y, z, col, n))
        } else {
            None
        }
    } else if id == 1 {
        let cx = tmid(first[0], last[0]);
        let cz = tmid(first[2], last[2]);
        if to_line(arr3(cx, first[1], cz), arr3(cx, last[1], cz), p) {
            Some(make_voxel(x, y, z, color, up_n()))
        } else {
            None
        }
    } else if id == 2 {
        let midx = tmid(first[0], last[0]);
        let midy = tmid(first[1], last[1]);
        let midz = tmid(first[2], last[2]);
        proof {
            crate::geom::lemma_tdiv_abs(last[1] as int - first[1] as int, 2);
            crate::geom::lemma_tdiv_abs(midy as int + last[1] as int, 2);
        }
        let half_h = div_trunc(last[1] as i64 - first[1] as i64, 2);
        let q = div_trunc(midy as i64 + last[1] as i64, 2);
        let member = (to_ellipsoid(arr3(first[0], midy, first[2]), last, p) && (y as i64 >= q || x
            >= midx)) || (to_ellipsoid(
            arr3(first[0], (first[1] as i64 - half_h - 5) as i32, first[2]),
            arr3(last[0], midy + 5, last[2]),
            p,
        ) && x < midx) || to_line(
            arr3(first[0], first[1], midz),
            arr3(last[0], first[1], midz),
            p,
        );
        if member {
            Some(make_voxel(x, y, z, color, up_n()))
        } else {
            None
        }
    } else if id == 3 {
        let midx = tmid(first[0], last[0]);
        let midy = tmid(first[1], last[1]);
        proof {
            crate::geom::lemma_tdiv_abs(midy as int + last[1] as int, 2);
        }
        let q = div_trunc(midy as i64 + last[1] as i64, 2);
        let y4 = quarter_up(first[1], last[1]);
        let member = (to_ellipsoid(arr3(first[0], midy, first[2]), last, p) && (y as i64 >= q || x
            >= midx)) || (to_ellipsoid(first, arr3(last[0], midy + 5, last[2]), p) && (y as i64
            <= y4 || x >= midx));
        if member {
            Some(make_voxel(x, y, z, color, up_n()))
        } else {
            None
        }
    } else if id == 4 {
        let midz = tmid(first[2], last[2]);
        let midx = tmid(first[0], last[0]);
        proof {
            crate::geom::lemma_tdiv_abs(midx as int + last[0] as int, 2);
        }
        let x14 = div_trunc(midx as i64 + last[0] as i64, 2) as i32;
        let y4 = quarter_up(first[1], last[1]) as i32;
        let a1 = arr3(x14, first[1], midz);
        let b1 = arr3(x14, last[1], midz);
        let b2 = arr3(first[0], y4, midz);
        let b3 = arr3(last[0], y4, midz);
        let member = to_line(a1, b1, p) || to_line(b1, b2, p) || to_line(b2, b3, p);
        if member {
            Some(make_voxel(x, y, z, color, up_n()))
        } else {
            None
        }
    } else if id == 5 {
        let midx = tmid(first[0], last[0]);
        let midz = tmid(first[2], last[2]);
        proof {
            crate::geom::lemma_tdiv_abs(last[1] as int - first[1] as int, 2);
            crate::geom::lemma_tdiv_abs(last[1] as int - first[1] as int, 15);
            crate::geom::lemma_tdiv_abs(last[1] as int - first[1] as int, 16);
        }
        let ext = last[1] as i64 - first[1] as i64;
        let h = (last[1] as i64 - div_trunc(ext, 2)) as i32;
        let a1 = arr3((first[0] as i64 + div_trunc(ext, 16)) as i32, last[1] - 2, midz);
        let b1 = arr3(last[0], last[1] - 2, midz);
        let b2 = arr3(first[0] + 2, h, midz);
        let b3 = arr3(midx, h, midz);
        let down_l = arr3(last[0], (last[1] as i64 - div_trunc(ext, 2) + 3) as i32, last[2]);
        proof {
            crate::geom::lemma_tdiv_abs(
                first[1] as int + last[1] as int - tdiv(last[1] as int - first[1] as int, 2),
                2,
            );
        }
        let mid_low = div_trunc(first[1] as i64 + last[1] as i64 - div_trunc(ext, 2), 2);
        let member = (to_line(a1, b1, p) && x as i64 > first[0] as i64 + div_trunc(ext, 15) && (
        x as i64) < last[0] as i64 - div_trunc(ext, 16)) || (to_line(a1, b2, p) && y as i64
            >= h as i64) || (to_line(b2, b3, p) && x <= midx) || (to_ellipsoid(first, down_l, p)
            && (y as i64 <= mid_low || x >= midx));
        if member {
            Some(make_voxel(x, y, z, color, up_n()))
        } else {
            None
        }
    } else if id == 6 {
        let midy = tmid(first[1], last[1]);
        let midz = tmid(first[2], last[2]);
        proof {
            crate::geom::lemma_tdiv_abs(midy as int + last[1] as int, 2);
            crate::geom::lemma_tdiv_abs(last[1] as int - first[1] as int, 2);
        }
        let q = div_trunc(midy as i64 + last[1] as i64, 2);
        let y4 = quarter_up(first[1], last[1]);
        let down_l = arr3(
            last[0],
            (last[1] as i64 - div_trunc(last[1] as i64 - first[1] as i64, 2) + 3) as i32,
            last[2],
        );
        let a1 = arr3(first[0] + 2, last[1], midz);
        let b1 = arr3(first[0] + 2, first[1], midz);
        let member = to_ellipsoid(first, down_l, p) || (to_ellipsoid(
            arr3(first[0], midy, first[2]),
            last,
            p,
        ) && y as i64 >= q) || (to_line(a1, b1, p) && y as i64 <= q && y as i64 >= y4);
        if member {
            Some(make_voxel(x, y, z, color, up_n()))
        } else {
            None
        }
    } else if id == 7 {
        let midx = tmid(first[0], last[0]);
        let midz = tmid(first[2], last[2]);
        let a1 = arr3(first[0], last[1] - 2, midz);
        let b1 = arr3(last[0], last[1] - 2, midz);
        let b2 = arr3(midx, first[1] + 2, midz);
        let member = to_line(a1, b1, p) || to_line(b1, b2, p);
        if member {
            Some(make_voxel(x, y, z, color, up_n()))
        } else {
            None
        }
    } else if id == 8 {
        let midy = tmid(first[1], last[1]);
        let member = to_ellipsoid(arr3(first[0], midy, first[2]), last, p) || to_ellipsoid(
            first,
            arr3(last[0], midy + 5, last[2]),
            p,
        );
        if member {
            Some(make_voxel(x, y, z, color, up_n()))
        } else {
            None
        }
    } else if id == 9 {
        let midy = tmid(first[1], last[1]);
        let midz = tmid(first[2], last[2]);
        proof {
            crate::geom::lemma_tdiv_abs(midy as int + last[1] as int, 2);
            crate::geom::lemma_tdiv_abs(last[1] as int - first[1] as int, 2);
            crate::geom::lemma_tdiv_abs(last[1] as int - first[1] as int, 4);
        }
        let q = div_trunc(midy as i64 + last[1] as i64, 2);
        let y4 = quarter_up(first[1], last[1]);
        let y4b = div_trunc(last[1] as i64 - first[1] as i64, 4) + first[1] as i64;
        let down_l = arr3(
            last[0],
            (last[1] as i64 - div_trunc(last[1] as i64 - first[1] as i64, 2) + 3) as i32,
            last[2],
        );
        let a1 = arr3(last[0] - 4, last[1], midz);
        let b1 = arr3(last[0] - 4, first[1], midz);
        let member = (to_ellipsoid(first, down_l, p) && y as i64 <= y4b) || to_ellipsoid(
            arr3(first[0], midy, first[2]),
            last,
            p,
        ) || (to_line(a1, b1, p) && y as i64 <= q && y as i64 >= y4);
        if member {
            Some(make_voxel(x, y, z, color, up_n()))
        } else {
            None
        }
    } else if id == 10 {
        if to_ellipsoid(first, last, p) {
            Some(make_voxel(x, y, z, color, up_n()))
        } else {
            None
        }
    } else if id == 11 {
        if x == first[0] || x == last[0] || y == first[1] || y == last[1] || z == first[2] || z
            == last[2] {
            let n = y_face_n(first[1], last[1], y);
            Some(make_voxel(x, y, z, color, n))
        } else {
            None
        }
    } else if id == 12 {
        if x == first[0] || x == last[0] || y == first[1] || y == last[1] || z == first[2] || z
            == last[2] {
            let nx: i32 = if x == last[0] {
                1000
            } else if x == first[0] {
                -1000
            } else {
                0
            };
            let nz: i32 = if z == last[2] {
                1000
            } else if z == first[2] {
                -1000
            } else {
                0
            };
            let n: [i32; 3] = if nx == 0 && nz == 0 {
                y_face_n(first[1], last[1], y)
            } else {
                let side: [i32; 3] = [nx, 0, nz];
                proof {
                    assert(side =~= spec_box_face_normal(pos_of(first), pos_of(last), pos_of(p)));
                }
                side
            };
            Some(make_voxel(x, y, z, color, n))
        } else {
            None
        }
    } else if id == 13 {
        if y == first[1] {
            Some(make_voxel(x, y, z, color, up_n()))
        } else {
            None
        }
    } else if id == 14 {
        if to_ellipsoid(first, last, p) {
            let n = sphere_n(first, last, x, y, z);
            Some(make_voxel(x, y, z, color, n))
        } else {
            None
        }
    } else {
        None
    }
}

/// The vertical face normal on machine integers.
fn y_face_n(first_y: i32, last_y: i32, y: i32) -> (r: [i32; 3])
    ensures
        r == spec_y_face_normal(first_y as int, last_y as int, y as int),
{
    let r: [i32; 3] = if y == last_y {
        [0, 1000, 0]
    } else if y == first_y {
        [0, -1000, 0]
    } else {
        [0, 0, 0]
    };
    proof {
        assert(r =~= spec_y_face_normal(first_y as int, last_y as int, y as int));
    }
    r
}

/// The sphere-shell radial normal on machine integers.
fn sphere_n(first: [i32; 3], last: [i32; 3], x: i32, y: i32, z: i32) -> (r: [i32; 3])
    requires
        in_world(pos_of(first)),
        in_world(pos_of(last)),
        in_world((x as int, y as int, z as int)),
    ensures
        r == spec_sphere_normal(pos_of(first), pos_of(last), (x as int, y as int, z as int)),
{
    let dx = 2 * (x as i64) - first[0] as i64 - last[0] as i64;
    let dy = 2 * (y as i64) - first[1] as i64 - last[1] as i64;
    let dz = 2 * (z as i64) - first[2] as i64 - last[2] as i64;
    proof {
        assert(0 <= dx * dx <= 2_000_000_000_000 && dx * dx >= (dx as int) * (dx as int))
            by (nonlinear_arith)
            requires
                -1_100_000 <= dx <= 1_100_000,
        ;
        assert(0 <= dy * dy <= 2_000_000_000_000) by (nonlinear_arith)
            requires
                -1_100_000 <= dy <= 1_100_000,
        ;
        assert(0 <= dz * dz <= 2_000_000_000_000) by (nonlinear_arith)
            requires
                -1_100_000 <= dz <= 1_100_000,
        ;
    }
    let n = (dx * dx + dy * dy + dz * dz) as u64;
    let len = isqrt64(n);
    if len == 0 {
        let r: [i32; 3] = [0, 0, 0];
        proof {
            assert(r =~= spec_sphere_normal(
                pos_of(first),
                pos_of(last),
                (x as int, y as int, z as int),
            ));
        }
        r
    } else {
        proof {
            lemma_isqrt(n as nat);
            assert(len <= 3_000_000) by (nonlinear_arith)
                requires
                    (len as int) * (len as int) <= n,
                    0 <= n <= 6_000_000_000_000,
                    len >= 0,
            ;
            crate::geom::lemma_tdiv_abs(1000 * dx, len as int);
            crate::geom::lemma_tdiv_abs(1000 * dy, len as int);
            crate::geom::lemma_tdiv_abs(1000 * dz, len as int);
        }
        let r: [i32; 3] = [
            div_trunc(1000 * dx, len as i64) as i32,
            div_trunc(1000 * dy, len as i64) as i32,
            div_trunc(1000 * dz, len as i64) as i32,
        ];
        proof {
            assert(r =~= spec_sphere_normal(
                pos_of(first),
                pos_of(last),
                (x as int, y as int, z as int),
            ));
        }
        r
    }
}

} // verus!
