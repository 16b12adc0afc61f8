//! Integer geometry helpers: truncating and flooring division, world and
//! chunk-cell coordinate ranges, axis-aligned boxes, and the packing of a
//! 3D position into a single lookup key.

use vstd::prelude::*;

verus! {

use crate::{GRID_BOUND, RADIUS_VOXEL};

/// Smallest world coordinate on each axis: the low edge of chunk cell
/// `-GRID_BOUND`.
pub const WORLD_MIN: i32 = -262016;

/// Largest world coordinate on each axis: the high edge of chunk cell
/// `GRID_BOUND`.
pub const WORLD_MAX: i32 = 262015;

/// Bound on the coordinates the shape library accepts; wide enough for
/// every sub-box the placement classifier derives from a world region.
pub const SHAPE_BOUND: i32 = 1048576;

/// Truncating (round toward zero) division, the semantics of Rust's `/`
/// on machine integers; used here only with positive divisors.
pub open spec fn tdiv(a: int, b: int) -> int
    recommends
        b > 0,
{
    if a >= 0 {
        a / b
    } else {
        -((-a) / b)
    }
}

/// Ghost `/` on `int` is Euclidean division, which floors when the
/// divisor is positive; this name just makes that reading explicit.
pub open spec fn fdiv(a: int, b: int) -> int
    recommends
        b > 0,
{
    a / b
}

/// Truncating division on machine integers.
pub fn div_trunc(a: i64, b: i64) -> (r: i64)
    requires
        b > 0,
        a > i64::MIN,
    ensures
        r == tdiv(a as int, b as int),
{
    if a >= 0 {
        a / b
    } else {
        let n = -a;
        -(n / b)
    }
}

/// Flooring division on machine integers.
pub fn div_floor(a: i64, b: i64) -> (r: i64)
    requires
        b > 0,
        a > i64::MIN,
    ensures
        r == fdiv(a as int, b as int),
{
    if a >= 0 {
        a / b
    } else {
        let n = -a;
        let q = n / b;
        proof {
            vstd::arithmetic::div_mod::lemma_fundamental_div_mod(n as int, b as int);
            vstd::arithmetic::div_mod::lemma_mod_bound(n as int, b as int);
        }
        if q * b == n {
            proof {
                assert((-q) * b == a as int) by (nonlinear_arith)
                    requires
                        q * b == n,
                        n == -(a as int),
                ;
                assert(a as int == b * (-q) + 0);
                vstd::arithmetic::div_mod::lemma_fundamental_div_mod_converse(
                    a as int,
                    b as int,
                    -q,
                    0,
                );
            }
            -q
        } else {
            proof {
                vstd::arithmetic::div_mod::lemma_fundamental_div_mod(n as int, b as int);
                let rr = (n as int) % (b as int);
                assert(0 <= rr < b);
                assert(rr != 0);
                assert(a as int == b * (-q - 1) + (b - rr)) by (nonlinear_arith)
                    requires
                        n == b * q + rr,
                        n == -(a as int),
                ;
                vstd::arithmetic::div_mod::lemma_fundamental_div_mod_converse(
                    a as int,
                    b as int,
                    -q - 1,
                    b - rr,
                );
                assert(q * b <= n) by (nonlinear_arith)
                    requires
                        q == n / b,
                        b > 0,
                        n >= 0,
                        n == b * q + rr,
                        rr >= 0,
                ;
            }
            -q - 1
        }
    }
}

/// Truncating division for any nonzero divisor.
pub open spec fn tdiv_any(a: int, b: int) -> int
    recommends
        b != 0,
{
    if b > 0 {
        tdiv(a, b)
    } else {
        -tdiv(a, -b)
    }
}

/// Truncating division on machine integers, any nonzero divisor.
pub fn div_trunc_any(a: i64, b: i64) -> (r: i64)
    requires
        b != 0,
        a > i64::MIN,
        b > i64::MIN,
    ensures
        r == tdiv_any(a as int, b as int),
{
    if b > 0 {
        div_trunc(a, b)
    } else {
        let q = div_trunc(a, -b);
        proof {
            lemma_tdiv_abs(a as int, -(b as int));
        }
        -q
    }
}

/// Truncating division never grows the magnitude of its dividend.
pub proof fn lemma_tdiv_abs(a: int, b: int)
    requires
        b >= 1,
    ensures
        a >= 0 ==> 0 <= tdiv(a, b) <= a,
        a <= 0 ==> a <= tdiv(a, b) <= 0,
{
    if a >= 0 {
        vstd::arithmetic::div_mod::lemma_div_pos_is_pos(a, b);
        vstd::arithmetic::div_mod::lemma_div_nonincreasing(a, b);
    } else {
        vstd::arithmetic::div_mod::lemma_div_pos_is_pos(-a, b);
        vstd::arithmetic::div_mod::lemma_div_nonincreasing(-a, b);
    }
}

/// Truncating division with a positive divisor is monotone.
pub proof fn lemma_tdiv_monotone(a: int, b: int, d: int)
    requires
        a <= b,
        d >= 1,
    ensures
        tdiv(a, d) <= tdiv(b, d),
{
    lemma_tdiv_abs(a, d);
    lemma_tdiv_abs(b, d);
    if a >= 0 {
        vstd::arithmetic::div_mod::lemma_div_is_ordered(a, b, d);
    } else if b < 0 {
        vstd::arithmetic::div_mod::lemma_div_is_ordered(-b, -a, d);
    }
}

/// A world position is inside the coordinate range the engine works with.
pub open spec fn in_world(p: (int, int, int)) -> bool {
    WORLD_MIN <= p.0 <= WORLD_MAX && WORLD_MIN <= p.1 <= WORLD_MAX && WORLD_MIN <= p.2 <= WORLD_MAX
}

/// The position triple held by a coordinate array.
pub open spec fn pos_of(p: [i32; 3]) -> (int, int, int) {
    (p[0] as int, p[1] as int, p[2] as int)
}

/// Componentwise membership in the closed box `[lo, hi]`.
pub open spec fn in_box(p: (int, int, int), lo: (int, int, int), hi: (int, int, int)) -> bool {
    lo.0 <= p.0 <= hi.0 && lo.1 <= p.1 <= hi.1 && lo.2 <= p.2 <= hi.2
}

/// Strict lexicographic order on position triples, the order in which a
/// box of coordinates is iterated.
pub open spec fn lex_lt(p: (int, int, int), q: (int, int, int)) -> bool {
    p.0 < q.0 || (p.0 == q.0 && (p.1 < q.1 || (p.1 == q.1 && p.2 < q.2)))
}

/// Lowest world coordinate covered by chunk cell `g`.
pub open spec fn cell_min(g: int) -> int {
    g * (RADIUS_VOXEL as int) - (RADIUS_VOXEL as int) / 2
}

/// Highest world coordinate covered by chunk cell `g`.
pub open spec fn cell_max(g: int) -> int {
    g * (RADIUS_VOXEL as int) + (RADIUS_VOXEL as int) / 2 - 1
}

/// The chunk cell that a world coordinate falls into.
pub open spec fn cell_of(c: int) -> int {
    fdiv(c + (RADIUS_VOXEL as int) / 2, RADIUS_VOXEL as int)
}

/// Each coordinate lies inside the cell `cell_of` assigns to it, and no
/// other: the cells partition the axis.
pub proof fn lemma_cell_of(c: int)
    ensures
        cell_min(cell_of(c)) <= c <= cell_max(cell_of(c)),
        forall|g: int| #[trigger] cell_min(g) <= c <= cell_max(g) ==> g == cell_of(c),
{
    let r = RADIUS_VOXEL as int;
    vstd::arithmetic::div_mod::lemma_fundamental_div_mod(c + r / 2, r);
    vstd::arithmetic::div_mod::lemma_mod_bound(c + r / 2, r);
    let q = cell_of(c);
    let m = (c + r / 2) % r;
    assert(c == q * r - r / 2 + m) by (nonlinear_arith)
        requires
            c + r / 2 == r * q + m,
            r == 256,
    ;
    assert forall|g: int| #[trigger] cell_min(g) <= c <= cell_max(g) implies g == q by {
        assert(g * r - r / 2 <= q * r - r / 2 + m <= g * r + r / 2 - 1);
        assert(g == q) by (nonlinear_arith)
            requires
                g * r - r / 2 <= q * r - r / 2 + m <= g * r + r / 2 - 1,
                0 <= m < r,
                r == 256,
        ;
    }
}

/// Cell lookup on machine integers.
pub fn cell_index(c: i32) -> (g: i32)
    requires
        WORLD_MIN <= c <= WORLD_MAX,
    ensures
        g == cell_of(c as int),
        -GRID_BOUND <= g <= GRID_BOUND,
{
    proof {
        lemma_cell_of(c as int);
        assert(cell_min(-(GRID_BOUND as int)) == WORLD_MIN);
        assert(cell_max(GRID_BOUND as int) == WORLD_MAX);
        assert(cell_of(c as int) >= -(GRID_BOUND as int)) by {
            let g = cell_of(c as int);
            if g < -(GRID_BOUND as int) {
                assert(cell_max(g) < WORLD_MIN) by (nonlinear_arith)
                    requires
                        g < -1023,
                ;
            }
        }
        assert(cell_of(c as int) <= GRID_BOUND as int) by {
            let g = cell_of(c as int);
            if g > GRID_BOUND as int {
                assert(cell_min(g) > WORLD_MAX) by (nonlinear_arith)
                    requires
                        g > 1023,
                ;
            }
        }
    }
    let g64 = div_floor(c as i64 + 128, 256);
    g64 as i32
}

/// The packed lookup key of a world position: three 20-bit fields.
pub open spec fn spec_pack(p: (int, int, int)) -> int {
    (p.0 - WORLD_MIN) * 0x10000000000 + (p.1 - WORLD_MIN) * 0x100000 + (p.2 - WORLD_MIN)
}

/// Packing is injective on world positions.
pub proof fn lemma_pack_injective(p: (int, int, int), q: (int, int, int))
    requires
        in_world(p),
        in_world(q),
        spec_pack(p) == spec_pack(q),
    ensures
        p == q,
{
    let a1 = p.0 - WORLD_MIN;
    let b1 = p.1 - WORLD_MIN;
    let c1 = p.2 - WORLD_MIN;
    let a2 = q.0 - WORLD_MIN;
    let b2 = q.1 - WORLD_MIN;
    let c2 = q.2 - WORLD_MIN;
    assert(a1 == a2 && b1 == b2 && c1 == c2) by (nonlinear_arith)
        requires
            0 <= a1 < 0x100000,
            0 <= b1 < 0x100000,
            0 <= c1 < 0x100000,
            0 <= a2 < 0x100000,
            0 <= b2 < 0x100000,
            0 <= c2 < 0x100000,
            a1 * 0x10000000000 + b1 * 0x100000 + c1 == a2 * 0x10000000000 + b2 * 0x100000 + c2,
    ;
    assert(p.0 == q.0 && p.1 == q.1 && p.2 == q.2);
    assert(p == q);
}

/// The packed key as the lookup maps store it.
pub open spec fn key_of(p: (int, int, int)) -> u64 {
    spec_pack(p) as u64
}

/// The packed key is injective on world positions.
pub proof fn lemma_key_of_injective(p: (int, int, int), q: (int, int, int))
    requires
        in_world(p),
        in_world(q),
        key_of(p) == key_of(q),
    ensures
        p == q,
{
    assert(0 <= spec_pack(p) < 0x1000000000000000);
    assert(0 <= spec_pack(q) < 0x1000000000000000);
    assert(spec_pack(p) == spec_pack(q));
    lemma_pack_injective(p, q);
}

/// Packing on machine integers.
pub fn pack_pos(p: [i32; 3]) -> (k: u64)
    requires
        in_world(pos_of(p)),
    ensures
        k == spec_pack(pos_of(p)),
        k == key_of(pos_of(p)),
{
    let a = (p[0] - WORLD_MIN) as u64;
    let b = (p[1] - WORLD_MIN) as u64;
    let c = (p[2] - WORLD_MIN) as u64;
    a * 0x10000000000 + b * 0x100000 + c
}

} // verus!
