use vstd::prelude::*;

use vstd::arithmetic::div_mod::lemma_fundamental_div_mod;
use vstd::arithmetic::div_mod::lemma_fundamental_div_mod_converse;

use crate::coord::Coord;
use crate::coord::spec_parity;

verus! {

/// Fixed-point denominator of planar positions.  A `PlanePos` value
/// `(x, y)` stands for the planar point
/// `(x / PLANE_DEN, (y / PLANE_DEN) * sqrt(3))`: the factor `sqrt(3)`
/// of the triangular-lattice basis is carried symbolically in the
/// y-unit, so every projection below is exact integer arithmetic.
/// `PLANE_DEN` is even and divisible by twelve, so both the half-unit
/// of the basis and the twelfth-unit of the centroid shift are whole.
pub const PLANE_DEN: i64 = 12288;

/// A planar (pixel-space) position in `PLANE_DEN`-ths of a lattice
/// unit; the y-component is measured in units of `sqrt(3)`.
#[derive(Clone, Copy, PartialEq, Eq, Structural, Debug)]
pub struct PlanePos {
    pub x: i64,
    pub y: i64,
}

/// Division rounding to the nearest integer, ties away from zero;
/// `d` must be positive.
pub open spec fn spec_round_div(n: int, d: int) -> int {
    if n >= 0 {
        (2 * n + d) / (2 * d)
    } else {
        -((2 * (-n) + d) / (2 * d))
    }
}

/// x-component of the forward projection `x * scale / 2`, in
/// `PLANE_DEN`-ths: `x * scale * (PLANE_DEN / 2)`.
pub open spec fn spec_texture_x(c: Coord, scale: int) -> int {
    c.0 * scale * 6144
}

/// y-component of the forward projection `y * scale * sqrt(3) / 2`,
/// in `PLANE_DEN`-ths of `sqrt(3)`.
pub open spec fn spec_texture_y(c: Coord, scale: int) -> int {
    c.1 * scale * 6144
}

/// y-component of the piece-centroid position: the forward projection
/// shifted by `-parity * scale * sqrt(3) / 12`, which re-centres a
/// piece within its triangle rather than at its apex.
pub open spec fn spec_world_y(c: Coord, scale: int) -> int {
    spec_texture_y(c, scale) - spec_parity(c.0 as int, c.1 as int) * scale * 1024
}

/// Inverse projection from a planar position to the nearest lattice
/// cell.  The row is the nearest integer to the unscaled y; the
/// column is corrected by the row's rounding error, with a sign
/// chosen by the parity of the floored column and the row, so that
/// the search respects the triangular (not square) cell boundary.
/// A documented approximation: points very close to a triangle's
/// side corners may be classified into a neighbouring cell.
pub open spec fn spec_from_world(px: int, py: int, scale: int) -> (int, int) {
    let q = 12288 * scale;
    let y = spec_round_div(2 * py, q);
    let xf = (2 * px) / q;
    let b = spec_parity(xf, y);
    let x = spec_round_div(2 * px + (y * q - 2 * py) * b, q);
    (x, y)
}

/// Product of values bounded in magnitude is bounded by the product
/// of the bounds.
proof fn lemma_mul_bounds(a: int, b: int, aa: int, bb: int)
    by (nonlinear_arith)
    requires
        -aa <= a <= aa,
        -bb <= b <= bb,
        0 <= aa,
        0 <= bb,
    ensures
        -(aa * bb) <= a * b <= aa * bb,
{
}

/// A product within a range keeps its factor within that range when
/// the other factor is a positive integer.
proof fn lemma_mul_shrinks(p: int, f: int, lo: int, hi: int)
    by (nonlinear_arith)
    requires
        f >= 1,
        lo <= 0 <= hi,
        lo <= p * f <= hi,
    ensures
        lo <= p <= hi,
{
}

/// Nearest-integer division of an exact multiple recovers the factor.
proof fn lemma_round_div_exact(k: int, d: int)
    requires
        d > 0,
    ensures
        spec_round_div(k * d, d) == k,
{
    if k >= 0 {
        assert(k * d >= 0) by (nonlinear_arith)
            requires
                k >= 0,
                d > 0,
        ;
        assert(2 * (k * d) + d == k * (2 * d) + d) by (nonlinear_arith);
        lemma_fundamental_div_mod_converse(2 * (k * d) + d, 2 * d, k, d);
    } else {
        assert(k * d < 0) by (nonlinear_arith)
            requires
                k < 0,
                d > 0,
        ;
        assert(2 * (-(k * d)) + d == (-k) * (2 * d) + d) by (nonlinear_arith);
        lemma_fundamental_div_mod_converse(2 * (-(k * d)) + d, 2 * d, -k, d);
    }
}

/// Nearest-integer division stays within one unit of the exact
/// quotient: `|r * d| <= |n| + d`.
proof fn lemma_round_div_mag(n: int, d: int)
    requires
        d > 0,
    ensures
        n >= 0 ==> 0 <= spec_round_div(n, d),
        n < 0 ==> spec_round_div(n, d) <= 0,
        n - d <= spec_round_div(n, d) * d <= n + d,
{
    if n >= 0 {
        let r = (2 * n + d) / (2 * d);
        lemma_fundamental_div_mod(2 * n + d, 2 * d);
        let rem = (2 * n + d) % (2 * d);
        assert(2 * n + d == (2 * d) * r + rem);
        assert(0 <= rem < 2 * d);
        assert(r >= 0 && n - d <= r * d <= n + d) by (nonlinear_arith)
            requires
                2 * n + d == (2 * d) * r + rem,
                0 <= rem,
                rem < 2 * d,
                d > 0,
                n >= 0,
        ;
    } else {
        let m = -n;
        let r = (2 * m + d) / (2 * d);
        lemma_fundamental_div_mod(2 * m + d, 2 * d);
        let rem = (2 * m + d) % (2 * d);
        assert(2 * m + d == (2 * d) * r + rem);
        assert(0 <= rem < 2 * d);
        assert(r >= 0 && (-r) * d >= n - d && (-r) * d <= n + d) by (nonlinear_arith)
            requires
                2 * m + d == (2 * d) * r + rem,
                0 <= rem,
                rem < 2 * d,
                d > 0,
                m > 0,
                n == -m,
        ;
    }
}

/// Floor division of a negative dividend by a positive divisor,
/// phrased over the non-negative magnitude.
proof fn lemma_floor_div_neg(m: int, d: int)
    requires
        m > 0,
        d > 0,
    ensures
        -((m + d - 1) / d) == (-m) / d,
{
    lemma_fundamental_div_mod(m, d);
    let qm = m / d;
    let rm = m % d;
    assert(m == qm * d + rm) by (nonlinear_arith)
        requires
            m == d * qm + rm,
    ;
    if rm == 0 {
        assert(m + d - 1 == qm * d + (d - 1)) by (nonlinear_arith)
            requires
                m == qm * d + rm,
                rm == 0,
        ;
        lemma_fundamental_div_mod_converse(m + d - 1, d, qm, d - 1);
        assert(-m == (-qm) * d + 0) by (nonlinear_arith)
            requires
                m == qm * d,
        ;
        lemma_fundamental_div_mod_converse(-m, d, -qm, 0);
    } else {
        assert(m + d - 1 == (qm + 1) * d + (rm - 1)) by (nonlinear_arith)
            requires
                m == qm * d + rm,
        ;
        lemma_fundamental_div_mod_converse(m + d - 1, d, qm + 1, rm - 1);
        assert(-m == (-qm - 1) * d + (d - rm)) by (nonlinear_arith)
            requires
                m == qm * d + rm,
        ;
        lemma_fundamental_div_mod_converse(-m, d, -qm - 1, d - rm);
    }
}

/// Nearest-integer division, ties away from zero; exact integer
/// arithmetic on wide words.
fn round_div_i128(n: i128, d: i128) -> (r: i128)
    requires
        0 < d <= 0x10000000000000000000000000000000,
        -0x10000000000000000000000000000000 <= n <= 0x10000000000000000000000000000000,
    ensures
        r == spec_round_div(n as int, d as int),
{
    if n >= 0 {
        (2 * n + d) / (2 * d)
    } else {
        -((2 * (-n) + d) / (2 * d))
    }
}

/// Floor division on wide words.
fn floor_div_i128(n: i128, d: i128) -> (r: i128)
    requires
        0 < d <= 0x10000000000000000000000000000000,
        -0x10000000000000000000000000000000 <= n <= 0x10000000000000000000000000000000,
    ensures
        r == n as int / d as int,
{
    if n >= 0 {
        n / d
    } else {
        proof {
            lemma_floor_div_neg(-(n as int), d as int);
        }
        -((-n + d - 1) / d)
    }
}

impl Coord {
    /// Planar position of this cell's apex under the triangular
    /// lattice basis: `(x * scale / 2, y * scale * sqrt(3) / 2)`,
    /// held exactly in `PLANE_DEN`-ths.
    pub fn texture_coords(self, scale: i64) -> (r: PlanePos)
        requires
            1 <= scale,
            i64::MIN <= spec_texture_x(self, scale as int) <= i64::MAX,
            i64::MIN <= spec_texture_y(self, scale as int) <= i64::MAX,
        ensures
            r.x == spec_texture_x(self, scale as int),
            r.y == spec_texture_y(self, scale as int),
    {
        proof {
            lemma_mul_shrinks(self.0 * scale, 6144, i64::MIN as int, i64::MAX as int);
            lemma_mul_shrinks(self.1 * scale, 6144, i64::MIN as int, i64::MAX as int);
            lemma_mul_bounds(
                self.0 as int,
                scale as int,
                0x8000000000000000,
                0x8000000000000000,
            );
            lemma_mul_bounds(
                self.1 as int,
                scale as int,
                0x8000000000000000,
                0x8000000000000000,
            );
        }
        let xv = (self.0 as i128) * (scale as i128);
        let yv = (self.1 as i128) * (scale as i128);
        let xs = xv * 6144;
        let ys = yv * 6144;
        PlanePos { x: xs as i64, y: ys as i64 }
    }

    /// Planar position of a piece standing on this cell: the apex
    /// position with the y-component pulled toward the triangle's
    /// centroid by `parity * scale * sqrt(3) / 12`.
    pub fn world_coords(self, scale: i64) -> (r: PlanePos)
        requires
            1 <= scale,
            scale * 1024 <= i64::MAX,
            i64::MIN <= spec_texture_x(self, scale as int) <= i64::MAX,
            i64::MIN <= spec_texture_y(self, scale as int) <= i64::MAX,
            i64::MIN <= spec_world_y(self, scale as int) <= i64::MAX,
        ensures
            r.x == spec_texture_x(self, scale as int),
            r.y == spec_world_y(self, scale as int),
    {
        let base = self.texture_coords(scale);
        let shift = scale * 1024;
        let p = self.parity();
        proof {
            let pp = spec_parity(self.0 as int, self.1 as int);
            assert(pp * scale * 1024 == if pp == 1 {
                scale * 1024
            } else {
                -(scale * 1024)
            }) by (nonlinear_arith)
                requires
                    pp == 1 || pp == -1,
            ;
        }
        let y = if p == 1 {
            base.y - shift
        } else {
            base.y + shift
        };
        PlanePos { x: base.x, y }
    }

    /// Nearest lattice cell to a planar position: the inverse of the
    /// forward projection, up to the documented side-corner
    /// approximation.
    pub fn from_world_coords(p: PlanePos, scale: i64) -> (r: Coord)
        requires
            1 <= scale,
            12288 * scale <= i64::MAX,
            -0x100000000000000 <= p.x <= 0x100000000000000,
            -0x100000000000000 <= p.y <= 0x100000000000000,
            isize::MIN <= spec_from_world(p.x as int, p.y as int, scale as int).0 <= isize::MAX,
            isize::MIN <= spec_from_world(p.x as int, p.y as int, scale as int).1 <= isize::MAX,
        ensures
            r.0 == spec_from_world(p.x as int, p.y as int, scale as int).0,
            r.1 == spec_from_world(p.x as int, p.y as int, scale as int).1,
    {
        let q: i64 = 12288 * scale;
        let qq = q as i128;
        let px2 = 2 * (p.x as i128);
        let py2 = 2 * (p.y as i128);
        let y128 = round_div_i128(py2, qq);
        let xf128 = floor_div_i128(px2, qq);
        proof {
            lemma_round_div_mag(py2 as int, qq as int);
            assert(-0x400000000000 <= y128 <= 0x400000000000) by (nonlinear_arith)
                requires
                    y128 * qq <= py2 + qq,
                    y128 * qq >= py2 - qq,
                    (py2 >= 0 ==> y128 >= 0) && (py2 < 0 ==> y128 <= 0),
                    qq >= 12288,
                    -0x200000000000000 <= py2 <= 0x200000000000000,
            ;
            lemma_fundamental_div_mod(px2 as int, qq as int);
            let rem = px2 as int % qq as int;
            assert(-0x400000000000 <= xf128 <= 0x400000000000) by (nonlinear_arith)
                requires
                    px2 == qq * xf128 + rem,
                    0 <= rem,
                    rem < qq,
                    qq >= 12288,
                    -0x200000000000000 <= px2 <= 0x200000000000000,
            ;
        }
        let xf64 = xf128 as i64;
        let y64 = y128 as i64;
        let bit: i64 = (xf64 ^ y64) & 1;
        proof {
            crate::coord::lemma_xor_low_bit(xf64, y64);
        }
        proof {
            lemma_mul_bounds(y128 as int, qq as int, 0x400000000000, 0x8000000000000000);
        }
        let corr = y128 * qq - py2;
        let num = if bit == 0 {
            // parity -1: subtract the correction
            px2 - corr
        } else {
            px2 + corr
        };
        let x128 = round_div_i128(num, qq);
        proof {
            let bs = spec_parity(xf128 as int, y128 as int);
            assert((y128 * qq - py2) * bs == if bs == 1 {
                (y128 * qq - py2)
            } else {
                -(y128 * qq - py2)
            }) by (nonlinear_arith)
                requires
                    bs == 1 || bs == -1,
            ;
        }
        Coord(x128 as isize, y128 as isize)
    }
}

/// Round trip of the projections: the inverse projection applied to a
/// cell's exact planar position recovers the cell, for every cell and
/// every positive scale.
pub proof fn lemma_projection_round_trip(c: Coord, scale: int)
    requires
        scale >= 1,
    ensures
        spec_from_world(spec_texture_x(c, scale), spec_texture_y(c, scale), scale) == (
            c.0 as int,
            c.1 as int,
        ),
{
    let q = 12288 * scale;
    let tx = spec_texture_x(c, scale);
    let ty = spec_texture_y(c, scale);
    assert(2 * tx == c.0 * q && 2 * ty == c.1 * q) by (nonlinear_arith)
        requires
            tx == c.0 * scale * 6144,
            ty == c.1 * scale * 6144,
            q == 12288 * scale,
    ;
    lemma_round_div_exact(c.1 as int, q);
    lemma_round_div_exact(c.0 as int, q);
    assert(c.0 * q == q * c.0 + 0) by (nonlinear_arith);
    lemma_fundamental_div_mod_converse(c.0 * q, q, c.0 as int, 0);
    let y = spec_round_div(2 * ty, q);
    assert(y == c.1);
    let xf = (2 * tx) / q;
    assert(xf == c.0);
    let b = spec_parity(xf, y);
    assert((y * q - 2 * ty) == 0);
    assert(0 * b == 0) by (nonlinear_arith);
    assert(spec_round_div(2 * tx + 0, q) == c.0);
}

} // verus!
