use vstd::arithmetic::div_mod::{
    lemma_fundamental_div_mod, lemma_fundamental_div_mod_converse_div,
};
use vstd::prelude::*;

verus! {

/// Scale of the fixed-point plane coordinates: one coordinate unit stands
/// for `1 / FP_SCALE` in the attractor's real plane.
pub const FP_SCALE: i64 = 1_000_000;

/// Largest accepted screen dimension, so that a row-major cell index
/// always fits in `usize` and intermediate products stay in range.
pub const SCREEN_DIM_MAX: usize = 65535;

/// Largest accepted vertical extent in fixed-point units, so that every
/// intermediate product of the transforms stays in range.
pub const HEIGHT_MAX: i64 = 0x400_0000_0000;

/// A point of the attractor's unbounded real plane, held in fixed-point
/// coordinates scaled by `FP_SCALE`.
#[derive(Clone, Copy, Debug, PartialEq, Eq, Structural)]
pub struct RealPoint {
    pub x: i64,
    pub y: i64,
}

/// A cell of the screen grid: `x` is the column, `y` the row, growing
/// downward; both are below the screen dimensions.
#[derive(Clone, Copy, Debug, PartialEq, Eq, Structural)]
pub struct PixelPoint {
    pub x: usize,
    pub y: usize,
}

/// Nearest integer to `n / d` for `d > 0`, ties rounded away from zero.
pub open spec fn round_div(n: int, d: int) -> int {
    if n >= 0 {
        (n + d / 2) / d
    } else {
        -((-n + d / 2) / d)
    }
}

/// Orthographic projection between the real plane and the pixel grid,
/// centered on the middle of the screen, with the row axis flipped so
/// that plane-up is image-up. `center` is a reference point kept in the
/// state but not read by the transforms, which always center on the
/// origin; `height` is the visible vertical extent in fixed-point units;
/// the horizontal extent is derived from it by the screen's aspect ratio.
#[derive(Clone, Copy, Debug)]
pub struct Camera {
    pub center: RealPoint,
    pub height: i64,
    pub screen_size: (usize, usize),
}

impl Camera {
    /// Positive screen dimensions and vertical extent, within the ranges
    /// the fixed-point arithmetic supports.
    pub open spec fn wf(self) -> bool {
        &&& 0 < self.screen_size.0 <= SCREEN_DIM_MAX
        &&& 0 < self.screen_size.1 <= SCREEN_DIM_MAX
        &&& 0 < self.height <= HEIGHT_MAX
    }

    /// Both axes scale by `screen_height / height`, since the horizontal
    /// extent is `height * screen_width / screen_height`: scale, round to
    /// the nearest pixel, recenter, and flip the row; `None` when the
    /// point leaves the visible extent.
    pub open spec fn to_screen_spec(self, rp: RealPoint) -> Option<PixelPoint> {
        let sw = self.screen_size.0 as int;
        let sh = self.screen_size.1 as int;
        let x = round_div(rp.x * sh, self.height as int) + sw / 2;
        let y = round_div(rp.y * sh, self.height as int) + sh / 2;
        if 0 <= x < sw && 1 <= y <= sh {
            Some(PixelPoint { x: x as usize, y: (sh - y) as usize })
        } else {
            None
        }
    }

    /// Inverse direction: unflip the row, recenter, and scale each axis
    /// by `height / screen_height`, rounding to the nearest fixed-point
    /// coordinate unit.
    pub open spec fn to_real_spec(self, sp: PixelPoint) -> RealPoint {
        let sw = self.screen_size.0 as int;
        let sh = self.screen_size.1 as int;
        let cx = sp.x - sw / 2;
        let cy = (sh - sp.y) - sh / 2;
        RealPoint {
            x: round_div(cx * self.height, sh) as i64,
            y: round_div(cy * self.height, sh) as i64,
        }
    }

    /// Horizontal visible extent in fixed-point units, derived from the
    /// vertical extent by the screen's aspect ratio; recomputed from the
    /// current state on every call, never cached.
    pub fn width(&self) -> (w: i64)
        requires
            self.wf(),
        ensures
            w == round_div(self.height * self.screen_size.0 as int, self.screen_size.1 as int),
    {
        proof {
            assert(0 < self.height as int * self.screen_size.0 as int <= 0x400_0000_0000 * 65535)
                by (nonlinear_arith)
                requires
                    0 < self.height as int <= 0x400_0000_0000,
                    0 < self.screen_size.0 as int <= 65535,
            ;
        }
        let n: i128 = self.height as i128 * self.screen_size.0 as i128;
        let w = round_div_i128(n, self.screen_size.1 as i128);
        proof {
            lemma_round_div_mag(n as int, self.screen_size.1 as int);
        }
        w as i64
    }

    /// Map a plane point to the pixel grid; `None` when it falls outside
    /// the screen, so a caller can discard it instead of writing out of
    /// bounds.
    pub fn to_screen(&self, rp: RealPoint) -> (res: Option<PixelPoint>)
        requires
            self.wf(),
        ensures
            res == self.to_screen_spec(rp),
    {
        let sw = self.screen_size.0;
        let sh = self.screen_size.1;
        proof {
            lemma_mul_i64_dim_bound(rp.x as int, sh as int);
            lemma_mul_i64_dim_bound(rp.y as int, sh as int);
        }
        let nx: i128 = rp.x as i128 * sh as i128;
        let ny: i128 = rp.y as i128 * sh as i128;
        let cx = round_div_i128(nx, self.height as i128);
        let cy = round_div_i128(ny, self.height as i128);
        proof {
            lemma_round_div_mag(nx as int, self.height as int);
            lemma_round_div_mag(ny as int, self.height as int);
        }
        let x: i128 = cx + (sw / 2) as i128;
        let y: i128 = cy + (sh / 2) as i128;
        if 0 <= x && x < sw as i128 && 1 <= y && y <= sh as i128 {
            Some(PixelPoint { x: x as usize, y: (sh as i128 - y) as usize })
        } else {
            None
        }
    }

    /// Map a pixel back to the plane point at its center, up to one
    /// rounding step in fixed-point units.
    pub fn to_real(&self, sp: PixelPoint) -> (rp: RealPoint)
        requires
            self.wf(),
            sp.x < self.screen_size.0,
            sp.y < self.screen_size.1,
        ensures
            rp == self.to_real_spec(sp),
    {
        let sw = self.screen_size.0;
        let sh = self.screen_size.1;
        let cx: i128 = sp.x as i128 - (sw / 2) as i128;
        let cy: i128 = (sh - sp.y) as i128 - (sh / 2) as i128;
        proof {
            lemma_mul_dim_height_bound(cx as int, self.height as int);
            lemma_mul_dim_height_bound(cy as int, self.height as int);
        }
        let nx: i128 = cx * self.height as i128;
        let ny: i128 = cy * self.height as i128;
        let xq = round_div_i128(nx, sh as i128);
        let yq = round_div_i128(ny, sh as i128);
        proof {
            lemma_round_div_mag(nx as int, sh as int);
            lemma_round_div_mag(ny as int, sh as int);
        }
        RealPoint { x: xq as i64, y: yq as i64 }
    }
}

/// The product of an `i64` coordinate and a screen dimension stays well
/// inside `i128`.
proof fn lemma_mul_i64_dim_bound(a: int, d: int)
    by (nonlinear_arith)
    requires
        -0x8000_0000_0000_0000 <= a <= 0x7fff_ffff_ffff_ffff,
        0 < d <= 65535,
    ensures
        -0x1000_0000_0000_0000_0000_0000 <= a * d <= 0x1000_0000_0000_0000_0000_0000,
{
}

/// The product of a centered pixel offset and the vertical extent stays
/// well inside `i64` range.
proof fn lemma_mul_dim_height_bound(c: int, h: int)
    by (nonlinear_arith)
    requires
        -65535 <= c <= 65535,
        0 < h <= 0x400_0000_0000,
    ensures
        -0x4000_0000_0000_0000 <= c * h <= 0x4000_0000_0000_0000,
{
}

/// The rounded quotient is no larger in magnitude than the numerator.
proof fn lemma_round_div_mag(n: int, d: int)
    requires
        d >= 1,
        -0x1000_0000_0000_0000_0000_0000 <= n <= 0x1000_0000_0000_0000_0000_0000,
    ensures
        n >= 0 ==> 0 <= round_div(n, d) <= n,
        n < 0 ==> n <= round_div(n, d) <= 0,
{
    if n >= 0 {
        lemma_round_div_mag_nonneg(n, d);
    } else {
        lemma_round_div_mag_nonneg(-n, d);
    }
}

proof fn lemma_round_div_mag_nonneg(n: int, d: int)
    requires
        d >= 1,
        n >= 0,
    ensures
        0 <= (n + d / 2) / d <= n,
{
    lemma_fundamental_div_mod(n + d / 2, d);
    let q = (n + d / 2) / d;
    let r = (n + d / 2) % d;
    assert(d * q == n + d / 2 - r);
    assert(q >= 0 && q <= n) by (nonlinear_arith)
        requires
            d >= 1,
            n >= 0,
            0 <= r < d,
            0 <= d / 2 < d,
            d * q == n + d / 2 - r,
    ;
}

/// Nearest integer to `n / d`, ties rounded away from zero, computed on
/// unsigned magnitudes.
fn round_div_i128(n: i128, d: i128) -> (q: i128)
    requires
        1 <= d <= 0x7fff_ffff_ffff_ffff,
        -0x1000_0000_0000_0000_0000_0000 <= n <= 0x1000_0000_0000_0000_0000_0000,
    ensures
        q == round_div(n as int, d as int),
{
    let du: u128 = d as u128;
    let half: u128 = du / 2;
    if n >= 0 {
        let m: u128 = n as u128;
        let qu: u128 = (m + half) / du;
        proof {
            lemma_round_div_mag_nonneg(n as int, d as int);
        }
        qu as i128
    } else {
        let m: u128 = (-n) as u128;
        let qu: u128 = (m + half) / du;
        proof {
            lemma_round_div_mag_nonneg(-n as int, d as int);
        }
        -(qu as i128)
    }
}

/// Rounding error bound: the rounded quotient times the divisor misses
/// the numerator by at most half the divisor.
proof fn lemma_round_div_err(n: int, d: int)
    requires
        d >= 1,
    ensures
        -(d / 2) <= round_div(n, d) * d - n <= d / 2,
{
    if n >= 0 {
        lemma_round_div_err_nonneg(n, d);
    } else {
        lemma_round_div_err_nonneg(-n, d);
        let q = (-n + d / 2) / d;
        assert(round_div(n, d) * d == -(q * d)) by (nonlinear_arith)
            requires
                round_div(n, d) == -q,
    ;
    }
}

proof fn lemma_round_div_err_nonneg(n: int, d: int)
    requires
        d >= 1,
        n >= 0,
    ensures
        -(d / 2) <= ((n + d / 2) / d) * d - n <= d / 2,
{
    lemma_fundamental_div_mod(n + d / 2, d);
    let q = (n + d / 2) / d;
    let r = (n + d / 2) % d;
    assert(q * d == d * q) by (nonlinear_arith);
    assert(d * q == n + d / 2 - r);
    assert(2 * (d / 2) >= d - 1);
}

/// Exact quotients round back exactly.
proof fn lemma_round_div_exact(c: int, d: int)
    requires
        d >= 1,
    ensures
        round_div(c * d, d) == c,
{
    lemma_round_div_recover(c, 0, d);
}

/// A perturbation of strictly less than half the divisor does not move
/// the rounded quotient.
proof fn lemma_round_div_recover(c: int, e: int, d: int)
    requires
        d >= 1,
        -d < 2 * e < d,
    ensures
        round_div(c * d + e, d) == c,
{
    let h = d / 2;
    assert(0 <= e + h < d);
    if c == 0 {
        assert(c * d == 0) by (nonlinear_arith)
            requires
                c == 0,
        ;
        if e >= 0 {
            lemma_fundamental_div_mod_converse_div(e + h, d, 0, e + h);
        } else {
            assert(0 <= (-e) + h < d);
            lemma_fundamental_div_mod_converse_div((-e) + h, d, 0, (-e) + h);
        }
    } else if c >= 1 {
        assert(c * d + e >= 0) by (nonlinear_arith)
            requires
                c >= 1,
                d >= 1,
                2 * e > -d,
        ;
        assert(c * d + e + h == c * d + (e + h));
        lemma_fundamental_div_mod_converse_div(c * d + e + h, d, c, e + h);
    } else {
        assert(c * d + e < 0) by (nonlinear_arith)
            requires
                c <= -1,
                d >= 1,
                2 * e < d,
        ;
        let m = -(c * d + e);
        assert((-c) * d + (-e) == -(c * d + e)) by (nonlinear_arith);
        assert(m + h == (-c) * d + ((-e) + h));
        assert(0 <= (-e) + h < d);
        lemma_fundamental_div_mod_converse_div(m + h, d, -c, (-e) + h);
        assert(round_div(c * d + e, d) == -((m + h) / d));
    }
}

/// A pixel inside the screen maps to the plane and back to exactly the
/// same pixel, provided the vertical extent is at least one fixed-point
/// unit per pixel row, so the one rounding step of `to_real` stays under
/// half a pixel.
pub proof fn lemma_screen_round_trip(cam: Camera, sp: PixelPoint)
    requires
        cam.wf(),
        sp.x < cam.screen_size.0,
        sp.y < cam.screen_size.1,
        cam.height >= cam.screen_size.1,
    ensures
        cam.to_screen_spec(cam.to_real_spec(sp)) == Some(sp),
{
    let sw = cam.screen_size.0 as int;
    let sh = cam.screen_size.1 as int;
    let hq = cam.height as int;
    let cx = sp.x - sw / 2;
    let cy = (sh - sp.y) - sh / 2;
    lemma_round_trip_axis(cx, hq, sh);
    lemma_round_trip_axis(cy, hq, sh);
    let rp = cam.to_real_spec(sp);
    assert(rp.x == round_div(cx * hq, sh) && rp.y == round_div(cy * hq, sh)) by {
        lemma_mul_dim_height_bound(cx, hq);
        lemma_mul_dim_height_bound(cy, hq);
        lemma_round_div_mag(cx * hq, sh);
        lemma_round_div_mag(cy * hq, sh);
    };
    assert(round_div(rp.x * sh, hq) == cx);
    assert(round_div(rp.y * sh, hq) == cy);
    assert(cx + sw / 2 == sp.x);
    assert(cy + sh / 2 == sh - sp.y);
    assert(1 <= sh - sp.y <= sh);
    assert(cam.to_screen_spec(rp) == Some(sp));
}

/// One axis of the round trip: scaling a centered pixel offset to the
/// plane with one rounding step and back recovers the offset whenever
/// the vertical extent is at least the pixel height of the screen.
proof fn lemma_round_trip_axis(c: int, hq: int, sh: int)
    requires
        1 <= sh,
        sh <= hq,
    ensures
        round_div(round_div(c * hq, sh) * sh, hq) == c,
{
    let q = round_div(c * hq, sh);
    if hq == sh {
        lemma_round_div_exact(c, sh);
        assert(q == c);
        lemma_round_div_exact(c, hq);
        assert(c * sh == c * hq) by (nonlinear_arith)
            requires
                sh == hq,
        ;
    } else {
        lemma_round_div_err(c * hq, sh);
        let e = q * sh - c * hq;
        assert(-(sh / 2) <= e <= sh / 2);
        assert(2 * (sh / 2) <= sh);
        assert(-hq < 2 * e < hq);
        assert(q * sh == c * hq + e);
        lemma_round_div_recover(c, e, hq);
    }
}

} // verus!
