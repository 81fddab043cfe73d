//! Rotation of mesh vertices about a fixed pivot and a principal axis.
//!
//! A rotation angle enters through its fixed-point sine and cosine. Each
//! rotated coordinate is computed exactly as
//! `tdiv(u * cos - v * sin, FX_ONE)` / `tdiv(u * sin + v * cos, FX_ONE)` on
//! the pivot-relative coordinates, which is the fixed-point form of the
//! standard axis rotation matrix.
use vstd::prelude::*;

use crate::fixed::{div_trunc, lemma_tdiv_error, lemma_tdiv_magnitude, tdiv};
use crate::{Object, FX_HALF, FX_ONE};
use vstd::arithmetic::div_mod::lemma_fundamental_div_mod_converse_div;

verus! {

/// Fixed-point sine of 45 degrees.
pub const SIN45: i64 = 46341;

/// Fixed-point sine of 225 degrees.
pub const SIN225: i64 = -46341;

/// First component of a plane rotation: `(u * c - v * s) / FX_ONE`,
/// truncated toward zero.
pub open spec fn rot2x(u: int, v: int, s: int, c: int) -> int {
    tdiv(u * c - v * s, FX_ONE as int)
}

/// Second component of a plane rotation: `(u * s + v * c) / FX_ONE`,
/// truncated toward zero.
pub open spec fn rot2y(u: int, v: int, s: int, c: int) -> int {
    tdiv(u * s + v * c, FX_ONE as int)
}

/// One point rotated about the pivot `(px, py, pz)` around the principal
/// axis `ax` by the angle whose fixed-point sine and cosine are `s` and `c`:
/// translate the pivot to the origin, apply the axis rotation matrix,
/// translate back.
pub open spec fn rotate_point_spec(
    x: int,
    y: int,
    z: int,
    px: int,
    py: int,
    pz: int,
    s: int,
    c: int,
    ax: char,
) -> (int, int, int)
    recommends
        ax == 'x' || ax == 'y' || ax == 'z',
{
    let tx = x - px;
    let ty = y - py;
    let tz = z - pz;
    if ax == 'x' {
        (tx + px, rot2x(ty, tz, s, c) + py, rot2y(ty, tz, s, c) + pz)
    } else if ax == 'y' {
        (rot2y(tz, tx, s, c) + px, ty + py, rot2x(tz, tx, s, c) + pz)
    } else {
        (rot2x(tx, ty, s, c) + px, rot2y(tx, ty, s, c) + py, tz + pz)
    }
}

/// The rotated plane components are no larger than `|u| + |v|`.
pub proof fn lemma_rot2_bound(u: int, v: int, s: int, c: int, mu: int, mv: int)
    requires
        -mu <= u <= mu,
        -mv <= v <= mv,
        0 <= mu,
        0 <= mv,
        -(FX_ONE as int) <= s <= FX_ONE as int,
        -(FX_ONE as int) <= c <= FX_ONE as int,
    ensures
        -(mu + mv) <= rot2x(u, v, s, c) <= mu + mv,
        -(mu + mv) <= rot2y(u, v, s, c) <= mu + mv,
{
    let f = FX_ONE as int;
    assert(-(mu * f) <= u * c <= mu * f) by (nonlinear_arith)
        requires
            -mu <= u <= mu,
            0 <= mu,
            -f <= c <= f,
            f > 0,
    ;
    assert(-(mv * f) <= v * s <= mv * f) by (nonlinear_arith)
        requires
            -mv <= v <= mv,
            0 <= mv,
            -f <= s <= f,
            f > 0,
    ;
    assert(-(mu * f) <= u * s <= mu * f) by (nonlinear_arith)
        requires
            -mu <= u <= mu,
            0 <= mu,
            -f <= s <= f,
            f > 0,
    ;
    assert(-(mv * f) <= v * c <= mv * f) by (nonlinear_arith)
        requires
            -mv <= v <= mv,
            0 <= mv,
            -f <= c <= f,
            f > 0,
    ;
    assert((mu + mv) * f == mu * f + mv * f) by (nonlinear_arith);
    lemma_tdiv_magnitude(u * c - v * s, f, mu + mv);
    lemma_tdiv_magnitude(u * s + v * c, f, mu + mv);
}

/// Rotating by a multiple of the scale divides back exactly.
proof fn lemma_tdiv_multiple(u: int, b: int)
    requires
        b > 0,
    ensures
        tdiv(u * b, b) == u,
{
    if u >= 0 {
        lemma_fundamental_div_mod_converse_div(u * b, b, u, 0);
    } else {
        assert(-(u * b) == (-u) * b) by (nonlinear_arith);
        lemma_fundamental_div_mod_converse_div((-u) * b, b, -u, 0);
    }
}

/// Rotating by angle zero (sine `0`, cosine `FX_ONE`) returns every point
/// unchanged, for any pivot and any axis: the identity rotation.
pub proof fn lemma_rotate_identity(
    x: int,
    y: int,
    z: int,
    px: int,
    py: int,
    pz: int,
    ax: char,
)
    requires
        ax == 'x' || ax == 'y' || ax == 'z',
    ensures
        rotate_point_spec(x, y, z, px, py, pz, 0, FX_ONE as int, ax) == (x, y, z),
{
    let f = FX_ONE as int;
    assert forall|u: int, v: int| rot2x(u, v, 0, f) == u && rot2y(u, v, 0, f) == v by {
        assert(u * f - v * 0 == u * f) by (nonlinear_arith);
        assert(u * 0 + v * f == v * f) by (nonlinear_arith);
        lemma_tdiv_multiple(u, f);
        lemma_tdiv_multiple(v, f);
    }
}

/// Rotating a plane point by an angle and then by its negation (sine
/// negated, cosine kept) lands close to the original coordinates: within
/// two fixed-point units when the sine/cosine pair sits exactly on the
/// fixed-point unit circle, and within a slack that grows with the pair's
/// defect from the unit circle and with the size of the point otherwise.
proof fn lemma_rot2_roundtrip(u: int, v: int, s: int, c: int, m: int)
    requires
        -(FX_ONE as int) <= s <= FX_ONE as int,
        -(FX_ONE as int) <= c <= FX_ONE as int,
        0 <= m,
        -m <= u <= m,
        -m <= v <= m,
    ensures
        ({
            let f = FX_ONE as int;
            let dd = s * s + c * c - f * f;
            let absd = if dd < 0 {
                -dd
            } else {
                dd
            };
            let slack = 3 + (m * absd) / (f * f);
            let ru = rot2x(rot2x(u, v, s, c), rot2y(u, v, s, c), -s, c);
            let rv = rot2y(rot2x(u, v, s, c), rot2y(u, v, s, c), -s, c);
            &&& -slack <= ru - u <= slack
            &&& -slack <= rv - v <= slack
            &&& dd == 0 ==> -2 <= ru - u <= 2 && -2 <= rv - v <= 2
        }),
{
    let f = FX_ONE as int;
    let dd = s * s + c * c - f * f;
    let absd = if dd < 0 {
        -dd
    } else {
        dd
    };
    let a = rot2x(u, v, s, c);
    let b = rot2y(u, v, s, c);
    lemma_tdiv_error(u * c - v * s, f);
    lemma_tdiv_error(u * s + v * c, f);
    let e1 = u * c - v * s - f * a;
    let e2 = u * s + v * c - f * b;
    let xx = a * c + b * s;
    let yy = a * (-s) + b * c;
    let fa = f * a;
    let fb = f * b;
    assert(f * xx == fa * c + fb * s) by (nonlinear_arith)
        requires
            xx == a * c + b * s,
            fa == f * a,
            fb == f * b,
    ;
    assert(f * yy == fa * (-s) + fb * c) by (nonlinear_arith)
        requires
            yy == a * (-s) + b * c,
            fa == f * a,
            fb == f * b,
    ;
    assert(fa * c == u * (c * c) - v * (s * c) - e1 * c) by (nonlinear_arith)
        requires
            fa == u * c - v * s - e1,
    ;
    assert(fb * s == u * (s * s) + v * (c * s) - e2 * s) by (nonlinear_arith)
        requires
            fb == u * s + v * c - e2,
    ;
    assert(fa * (-s) == -(u * (c * s)) + v * (s * s) + e1 * s) by (nonlinear_arith)
        requires
            fa == u * c - v * s - e1,
    ;
    assert(fb * c == u * (s * c) + v * (c * c) - e2 * c) by (nonlinear_arith)
        requires
            fb == u * s + v * c - e2,
    ;
    assert(u * (c * c) + u * (s * s) == u * (f * f) + u * dd) by (nonlinear_arith)
        requires
            s * s + c * c == f * f + dd,
    ;
    assert(v * (c * c) + v * (s * s) == v * (f * f) + v * dd) by (nonlinear_arith)
        requires
            s * s + c * c == f * f + dd,
    ;
    assert(v * (s * c) == v * (c * s)) by (nonlinear_arith);
    assert(u * (s * c) == u * (c * s)) by (nonlinear_arith);
    assert(f * xx == u * (f * f) + u * dd - e1 * c - e2 * s);
    assert(f * yy == v * (f * f) + v * dd + e1 * s - e2 * c);
    let ap = tdiv(xx, f);
    let bp = tdiv(yy, f);
    lemma_tdiv_error(xx, f);
    lemma_tdiv_error(yy, f);
    let e3 = xx - f * ap;
    let e4 = yy - f * bp;
    assert(rot2x(a, b, -s, c) == ap) by {
        assert(a * c - b * (-s) == a * c + b * s) by (nonlinear_arith);
    }
    assert(rot2y(a, b, -s, c) == bp);
    assert(f * f * (ap - u) == u * dd - (e1 * c + e2 * s + f * e3)) by (nonlinear_arith)
        requires
            f * xx == u * (f * f) + u * dd - e1 * c - e2 * s,
            e3 == xx - f * ap,
    ;
    assert(f * f * (bp - v) == v * dd + e1 * s - e2 * c - f * e4) by (nonlinear_arith)
        requires
            f * yy == v * (f * f) + v * dd + e1 * s - e2 * c,
            e4 == yy - f * bp,
    ;
    assert(-(f * f) <= e1 * c <= f * f) by (nonlinear_arith)
        requires
            -f < e1 < f,
            -f <= c <= f,
            f > 0,
    ;
    assert(-(f * f) <= e2 * s <= f * f) by (nonlinear_arith)
        requires
            -f < e2 < f,
            -f <= s <= f,
            f > 0,
    ;
    assert(-(f * f) <= e1 * s <= f * f) by (nonlinear_arith)
        requires
            -f < e1 < f,
            -f <= s <= f,
            f > 0,
    ;
    assert(-(f * f) <= e2 * c <= f * f) by (nonlinear_arith)
        requires
            -f < e2 < f,
            -f <= c <= f,
            f > 0,
    ;
    assert(-(f * f) < f * e3 < f * f) by (nonlinear_arith)
        requires
            -f < e3 < f,
            f > 0,
    ;
    assert(-(f * f) < f * e4 < f * f) by (nonlinear_arith)
        requires
            -f < e4 < f,
            f > 0,
    ;
    crate::fixed::lemma_mul_le(u, m, dd, absd);
    crate::fixed::lemma_mul_le(v, m, dd, absd);
    let q = (m * absd) / (f * f);
    vstd::arithmetic::div_mod::lemma_fundamental_div_mod(m * absd, f * f);
    vstd::arithmetic::div_mod::lemma_div_pos_is_pos(m * absd, f * f);
    assert(m * absd >= 0) by (nonlinear_arith)
        requires
            m >= 0,
            absd >= 0,
    ;
    assert(f * f * q + f * f > m * absd) by {
        assert(m * absd == (f * f) * q + (m * absd) % (f * f));
        assert((m * absd) % (f * f) < f * f);
        assert((f * f) * q == f * f * q) by (nonlinear_arith);
    }
    assert(-3 - q <= ap - u <= 3 + q) by (nonlinear_arith)
        requires
            f * f * (ap - u) == u * dd - (e1 * c + e2 * s + f * e3),
            -(m * absd) <= u * dd <= m * absd,
            -(f * f) <= e1 * c <= f * f,
            -(f * f) <= e2 * s <= f * f,
            -(f * f) < f * e3 < f * f,
            f * f * q + f * f > m * absd,
            q >= 0,
            f == 65536,
    ;
    assert(-3 - q <= bp - v <= 3 + q) by (nonlinear_arith)
        requires
            f * f * (bp - v) == v * dd + e1 * s - e2 * c - f * e4,
            -(m * absd) <= v * dd <= m * absd,
            -(f * f) <= e1 * s <= f * f,
            -(f * f) <= e2 * c <= f * f,
            -(f * f) < f * e4 < f * f,
            f * f * q + f * f > m * absd,
            q >= 0,
            f == 65536,
    ;
    if dd == 0 {
        assert(u * dd == 0) by (nonlinear_arith)
            requires
                dd == 0,
        ;
        assert(v * dd == 0) by (nonlinear_arith)
            requires
                dd == 0,
        ;
        assert(-2 <= ap - u <= 2) by (nonlinear_arith)
            requires
                f * f * (ap - u) == u * dd - (e1 * c + e2 * s + f * e3),
                dd == 0,
                u * dd == 0,
                -(f * f) <= e1 * c <= f * f,
                -(f * f) <= e2 * s <= f * f,
                -(f * f) < f * e3 < f * f,
                f == 65536,
        ;
        assert(-2 <= bp - v <= 2) by (nonlinear_arith)
            requires
                f * f * (bp - v) == v * dd + e1 * s - e2 * c - f * e4,
                dd == 0,
                v * dd == 0,
                -(f * f) <= e1 * s <= f * f,
                -(f * f) <= e2 * c <= f * f,
                -(f * f) < f * e4 < f * f,
                f == 65536,
        ;
    }
}

/// Rotating any point by an angle and then by its negation, about the same
/// axis and the same pivot, returns every coordinate close to the original:
/// within two fixed-point units when the sine/cosine pair sits exactly on
/// the fixed-point unit circle, and within a slack that grows with the
/// pair's defect from the unit circle and with the point's distance from
/// the pivot otherwise. The rotation is invertible up to the truncation
/// error of the divisions and the rounding of the sine/cosine pair.
pub proof fn lemma_rotate_roundtrip(
    x: int,
    y: int,
    z: int,
    px: int,
    py: int,
    pz: int,
    s: int,
    c: int,
    ax: char,
    m: int,
)
    requires
        ax == 'x' || ax == 'y' || ax == 'z',
        -(FX_ONE as int) <= s <= FX_ONE as int,
        -(FX_ONE as int) <= c <= FX_ONE as int,
        0 <= m,
        -m <= x - px <= m,
        -m <= y - py <= m,
        -m <= z - pz <= m,
    ensures
        ({
            let f = FX_ONE as int;
            let dd = s * s + c * c - f * f;
            let absd = if dd < 0 {
                -dd
            } else {
                dd
            };
            let slack = 3 + (m * absd) / (f * f);
            let r1 = rotate_point_spec(x, y, z, px, py, pz, s, c, ax);
            let r2 = rotate_point_spec(r1.0, r1.1, r1.2, px, py, pz, -s, c, ax);
            &&& -slack <= r2.0 - x <= slack
            &&& -slack <= r2.1 - y <= slack
            &&& -slack <= r2.2 - z <= slack
            &&& dd == 0 ==> -2 <= r2.0 - x <= 2 && -2 <= r2.1 - y <= 2 && -2 <= r2.2 - z <= 2
        }),
{
    let f = FX_ONE as int;
    let dd = s * s + c * c - f * f;
    let absd = if dd < 0 {
        -dd
    } else {
        dd
    };
    assert(m * absd >= 0) by (nonlinear_arith)
        requires
            m >= 0,
            absd >= 0,
    ;
    vstd::arithmetic::div_mod::lemma_div_pos_is_pos(m * absd, f * f);
    let tx = x - px;
    let ty = y - py;
    let tz = z - pz;
    if ax == 'x' {
        lemma_rot2_roundtrip(ty, tz, s, c, m);
    } else if ax == 'y' {
        lemma_rot2_roundtrip(tz, tx, s, c, m);
    } else {
        lemma_rot2_roundtrip(tx, ty, s, c, m);
    }
}

/// Fixed-point half-width of an object of the given integer width.
pub open spec fn half_width_fx(w: int) -> int {
    w * (FX_HALF as int)
}

/// The positive corner offset: half-width scaled by the sine of 45 degrees.
pub open spec fn pos_scale_spec(hw: int) -> int {
    tdiv(hw * (SIN45 as int), FX_ONE as int)
}

/// The negative corner offset: half-width scaled by the sine of 225 degrees.
pub open spec fn neg_scale_spec(hw: int) -> int {
    tdiv(hw * (SIN225 as int), FX_ONE as int)
}

/// Which corners of the cube lie on the positive-y face.
pub open spec fn corner_y_aligned(i: int) -> bool {
    i == 0 || i == 1 || i == 6 || i == 7
}

/// Corner `i` of the unrotated cube around center `(cx, cy, cz)`.
pub open spec fn base_corner_spec(i: int, cx: int, cy: int, cz: int, pos: int, neg: int) -> (
    int,
    int,
    int,
) {
    (
        cx + if i < 4 {
            neg
        } else {
            pos
        },
        cy + if corner_y_aligned(i) {
            pos
        } else {
            neg
        },
        cz + if i % 2 == 0 {
            pos
        } else {
            neg
        },
    )
}

/// Corner `i` of the cube after the per-frame orientation: the base corner
/// rotated about the center, first around the y axis and then around the x
/// axis.
pub open spec fn find_corners_spec(
    i: int,
    cx: int,
    cy: int,
    cz: int,
    pos: int,
    neg: int,
    s: int,
    c: int,
) -> (int, int, int) {
    let b = base_corner_spec(i, cx, cy, cz, pos, neg);
    let r1 = rotate_point_spec(b.0, b.1, b.2, cx, cy, cz, s, c, 'y');
    rotate_point_spec(r1.0, r1.1, r1.2, cx, cy, cz, s, c, 'x')
}

/// The eight corners of the object's bounding cube, oriented by the current
/// rotation angle: built around the object's center (anchor plus half-width
/// on every axis), offset by the half-width scaled with the sines of 45 and
/// 225 degrees, then rotated about the center around y and then around x.
pub fn find_corners(shape: &Object, rot_sin: i64, rot_cos: i64) -> (r: Vec<[i64; 3]>)
    requires
        -FX_ONE <= rot_sin <= FX_ONE,
        -FX_ONE <= rot_cos <= FX_ONE,
        forall|k: int| 0 <= k < 3 ==> -0x1000000 <= #[trigger] shape.coords@[k] <= 0x1000000,
        shape.width <= 4096,
    ensures
        r@.len() == 8,
        forall|i: int|
            #![trigger r@[i]]
            0 <= i < 8 ==> {
                let rs = find_corners_spec(
                    i,
                    shape.coords@[0] + half_width_fx(shape.width as int),
                    shape.coords@[1] + half_width_fx(shape.width as int),
                    shape.coords@[2] + half_width_fx(shape.width as int),
                    pos_scale_spec(half_width_fx(shape.width as int)),
                    neg_scale_spec(half_width_fx(shape.width as int)),
                    rot_sin as int,
                    rot_cos as int,
                );
                r@[i]@[0] == rs.0 && r@[i]@[1] == rs.1 && r@[i]@[2] == rs.2
            },
{
    let hw = (shape.width as i64) * FX_HALF;
    let cx = shape.coords[0] + hw;
    let cy = shape.coords[1] + hw;
    let cz = shape.coords[2] + hw;
    proof {
        crate::fixed::lemma_mul_le(hw as int, 0x8000000, SIN45 as int, FX_ONE as int);
        crate::fixed::lemma_mul_le(hw as int, 0x8000000, SIN225 as int, FX_ONE as int);
        lemma_tdiv_magnitude(hw as int * (SIN45 as int), FX_ONE as int, hw as int);
        lemma_tdiv_magnitude(hw as int * (SIN225 as int), FX_ONE as int, hw as int);
    }
    let pos_scale = div_trunc(hw * SIN45, FX_ONE);
    let neg_scale = div_trunc(hw * SIN225, FX_ONE);
    let mut base: Vec<[i64; 3]> = Vec::new();
    let mut i: usize = 0;
    while i < 8
        invariant
            i <= 8,
            base@.len() == i,
            0 <= hw <= 0x8000000,
            -0x9000000 <= cx <= 0x9000000,
            -0x9000000 <= cy <= 0x9000000,
            -0x9000000 <= cz <= 0x9000000,
            -(hw as int) <= pos_scale as int <= hw as int,
            -(hw as int) <= neg_scale as int <= hw as int,
            forall|j: int|
                #![trigger base@[j]]
                0 <= j < i ==> {
                    let b = base_corner_spec(
                        j,
                        cx as int,
                        cy as int,
                        cz as int,
                        pos_scale as int,
                        neg_scale as int,
                    );
                    base@[j]@[0] == b.0 && base@[j]@[1] == b.1 && base@[j]@[2] == b.2
                },
        decreases 8 - i,
    {
        let ox = if i < 4 {
            neg_scale
        } else {
            pos_scale
        };
        let oy = if i == 0 || i == 1 || i == 6 || i == 7 {
            pos_scale
        } else {
            neg_scale
        };
        let oz = if i % 2 == 0 {
            pos_scale
        } else {
            neg_scale
        };
        base.push([cx + ox, cy + oy, cz + oz]);
        i = i + 1;
    }
    let pivot = [cx, cy, cz];
    proof {
        assert forall|j: int, k: int| 0 <= j < base@.len() && 0 <= k < 3 implies -0x20000000
            <= #[trigger] base@[j]@[k] <= 0x20000000 by {
            assert(k == 0 || k == 1 || k == 2);
            let b = base_corner_spec(
                j,
                cx as int,
                cy as int,
                cz as int,
                pos_scale as int,
                neg_scale as int,
            );
            assert(base@[j]@[0] == b.0 && base@[j]@[1] == b.1 && base@[j]@[2] == b.2);
        }
    }
    let r1 = rotate_cube(&base, rot_sin, rot_cos, 'y', pivot);
    proof {
        assert forall|j: int, k: int| 0 <= j < r1@.len() && 0 <= k < 3 implies -0x20000000
            <= #[trigger] r1@[j]@[k] <= 0x20000000 by {
            assert(k == 0 || k == 1 || k == 2);
            let b = base_corner_spec(
                j,
                cx as int,
                cy as int,
                cz as int,
                pos_scale as int,
                neg_scale as int,
            );
            assert(base@[j]@[0] == b.0 && base@[j]@[1] == b.1 && base@[j]@[2] == b.2);
            let rs = rotate_point_spec(
                b.0,
                b.1,
                b.2,
                cx as int,
                cy as int,
                cz as int,
                rot_sin as int,
                rot_cos as int,
                'y',
            );
            assert(r1@[j]@[0] == rs.0 && r1@[j]@[1] == rs.1 && r1@[j]@[2] == rs.2);
            lemma_rot2_bound(
                b.2 - cz as int,
                b.0 - cx as int,
                rot_sin as int,
                rot_cos as int,
                0x8000000,
                0x8000000,
            );
        }
    }
    let r2 = rotate_cube(&r1, rot_sin, rot_cos, 'x', pivot);
    r2
}

/// One point rotated in executable code; exact against
/// [`rotate_point_spec`].
fn rotate_point(p: [i64; 3], pivot: [i64; 3], s: i64, c: i64, ax: char) -> (r: [i64; 3])
    requires
        ax == 'x' || ax == 'y' || ax == 'z',
        -FX_ONE <= s <= FX_ONE,
        -FX_ONE <= c <= FX_ONE,
        forall|k: int| 0 <= k < 3 ==> -0x20000000 <= #[trigger] p@[k] <= 0x20000000,
        forall|k: int| 0 <= k < 3 ==> -0x20000000 <= #[trigger] pivot@[k] <= 0x20000000,
    ensures
        r@.len() == 3,
        ({
            let rs = rotate_point_spec(
                p@[0] as int,
                p@[1] as int,
                p@[2] as int,
                pivot@[0] as int,
                pivot@[1] as int,
                pivot@[2] as int,
                s as int,
                c as int,
                ax,
            );
            r@[0] == rs.0 && r@[1] == rs.1 && r@[2] == rs.2
        }),
{
    let tx = p[0] - pivot[0];
    let ty = p[1] - pivot[1];
    let tz = p[2] - pivot[2];
    proof {
        crate::fixed::lemma_mul_le(tx as int, 0x40000000, s as int, 65536);
        crate::fixed::lemma_mul_le(tx as int, 0x40000000, c as int, 65536);
        crate::fixed::lemma_mul_le(ty as int, 0x40000000, s as int, 65536);
        crate::fixed::lemma_mul_le(ty as int, 0x40000000, c as int, 65536);
        crate::fixed::lemma_mul_le(tz as int, 0x40000000, s as int, 65536);
        crate::fixed::lemma_mul_le(tz as int, 0x40000000, c as int, 65536);
        lemma_rot2_bound(ty as int, tz as int, s as int, c as int, 0x40000000, 0x40000000);
        lemma_rot2_bound(tz as int, tx as int, s as int, c as int, 0x40000000, 0x40000000);
        lemma_rot2_bound(tx as int, ty as int, s as int, c as int, 0x40000000, 0x40000000);
    }
    if ax == 'x' {
        let ry = div_trunc(ty * c - tz * s, FX_ONE);
        let rz = div_trunc(ty * s + tz * c, FX_ONE);
        [tx + pivot[0], ry + pivot[1], rz + pivot[2]]
    } else if ax == 'y' {
        let rx = div_trunc(tz * s + tx * c, FX_ONE);
        let rz = div_trunc(tz * c - tx * s, FX_ONE);
        [rx + pivot[0], ty + pivot[1], rz + pivot[2]]
    } else {
        let rx = div_trunc(tx * c - ty * s, FX_ONE);
        let ry = div_trunc(tx * s + ty * c, FX_ONE);
        [rx + pivot[0], ry + pivot[1], tz + pivot[2]]
    }
}

/// Rotates every point of `corner_list` about `pivot` around the principal
/// axis `ax`, by the angle whose fixed-point sine and cosine are `rot_sin`
/// and `rot_cos`. Returns a fresh list; the input is never mutated.
pub fn rotate_cube(
    corner_list: &Vec<[i64; 3]>,
    rot_sin: i64,
    rot_cos: i64,
    ax: char,
    pivot: [i64; 3],
) -> (r: Vec<[i64; 3]>)
    requires
        ax == 'x' || ax == 'y' || ax == 'z',
        -FX_ONE <= rot_sin <= FX_ONE,
        -FX_ONE <= rot_cos <= FX_ONE,
        forall|i: int, k: int|
            0 <= i < corner_list@.len() && 0 <= k < 3 ==> -0x20000000
                <= #[trigger] corner_list@[i]@[k] <= 0x20000000,
        forall|k: int| 0 <= k < 3 ==> -0x20000000 <= #[trigger] pivot@[k] <= 0x20000000,
    ensures
        r@.len() == corner_list@.len(),
        forall|i: int|
            #![trigger r@[i]]
            0 <= i < corner_list@.len() ==> {
                let rs = rotate_point_spec(
                    corner_list@[i]@[0] as int,
                    corner_list@[i]@[1] as int,
                    corner_list@[i]@[2] as int,
                    pivot@[0] as int,
                    pivot@[1] as int,
                    pivot@[2] as int,
                    rot_sin as int,
                    rot_cos as int,
                    ax,
                );
                r@[i]@[0] == rs.0 && r@[i]@[1] == rs.1 && r@[i]@[2] == rs.2
            },
{
    let mut out: Vec<[i64; 3]> = Vec::new();
    let n = corner_list.len();
    let mut i: usize = 0;
    while i < n
        invariant
            n == corner_list@.len(),
            i <= n,
            out@.len() == i,
            -FX_ONE <= rot_sin <= FX_ONE,
            -FX_ONE <= rot_cos <= FX_ONE,
            ax == 'x' || ax == 'y' || ax == 'z',
            forall|j: int, k: int|
                0 <= j < corner_list@.len() && 0 <= k < 3 ==> -0x20000000
                    <= #[trigger] corner_list@[j]@[k] <= 0x20000000,
            forall|k: int| 0 <= k < 3 ==> -0x20000000 <= #[trigger] pivot@[k] <= 0x20000000,
            forall|j: int|
                #![trigger out@[j]]
                0 <= j < i ==> {
                    let rs = rotate_point_spec(
                        corner_list@[j]@[0] as int,
                        corner_list@[j]@[1] as int,
                        corner_list@[j]@[2] as int,
                        pivot@[0] as int,
                        pivot@[1] as int,
                        pivot@[2] as int,
                        rot_sin as int,
                        rot_cos as int,
                        ax,
                    );
                    out@[j]@[0] == rs.0 && out@[j]@[1] == rs.1 && out@[j]@[2] == rs.2
                },
        decreases n - i,
    {
        let p = corner_list[i];
        let rp = rotate_point(p, pivot, rot_sin, rot_cos, ax);
        out.push(rp);
        i = i + 1;
    }
    out
}

} // verus!
