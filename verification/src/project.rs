//! Projection of a world-space point onto screen coordinates: an angular
//! mapping, not a pinhole camera. The bearing of the point relative to the
//! camera heading is measured by its sine and cosine, computed as exact
//! ratios over the fixed-point planar distance; the vertical mapping uses
//! the combined distance including the height and always yields a point.
use vstd::prelude::*;

use crate::fixed::{
    div_trunc, hypot_fx, lemma_mul_le, lemma_tdiv_magnitude, sqrt_floor, tdiv,
};
use crate::{FrameSize, Player, FX_HALF, FX_ONE, SCREEN_HEIGHT, SCREEN_WIDTH};

verus! {

/// The fixed-point planar distance between the camera and the point.
pub open spec fn dist_spec(dx: int, dy: int) -> int {
    sqrt_floor(dx * dx + dy * dy)
}

/// The sine of the bearing of `(dx, dy)` relative to the heading whose
/// fixed-point sine and cosine are `sh` and `ch`: the bearing is measured by
/// `atan2(dx, dy)`, so its sine is `dx` over the planar distance and the
/// subtraction of the heading unfolds by the angle-difference identity. At
/// zero distance the bearing is zero and the relative sine is `-sh`.
pub open spec fn rel_sin_spec(dx: int, dy: int, sh: int, ch: int) -> int {
    let hyp = dist_spec(dx, dy);
    if hyp == 0 {
        -sh
    } else {
        tdiv(dx * ch - dy * sh, hyp)
    }
}

/// The cosine of the same relative bearing; `ch` at zero distance.
pub open spec fn rel_cos_spec(dx: int, dy: int, sh: int, ch: int) -> int {
    let hyp = dist_spec(dx, dy);
    if hyp == 0 {
        ch
    } else {
        tdiv(dy * ch + dx * sh, hyp)
    }
}

/// The horizontal screen coordinate: the screen width scaled by the
/// relative bearing's sine plus one half, so that straight ahead lands at
/// mid-screen. Not clamped: steep bearings may fall outside the screen.
pub open spec fn proj_x_spec(w: int, dx: int, dy: int, sh: int, ch: int) -> int {
    tdiv(w * (rel_sin_spec(dx, dy, sh, ch) + FX_HALF as int), FX_ONE as int)
}

/// The sine of the vertical angle: the height `z` over the hypotenuse of
/// the combined distance (planar distance joined with `z`) and `z` again,
/// which is the sine of `atan2(combined, z)` plus a quarter turn. One when
/// everything is at zero distance.
pub open spec fn vert_sin_spec(dx: int, dy: int, z: int) -> int {
    let dist = dist_spec(dx, dy);
    let dist2 = sqrt_floor(dist * dist + z * z);
    let h2 = sqrt_floor(dist2 * dist2 + z * z);
    if h2 == 0 {
        FX_ONE as int
    } else {
        tdiv(z * FX_ONE as int, h2)
    }
}

/// The vertical screen coordinate: the screen height scaled by the vertical
/// sine corrected by the logical aspect ratio, plus one half.
pub open spec fn proj_y_spec(h: int, dx: int, dy: int, z: int) -> int {
    tdiv(
        h * (tdiv(vert_sin_spec(dx, dy, z) * SCREEN_WIDTH as int, SCREEN_HEIGHT as int)
            + FX_HALF as int),
        FX_ONE as int,
    )
}

/// The sine of the bearing of `(dx, dy)` relative to the heading, in
/// executable form; exact against [`rel_sin_spec`] and never larger than two
/// in fixed-point magnitude.
pub fn bearing_sin(dx: i64, dy: i64, sh: i64, ch: i64) -> (r: i64)
    requires
        -0x40000000 <= dx <= 0x40000000,
        -0x40000000 <= dy <= 0x40000000,
        -FX_ONE <= sh <= FX_ONE,
        -FX_ONE <= ch <= FX_ONE,
    ensures
        r as int == rel_sin_spec(dx as int, dy as int, sh as int, ch as int),
        -2 * FX_ONE <= r <= 2 * FX_ONE,
{
    proof {
        lemma_mul_le(dx as int, 0x40000000, dx as int, 0x40000000);
        lemma_mul_le(dy as int, 0x40000000, dy as int, 0x40000000);
    }
    let hyp = hypot_fx(dx, dy);
    if hyp == 0 {
        -sh
    } else {
        proof {
            lemma_mul_le(dx as int, hyp as int, ch as int, FX_ONE as int);
            lemma_mul_le(dy as int, hyp as int, sh as int, FX_ONE as int);
            assert((hyp as int) * (FX_ONE as int) + (hyp as int) * (FX_ONE as int) == (2 * FX_ONE)
                * (hyp as int)) by (nonlinear_arith);
            lemma_tdiv_magnitude(
                dx as int * (ch as int) - dy as int * (sh as int),
                hyp as int,
                2 * FX_ONE,
            );
        }
        div_trunc(dx * ch - dy * sh, hyp)
    }
}

/// The cosine of the same relative bearing, in executable form; exact
/// against [`rel_cos_spec`].
pub fn bearing_cos(dx: i64, dy: i64, sh: i64, ch: i64) -> (r: i64)
    requires
        -0x40000000 <= dx <= 0x40000000,
        -0x40000000 <= dy <= 0x40000000,
        -FX_ONE <= sh <= FX_ONE,
        -FX_ONE <= ch <= FX_ONE,
    ensures
        r as int == rel_cos_spec(dx as int, dy as int, sh as int, ch as int),
        -2 * FX_ONE <= r <= 2 * FX_ONE,
{
    proof {
        lemma_mul_le(dx as int, 0x40000000, dx as int, 0x40000000);
        lemma_mul_le(dy as int, 0x40000000, dy as int, 0x40000000);
    }
    let hyp = hypot_fx(dx, dy);
    if hyp == 0 {
        ch
    } else {
        proof {
            lemma_mul_le(dy as int, hyp as int, ch as int, FX_ONE as int);
            lemma_mul_le(dx as int, hyp as int, sh as int, FX_ONE as int);
            assert((hyp as int) * (FX_ONE as int) + (hyp as int) * (FX_ONE as int) == (2 * FX_ONE)
                * (hyp as int)) by (nonlinear_arith);
            lemma_tdiv_magnitude(
                dy as int * (ch as int) + dx as int * (sh as int),
                hyp as int,
                2 * FX_ONE,
            );
        }
        div_trunc(dy * ch + dx * sh, hyp)
    }
}

/// Maps a world-space point onto an integer screen coordinate given the
/// camera position and the heading's fixed-point sine and cosine. Always
/// yields a point; the coordinates are not clamped to the screen and stay
/// within three screen widths and heights of the origin.
pub fn projection(
    window_size: &FrameSize,
    player: &Player,
    coords: [i64; 3],
    heading_sin: i64,
    heading_cos: i64,
) -> (r: Option<[i32; 2]>)
    requires
        0 < window_size.width <= 0x10000,
        0 < window_size.height <= 0x10000,
        forall|k: int| 0 <= k < 3 ==> -0x20000000 <= #[trigger] coords@[k] <= 0x20000000,
        -0x20000000 <= player.x <= 0x20000000,
        -0x20000000 <= player.y <= 0x20000000,
        -FX_ONE <= heading_sin <= FX_ONE,
        -FX_ONE <= heading_cos <= FX_ONE,
    ensures
        r.is_some(),
        ({
            let dx = coords@[0] - player.x;
            let dy = coords@[1] - player.y;
            match r {
                Some(p) => {
                    &&& p@[0] as int == proj_x_spec(
                        window_size.width as int,
                        dx,
                        dy,
                        heading_sin as int,
                        heading_cos as int,
                    )
                    &&& p@[1] as int == proj_y_spec(
                        window_size.height as int,
                        dx,
                        dy,
                        coords@[2] as int,
                    )
                    &&& -0x30000 <= p@[0] <= 0x30000
                    &&& -0x30000 <= p@[1] <= 0x30000
                },
                None => false,
            }
        }),
{
    let dx = coords[0] - player.x;
    let dy = coords[1] - player.y;
    let z = coords[2];
    let rel = bearing_sin(dx, dy, heading_sin, heading_cos);
    let w64 = window_size.width as i64;
    let h64 = window_size.height as i64;
    proof {
        lemma_mul_le(w64 as int, w64 as int, rel as int + FX_HALF as int, 3 * FX_ONE as int);
        assert((3 * (w64 as int)) * (FX_ONE as int) == (w64 as int) * (3 * FX_ONE as int))
            by (nonlinear_arith);
        lemma_tdiv_magnitude(
            w64 as int * (rel as int + FX_HALF as int),
            FX_ONE as int,
            3 * w64 as int,
        );
    }
    let new_x = div_trunc(w64 * (rel + FX_HALF), FX_ONE);
    proof {
        lemma_mul_le(dx as int, 0x40000000, dx as int, 0x40000000);
        lemma_mul_le(dy as int, 0x40000000, dy as int, 0x40000000);
        lemma_mul_le(z as int, 0x20000000, z as int, 0x20000000);
    }
    let dist = hypot_fx(dx, dy);
    proof {
        assert((dist as int) * (dist as int) <= dx as int * (dx as int) + dy as int * (dy as int));
    }
    let dist2 = hypot_fx(dist, z);
    proof {
        assert((dist2 as int) * (dist2 as int) <= dist as int * (dist as int) + z as int * (
        z as int));
    }
    let h2 = hypot_fx(dist2, z);
    let vert: i64;
    if h2 == 0 {
        vert = FX_ONE;
    } else {
        proof {
            lemma_mul_le(z as int, h2 as int, FX_ONE as int, FX_ONE as int);
            assert((h2 as int) * (FX_ONE as int) == (FX_ONE as int) * (h2 as int))
                by (nonlinear_arith);
            lemma_tdiv_magnitude(z as int * (FX_ONE as int), h2 as int, FX_ONE as int);
        }
        vert = div_trunc(z * FX_ONE, h2);
    }
    proof {
        lemma_mul_le(vert as int, FX_ONE as int, SCREEN_WIDTH as int, 1000);
        assert((2 * FX_ONE as int) * 600 >= FX_ONE as int * 1000) by (nonlinear_arith);
        lemma_tdiv_magnitude(vert as int * (SCREEN_WIDTH as int), 600, 2 * FX_ONE as int);
    }
    let aspect = div_trunc(vert * (SCREEN_WIDTH as i64), SCREEN_HEIGHT as i64);
    proof {
        lemma_mul_le(h64 as int, h64 as int, aspect as int + FX_HALF as int, 3 * FX_ONE as int);
        assert((3 * (h64 as int)) * (FX_ONE as int) == (h64 as int) * (3 * FX_ONE as int))
            by (nonlinear_arith);
        lemma_tdiv_magnitude(
            h64 as int * (aspect as int + FX_HALF as int),
            FX_ONE as int,
            3 * h64 as int,
        );
    }
    let new_y = div_trunc(h64 * (aspect + FX_HALF), FX_ONE);
    Some([new_x as i32, new_y as i32])
}

/// Projection is deterministic: two screen points computed from identical
/// screen size, camera state and world point are identical.
pub proof fn lemma_projection_deterministic(
    x1: int,
    y1: int,
    x2: int,
    y2: int,
    w: int,
    h: int,
    dx: int,
    dy: int,
    z: int,
    sh: int,
    ch: int,
)
    requires
        x1 == proj_x_spec(w, dx, dy, sh, ch),
        y1 == proj_y_spec(h, dx, dy, z),
        x2 == proj_x_spec(w, dx, dy, sh, ch),
        y2 == proj_y_spec(h, dx, dy, z),
    ensures
        x1 == x2,
        y1 == y2,
{
}

} // verus!
