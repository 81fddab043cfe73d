//! Per-object visibility culling: cheap angular and distance heuristics that
//! decide, once per object and before any per-vertex work, whether the
//! object is drawn at all. An object is rejected when the bearing of its
//! anchor relative to the camera heading is too steep, when it lies behind
//! the camera plane, or when a distance-scaled margin pushes its estimated
//! screen position past the right edge.
use vstd::prelude::*;

use crate::fixed::{
    div_trunc, hypot_fx, lemma_mul_le, lemma_tdiv_bounds, lemma_tdiv_magnitude, sqrt_floor, tdiv,
};
use crate::project::{bearing_cos, bearing_sin, dist_spec, rel_cos_spec, rel_sin_spec};
use crate::{FrameSize, Object, Player, FX_HALF, FX_ONE};

verus! {

/// Fixed-point sine of 30 degrees, the half field of view.
pub const SIN30: i64 = 32768;

/// Fixed-point cosine of 30 degrees.
pub const COS30: i64 = 56756;

/// The sine of the heading turned left by the half field of view:
/// `sin(heading - 30 degrees)` by the angle-difference identity.
pub open spec fn l_rad_sin_spec(sh: int, ch: int) -> int {
    tdiv(sh * COS30 as int - ch * SIN30 as int, FX_ONE as int)
}

/// The cosine of the bearing from the camera to `(dx, dy)`: `dy` over the
/// planar distance, and one at zero distance.
pub open spec fn obj_angle_cos_spec(dx: int, dy: int) -> int {
    let hyp = dist_spec(dx, dy);
    if hyp == 0 {
        FX_ONE as int
    } else {
        tdiv(dy * FX_ONE as int, hyp)
    }
}

/// The estimated horizontal screen position of the object: half the screen
/// width pushed by the negated cosine of the angle between the distance ray
/// and the heading, clamped below at zero as the saturating cast does.
pub open spec fn ax_angle_spec(dx: int, dy: int, sh: int, ch: int, sw: int) -> int {
    let hyp = dist_spec(dx, dy);
    let h3 = sqrt_floor(hyp * hyp + dx * dx);
    let cr3 = if h3 == 0 {
        ch
    } else {
        tdiv(dx * ch + hyp * sh, h3)
    };
    let t = (sw / 2) * (FX_ONE as int - cr3);
    if t < 0 {
        0
    } else {
        tdiv(t, FX_ONE as int)
    }
}

/// The distance-scaled margin pushes the estimated screen position `ax`
/// past the right screen edge: at planar distance `hyp` the margin is `500`
/// world units over the distance, and a zero distance rejects outright.
pub open spec fn margin_rejects_spec(hyp: int, ax: int, sw: int) -> bool {
    hyp == 0 || tdiv(500 * (FX_ONE as int) * (FX_ONE as int), hyp) + ax * (FX_ONE as int) >= sw * (
    FX_ONE as int)
}

/// The whole visibility decision for an object anchored at `(ox, oy)` with
/// integer width `w`, seen from the camera at `(px, py)` whose heading has
/// fixed-point sine `sh` and cosine `ch`, on a screen `sw` pixels wide.
/// True exactly when the object passes every check and is drawn.
pub open spec fn cull_spec(
    ox: int,
    oy: int,
    w: int,
    px: int,
    py: int,
    sh: int,
    ch: int,
    sw: int,
) -> bool {
    let dx = ox - px;
    let dy = oy - py;
    let dx2 = ox + w * (FX_ONE as int) - px;
    let dy2 = oy + w * (FX_ONE as int) - py;
    let rel_sin = rel_sin_spec(dx, dy, sh, ch);
    let rel2_sin = rel_sin_spec(dx2, dy2, sh, ch);
    let rel_cos = rel_cos_spec(dx, dy, sh, ch);
    if rel2_sin < -(FX_HALF as int) || rel_sin > FX_HALF as int || rel_cos < 0 {
        false
    } else {
        let ax = ax_angle_spec(dx, dy, sh, ch, sw);
        if ax < sw && obj_angle_cos_spec(dx, dy) > l_rad_sin_spec(sh, ch) {
            !margin_rejects_spec(dist_spec(dx, dy), ax, sw)
        } else {
            false
        }
    }
}

/// The estimated horizontal screen position of the object, in executable
/// form; exact against [`ax_angle_spec`] and at most one and a half screen
/// widths.
pub fn ax_estimate(
    obj: &Object,
    player: &Player,
    heading_sin: i64,
    heading_cos: i64,
    window_size: &FrameSize,
) -> (r: u32)
    requires
        0 < window_size.width <= 0x10000,
        forall|k: int| 0 <= k < 3 ==> -0x10000000 <= #[trigger] obj.coords@[k] <= 0x10000000,
        -0x10000000 <= player.x <= 0x10000000,
        -0x10000000 <= player.y <= 0x10000000,
        -FX_ONE <= heading_sin <= FX_ONE,
        -FX_ONE <= heading_cos <= FX_ONE,
    ensures
        r as int == ax_angle_spec(
            obj.coords@[0] - player.x,
            obj.coords@[1] - player.y,
            heading_sin as int,
            heading_cos as int,
            window_size.width as int,
        ),
        r <= 3 * 0x8000,
{
    let dx = obj.coords[0] - player.x;
    let dy = obj.coords[1] - player.y;
    proof {
        lemma_mul_le(dx as int, 0x20000000, dx as int, 0x20000000);
        lemma_mul_le(dy as int, 0x20000000, dy as int, 0x20000000);
    }
    let hyp = hypot_fx(dx, dy);
    proof {
        assert((hyp as int) * (hyp as int) <= dx as int * (dx as int) + dy as int * (dy as int));
    }
    let h3 = hypot_fx(hyp, dx);
    let cr3: i64;
    if h3 == 0 {
        cr3 = heading_cos;
    } else {
        proof {
            lemma_mul_le(dx as int, h3 as int, heading_cos as int, FX_ONE as int);
            lemma_mul_le(hyp as int, h3 as int, heading_sin as int, FX_ONE as int);
            assert((h3 as int) * (FX_ONE as int) + (h3 as int) * (FX_ONE as int) == (2 * FX_ONE)
                * (h3 as int)) by (nonlinear_arith);
            lemma_tdiv_magnitude(
                dx as int * (heading_cos as int) + hyp as int * (heading_sin as int),
                h3 as int,
                2 * FX_ONE,
            );
        }
        cr3 = div_trunc(dx * heading_cos + hyp * heading_sin, h3);
    }
    let half_w = (window_size.width / 2) as i64;
    proof {
        lemma_mul_le(half_w as int, 0x8000, FX_ONE as int - cr3 as int, 3 * FX_ONE as int);
        lemma_mul_le(half_w as int, half_w as int, FX_ONE as int - cr3 as int, 3 * FX_ONE as int);
    }
    let t = half_w * (FX_ONE - cr3);
    if t < 0 {
        0
    } else {
        proof {
            assert((3 * (half_w as int)) * (FX_ONE as int) == (half_w as int) * (3
                * FX_ONE as int)) by (nonlinear_arith);
            lemma_tdiv_magnitude(t as int, FX_ONE as int, 3 * half_w as int);
            lemma_tdiv_bounds(t as int, FX_ONE as int);
        }
        div_trunc(t, FX_ONE) as u32
    }
}

/// The per-object visibility decision, in executable form; exact against
/// [`cull_spec`]. True means the object proceeds to rotation, projection
/// and drawing; false means it is skipped with no drawing and no error.
pub fn object_visible(
    obj: &Object,
    player: &Player,
    heading_sin: i64,
    heading_cos: i64,
    window_size: &FrameSize,
) -> (r: bool)
    requires
        0 < window_size.width <= 0x10000,
        forall|k: int| 0 <= k < 3 ==> -0x10000000 <= #[trigger] obj.coords@[k] <= 0x10000000,
        obj.width <= 4096,
        -0x10000000 <= player.x <= 0x10000000,
        -0x10000000 <= player.y <= 0x10000000,
        -FX_ONE <= heading_sin <= FX_ONE,
        -FX_ONE <= heading_cos <= FX_ONE,
    ensures
        r == cull_spec(
            obj.coords@[0] as int,
            obj.coords@[1] as int,
            obj.width as int,
            player.x as int,
            player.y as int,
            heading_sin as int,
            heading_cos as int,
            window_size.width as int,
        ),
{
    let dx = obj.coords[0] - player.x;
    let dy = obj.coords[1] - player.y;
    let w_fx = (obj.width as i64) * FX_ONE;
    let dx2 = obj.coords[0] + w_fx - player.x;
    let dy2 = obj.coords[1] + w_fx - player.y;
    let rel_sin = bearing_sin(dx, dy, heading_sin, heading_cos);
    let rel2_sin = bearing_sin(dx2, dy2, heading_sin, heading_cos);
    let rel_cos = bearing_cos(dx, dy, heading_sin, heading_cos);
    if rel2_sin < -FX_HALF || rel_sin > FX_HALF || rel_cos < 0 {
        return false;
    }
    let ax = ax_estimate(obj, player, heading_sin, heading_cos, window_size);
    let oc = bearing_cos(dx, dy, 0, FX_ONE);
    proof {
        lemma_obj_angle_cos(dx as int, dy as int);
        lemma_mul_le(heading_sin as int, FX_ONE as int, COS30 as int, FX_ONE as int);
        lemma_mul_le(heading_cos as int, FX_ONE as int, SIN30 as int, FX_ONE as int);
    }
    let lrs = div_trunc(heading_sin * COS30 - heading_cos * SIN30, FX_ONE);
    if !((ax as i64) < window_size.width as i64 && oc > lrs) {
        return false;
    }
    proof {
        lemma_mul_le(dx as int, 0x20000000, dx as int, 0x20000000);
        lemma_mul_le(dy as int, 0x20000000, dy as int, 0x20000000);
    }
    let hyp = hypot_fx(dx, dy);
    if hyp == 0 {
        return false;
    }
    proof {
        lemma_tdiv_bounds(500 * (FX_ONE as int) * (FX_ONE as int), hyp as int);
    }
    let margin = div_trunc(500 * FX_ONE * FX_ONE, hyp);
    !(margin + (ax as i64) * FX_ONE >= (window_size.width as i64) * FX_ONE)
}

/// The bearing cosine toward `(dx, dy)` equals the relative-bearing cosine
/// against a zero heading.
proof fn lemma_obj_angle_cos(dx: int, dy: int)
    ensures
        obj_angle_cos_spec(dx, dy) == rel_cos_spec(dx, dy, 0, FX_ONE as int),
{
    let hyp = dist_spec(dx, dy);
    if hyp != 0 {
        assert(dy * (FX_ONE as int) + dx * 0 == dy * (FX_ONE as int)) by (nonlinear_arith);
    }
}

/// The culler is a pure predicate: two decisions computed from identical
/// object and camera state are identical.
pub proof fn lemma_cull_deterministic(
    r1: bool,
    r2: bool,
    ox: int,
    oy: int,
    w: int,
    px: int,
    py: int,
    sh: int,
    ch: int,
    sw: int,
)
    requires
        r1 == cull_spec(ox, oy, w, px, py, sh, ch, sw),
        r2 == cull_spec(ox, oy, w, px, py, sh, ch, sw),
    ensures
        r1 == r2,
{
}

/// An object whose near-corner relative bearing sine exceeds one half is
/// always rejected by the culler, whatever the rest of its state.
pub proof fn lemma_cull_rejects_steep(
    ox: int,
    oy: int,
    w: int,
    px: int,
    py: int,
    sh: int,
    ch: int,
    sw: int,
)
    requires
        rel_sin_spec(ox - px, oy - py, sh, ch) > FX_HALF as int,
    ensures
        !cull_spec(ox, oy, w, px, py, sh, ch, sw),
{
}

} // verus!
