use polygon_graphics::cull::{ax_estimate, object_visible};
use polygon_graphics::project::projection;
use polygon_graphics::rotate::{find_corners, rotate_cube};
use polygon_graphics::{vf_default, FrameSize, Object, Player, FX_ONE};

fn player_at(x: i64, y: i64) -> Player {
    Player { fov: 60, half_fov: 30, x, y, frustum: vf_default() }
}

fn object_at(coords: [i64; 3], width: u16) -> Object {
    Object {
        width,
        height: width,
        coords,
        animated: false,
        vertices: Vec::new(),
        indices: Vec::new(),
    }
}

#[test]
fn rotate_by_zero_is_identity() {
    // Sine 0, cosine FX_ONE: every point comes back unchanged, whatever
    // the pivot and the axis.
    let pts = vec![[65536i64, 131072, 196608], [-5i64, 7, 0]];
    let pivot = [12345i64, -777, 3];
    for ax in ['x', 'y', 'z'] {
        let r = rotate_cube(&pts, 0, FX_ONE, ax, pivot);
        assert_eq!(r, pts);
    }
}

#[test]
fn rotate_quarter_turn_about_z() {
    // sin = FX_ONE, cos = 0 about the origin: (1, 0, 0) goes to (0, 1, 0).
    let r = rotate_cube(&vec![[FX_ONE, 0, 0]], FX_ONE, 0, 'z', [0, 0, 0]);
    assert_eq!(r, vec![[0i64, FX_ONE, 0]]);
}

#[test]
fn rotate_quarter_turn_about_y() {
    // About y: (1, 0, 0) goes to (0, 0, -1).
    let r = rotate_cube(&vec![[FX_ONE, 0, 0]], FX_ONE, 0, 'y', [0, 0, 0]);
    assert_eq!(r, vec![[0i64, 0, -FX_ONE]]);
}

#[test]
fn rotate_then_back_is_near_identity() {
    // Rotating by an angle and then by its negation about the same axis
    // and pivot returns each coordinate within a tight tolerance.
    let angle: f64 = 0.3;
    let s = (angle.sin() * FX_ONE as f64) as i64;
    let c = (angle.cos() * FX_ONE as f64) as i64;
    let pts = vec![[3 * FX_ONE, -2 * FX_ONE, 5 * FX_ONE]];
    let pivot = [FX_ONE, FX_ONE, FX_ONE];
    for ax in ['x', 'y', 'z'] {
        let once = rotate_cube(&pts, s, c, ax, pivot);
        let back = rotate_cube(&once, -s, c, ax, pivot);
        for k in 0..3 {
            let diff = (back[0][k] - pts[0][k]).abs();
            assert!(diff <= 32, "axis {ax} coordinate {k} off by {diff}");
        }
    }
}

#[test]
fn projection_straight_ahead_is_mid_screen() {
    let size = FrameSize { width: 1000, height: 600 };
    let player = player_at(0, -40 * FX_ONE);
    let p = projection(&size, &player, [0, 0, 0], 0, FX_ONE).unwrap();
    assert_eq!(p, [500, 300]);
}

#[test]
fn projection_is_deterministic() {
    let size = FrameSize { width: 1000, height: 600 };
    let player = player_at(3 * FX_ONE, -17 * FX_ONE);
    let coords = [2 * FX_ONE, 5 * FX_ONE, FX_ONE];
    let a = projection(&size, &player, coords, 11000, 64000);
    let b = projection(&size, &player, coords, 11000, 64000);
    assert_eq!(a, b);
}

#[test]
fn culler_accepts_object_ahead() {
    let size = FrameSize { width: 1000, height: 600 };
    let player = player_at(0, -40 * FX_ONE);
    let obj = object_at([0, 8 * FX_ONE, 0], 10);
    assert!(object_visible(&obj, &player, 0, FX_ONE, &size));
}

#[test]
fn culler_rejects_steep_bearing() {
    // The anchor sits at bearing sine about 0.9 relative to the heading,
    // which is past the +0.5 limit.
    let size = FrameSize { width: 1000, height: 600 };
    let player = player_at(0, 0);
    let obj = object_at([9 * FX_ONE, 285697, 0], 10);
    assert!(!object_visible(&obj, &player, 0, FX_ONE, &size));
}

#[test]
fn culler_rejects_object_behind() {
    // Straight behind the camera: the bearing cosine is negative.
    let size = FrameSize { width: 1000, height: 600 };
    let player = player_at(0, 0);
    let obj = object_at([0, -20 * FX_ONE, 0], 10);
    assert!(!object_visible(&obj, &player, 0, FX_ONE, &size));
}

#[test]
fn culler_is_pure() {
    let size = FrameSize { width: 1000, height: 600 };
    let player = player_at(7 * FX_ONE, -9 * FX_ONE);
    let obj = object_at([FX_ONE, 30 * FX_ONE, 0], 12);
    let a = object_visible(&obj, &player, 5000, 65000, &size);
    let b = object_visible(&obj, &player, 5000, 65000, &size);
    assert_eq!(a, b);
}

#[test]
fn projection_with_turned_heading() {
    // Heading a quarter turn right (sine FX_ONE, cosine 0): a point dead
    // ahead on the x axis maps to mid-screen, and a point square to the
    // left maps half a screen off the left edge, unclamped.
    let size = FrameSize { width: 1000, height: 600 };
    let player = player_at(0, 0);
    let ahead = projection(&size, &player, [5 * FX_ONE, 0, 0], FX_ONE, 0).unwrap();
    assert_eq!(ahead, [500, 300]);
    let left = projection(&size, &player, [0, 5 * FX_ONE, 0], FX_ONE, 0).unwrap();
    assert_eq!(left, [-500, 300]);
}

#[test]
fn ax_estimate_centers_object_ahead() {
    // An object straight ahead: the cosine term vanishes and the estimate
    // is half the screen width exactly.
    let size = FrameSize { width: 1000, height: 600 };
    let player = player_at(0, -40 * FX_ONE);
    let obj = object_at([0, 8 * FX_ONE, 0], 10);
    assert_eq!(ax_estimate(&obj, &player, 0, FX_ONE, &size), 500);
}

#[test]
fn find_corners_identity_rotation() {
    // Width 10 about anchor 0: center 327680 on each axis, corner offsets
    // are the half-width scaled by the sines of 45 and 225 degrees.
    let shape = object_at([0, 0, 0], 10);
    let r = find_corners(&shape, 0, FX_ONE);
    assert_eq!(r.len(), 8);
    let c = 327680i64;
    let pos = 231705i64;
    let neg = -231705i64;
    assert_eq!(r[0], [c + neg, c + pos, c + pos]);
    assert_eq!(r[1], [c + neg, c + pos, c + neg]);
    assert_eq!(r[2], [c + neg, c + neg, c + pos]);
    assert_eq!(r[4], [c + pos, c + neg, c + pos]);
    assert_eq!(r[7], [c + pos, c + pos, c + neg]);
}

#[test]
fn default_frustum_values() {
    let v = vf_default();
    assert_eq!(v.x, 0);
    assert_eq!(v.base_width, 4 * FX_ONE);
    assert_eq!(v.base_height, 157286);
}
