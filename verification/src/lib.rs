//! A wireframe renderer for polygon meshes: model-space rotation, a
//! camera-relative visibility cull, an angular projection onto screen
//! coordinates, and line/marker rasterization into an RGBA8 pixel buffer.
//!
//! Every world coordinate, angle sine/cosine and distance is carried as a
//! fixed-point `i64`: the real quantity multiplied by [`FX_ONE`] and
//! truncated toward zero. The two angles the caller owns (camera heading and
//! the global rotation angle) enter only through their sine and cosine, which
//! the caller supplies in the same fixed-point form.
use vstd::prelude::*;

pub mod cull;
pub mod fixed;
pub mod parse;
pub mod project;
pub mod raster;
pub mod rotate;
pub mod scene;

verus! {

/// Fixed-point scale: an `i64` coordinate holds the real value times `FX_ONE`.
pub const FX_ONE: i64 = 65536;

/// One half in fixed-point form.
pub const FX_HALF: i64 = 32768;

/// Logical screen width in pixels; fixes the aspect ratio of the projection.
pub const SCREEN_WIDTH: u16 = 1000;

/// Logical screen height in pixels.
pub const SCREEN_HEIGHT: u16 = 600;

/// Pixel scale factor of the presentation surface.
pub const SCALE: u16 = 1;

/// Marker and wireframe palette, RGBA; the alpha channel is never written.
pub const TESTCOLOR: [u8; 4] = [0, 27, 71, 0];

pub const BLUE1: [u8; 4] = [25, 122, 154, 0];

pub const PURPLE1: [u8; 4] = [131, 60, 169, 0];

pub const RED1: [u8; 4] = [154, 25, 70, 0];

/// The camera's viewing frustum. `x` is the heading (yaw) angle in
/// fixed-point radians; it is owned and mutated by the caller, and the
/// rendering core reads the heading only through the sine/cosine pair the
/// caller passes alongside.
pub struct ViewingFrustum {
    pub x: i64,
    pub y: i64,
    pub z: i64,
    pub base_width: i64,
    pub base_height: i64,
}

/// The camera: a ground-plane position plus the frustum holding the heading.
pub struct Player {
    pub fov: u16,
    pub half_fov: u16,
    pub x: i64,
    pub y: i64,
    pub frustum: ViewingFrustum,
}

/// A mesh object: a world-space anchor, a bounding extent, local-space
/// vertices and faces given as index lists into the vertex list.
pub struct Object {
    pub width: u16,
    pub height: u16,
    pub coords: [i64; 3],
    pub animated: bool,
    pub vertices: Vec<[i64; 3]>,
    pub indices: Vec<Vec<usize>>,
}

/// Dimensions, in pixels, of the frame buffer being drawn into.
pub struct FrameSize {
    pub width: u32,
    pub height: u32,
}

/// The default frustum: zeroed position, a 4.0 x 2.4 base.
pub fn vf_default() -> (v: ViewingFrustum)
    ensures
        v.x == 0 && v.y == 0 && v.z == 0,
        v.base_width == 4 * FX_ONE,
        v.base_height == 2 * FX_ONE + 26214,
{
    ViewingFrustum { x: 0, y: 0, z: 0, base_width: 4 * FX_ONE, base_height: 2 * FX_ONE + 26214 }
}

/// Every face index of the object points at an existing vertex.
pub open spec fn obj_indices_ok(obj: Object) -> bool {
    forall|f: int, k: int|
        0 <= f < obj.indices@.len() && 0 <= k < obj.indices@[f]@.len() ==> obj.indices@[f]@[k]
            < obj.vertices@.len()
}

} // verus!
