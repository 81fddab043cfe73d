//! Per-frame orchestration: for each object, decide visibility, rotate its
//! local vertices (first around y, then around x, about the object's
//! center), project every rotated vertex, re-apply the distance margin per
//! vertex, and rasterize marker squares and wireframe edges. A vertex the
//! margin rejects is an absent value; a face touching an absent vertex stops
//! all remaining drawing for that object.
use vstd::prelude::*;

use crate::cull::{ax_angle_spec, ax_estimate, cull_spec, margin_rejects_spec, object_visible};
use crate::fixed::{div_trunc, hypot_fx, lemma_mul_le, lemma_tdiv_bounds};
use crate::project::{dist_spec, proj_x_spec, proj_y_spec, projection};
use crate::raster::{
    bresenham_points, draw_bresenham, draw_square, lemma_line_hits_thick, lemma_sq_hits_confine,
    lemma_thick_hits_confine, line_hits, sq_hits, thick_hits,
};
use crate::rotate::{lemma_rot2_bound, rotate_cube, rotate_point_spec};
use crate::{obj_indices_ok, FrameSize, Object, Player, FX_HALF, FX_ONE, PURPLE1};

verus! {

/// The state one object is drawn under: the object, the camera, the
/// object's estimated screen position, the window, the fixed-point
/// sine/cosine of the heading and of the rotation angle, and the byte
/// length of the frame buffer.
pub struct DrawCtx {
    pub shape: Object,
    pub player: Player,
    pub ax2: int,
    pub w: int,
    pub h: int,
    pub hs: int,
    pub hc: int,
    pub rs: int,
    pub rc: int,
    pub len: int,
}

/// The object's center: its anchor pushed by the half-width on every axis.
pub open spec fn object_pivot(shape: Object) -> (int, int, int) {
    let hw = (shape.width as int) * (FX_HALF as int);
    (shape.coords@[0] + hw, shape.coords@[1] + hw, shape.coords@[2] + hw)
}

/// Local vertex `j` oriented for the frame: rotated about the object's
/// center, first around the y axis and then around the x axis.
pub open spec fn rotated_vertex(c: DrawCtx, j: int) -> (int, int, int) {
    let p = object_pivot(c.shape);
    let v = c.shape.vertices@[j];
    let r1 = rotate_point_spec(
        v@[0] as int,
        v@[1] as int,
        v@[2] as int,
        p.0,
        p.1,
        p.2,
        c.rs,
        c.rc,
        'y',
    );
    rotate_point_spec(r1.0, r1.1, r1.2, p.0, p.1, p.2, c.rs, c.rc, 'x')
}

/// The screen point of vertex `j`: the projection of its oriented position.
pub open spec fn vertex_point(c: DrawCtx, j: int) -> (int, int) {
    let rv = rotated_vertex(c, j);
    (
        proj_x_spec(c.w, rv.0 - c.player.x, rv.1 - c.player.y, c.hs, c.hc),
        proj_y_spec(c.h, rv.0 - c.player.x, rv.1 - c.player.y, rv.2),
    )
}

/// Vertex `j` is kept: the object's screen estimate is on screen and the
/// distance margin, re-applied per vertex against that estimate, passes.
pub open spec fn vertex_present(c: DrawCtx, j: int) -> bool {
    let rv = rotated_vertex(c, j);
    c.ax2 < c.w && !margin_rejects_spec(
        dist_spec(rv.0 - c.player.x, rv.1 - c.player.y),
        c.ax2,
        c.w,
    )
}

/// Byte `i` is painted by the five-by-five marker square of vertex `j`.
pub open spec fn marker_hits(c: DrawCtx, i: int, j: int) -> bool {
    let pt = vertex_point(c, j);
    vertex_present(c, j) && pt.0 >= 2 && pt.1 >= 2 && sq_hits(
        i,
        pt.0 - 2,
        pt.1 - 2,
        5,
        5,
        c.w,
        c.h,
        c.len,
    )
}

/// Byte `i` is painted by the marker square of one of the first `jn`
/// vertices.
pub open spec fn marker_paints_upto(c: DrawCtx, i: int, jn: int) -> bool {
    exists|j: int| #![trigger marker_hits(c, i, j)] 0 <= j < jn && marker_hits(c, i, j)
}

/// The number of indices of face `f`.
pub open spec fn face_len(c: DrawCtx, f: int) -> int {
    c.shape.indices@[f]@.len() as int
}

/// Every vertex of face `f` is present.
pub open spec fn face_ok(c: DrawCtx, f: int) -> bool {
    forall|k: int|
        0 <= k < face_len(c, f) ==> vertex_present(c, #[trigger] c.shape.indices@[f]@[k] as int)
}

/// No face before `f` has stopped the drawing: each is empty or fully
/// present.
pub open spec fn faces_ok_before(c: DrawCtx, f: int) -> bool {
    forall|g: int| 0 <= g < f ==> (#[trigger] face_len(c, g) == 0 || face_ok(c, g))
}

/// Face `f` gets its edges drawn: it is non-empty, fully present, and no
/// earlier face stopped the object.
pub open spec fn face_drawn(c: DrawCtx, f: int) -> bool {
    face_len(c, f) > 0 && face_ok(c, f) && faces_ok_before(c, f)
}

/// The far endpoint of edge `e` of a face of `l` indices: the next index,
/// wrapping the last edge back to the first.
pub open spec fn edge_succ(e: int, l: int) -> int {
    if e + 1 < l {
        e + 1
    } else {
        0
    }
}

/// Byte `i` is painted by edge `e` of face `f`: the thick line between the
/// screen points of the edge's two vertices.
pub open spec fn edge_hits(c: DrawCtx, i: int, f: int, e: int) -> bool {
    let ind = c.shape.indices@[f]@;
    let a = vertex_point(c, ind[e] as int);
    let b = vertex_point(c, ind[edge_succ(e, ind.len() as int)] as int);
    thick_hits(i, a.0, a.1, b.0, b.1, c.w, c.h)
}

/// Byte `i` is painted by an edge of a drawn face before face `fb`, or by
/// one of the first `eb` edges of face `fb` itself.
pub open spec fn edge_paints_upto(c: DrawCtx, i: int, fb: int, eb: int) -> bool {
    exists|f: int, e: int|
        #![trigger edge_hits(c, i, f, e)]
        0 <= f < c.shape.indices@.len() && 0 <= e < face_len(c, f) && (f < fb || (f == fb && e
            < eb)) && face_drawn(c, f) && edge_hits(c, i, f, e)
}

/// Byte `i` is painted when the object is drawn under `c`: by a marker
/// square of one of its vertices, or by an edge of one of its drawn faces,
/// up to the stated face and edge bounds.
pub open spec fn dc_paints_upto(c: DrawCtx, i: int, fb: int, eb: int) -> bool {
    marker_paints_upto(c, i, c.shape.vertices@.len() as int) || edge_paints_upto(c, i, fb, eb)
}

/// Byte `i` is painted when the object is drawn under `c`.
pub open spec fn dc_paints(c: DrawCtx, i: int) -> bool {
    dc_paints_upto(c, i, c.shape.indices@.len() as int, 0)
}

/// The state object `k` of the list is drawn under by the scene scan.
pub open spec fn object_ctx(
    objects: Seq<Object>,
    player: Player,
    w: int,
    h: int,
    hs: int,
    hc: int,
    rs: int,
    rc: int,
    len: int,
    k: int,
) -> DrawCtx {
    DrawCtx {
        shape: objects[k],
        player,
        ax2: ax_angle_spec(
            objects[k].coords@[0] - player.x,
            objects[k].coords@[1] - player.y,
            hs,
            hc,
            w,
        ),
        w,
        h,
        hs,
        hc,
        rs,
        rc,
        len,
    }
}

/// Object `k` passes the visibility cull.
pub open spec fn object_passes(objects: Seq<Object>, player: Player, hs: int, hc: int, w: int, k: int) -> bool {
    cull_spec(
        objects[k].coords@[0] as int,
        objects[k].coords@[1] as int,
        objects[k].width as int,
        player.x as int,
        player.y as int,
        hs,
        hc,
        w,
    )
}

/// Byte `i` is painted by one of the first `kn` objects of the scene.
pub open spec fn scene_paints_upto(
    objects: Seq<Object>,
    player: Player,
    w: int,
    h: int,
    hs: int,
    hc: int,
    rs: int,
    rc: int,
    len: int,
    i: int,
    kn: int,
) -> bool {
    exists|k: int|
        #![trigger objects[k]]
        0 <= k < kn && object_passes(objects, player, hs, hc, w, k) && dc_paints(
            object_ctx(objects, player, w, h, hs, hc, rs, rc, len, k),
            i,
        )
}

/// Byte `i` is painted by some object of the scene.
pub open spec fn scene_paints(
    objects: Seq<Object>,
    player: Player,
    w: int,
    h: int,
    hs: int,
    hc: int,
    rs: int,
    rc: int,
    len: int,
    i: int,
) -> bool {
    scene_paints_upto(objects, player, w, h, hs, hc, rs, rc, len, i, objects.len() as int)
}

/// Every byte of `f1` that differs from `f0` is an RGB channel byte of a
/// pixel inside the `w` by `h` window, and holds the matching channel of the
/// wireframe color.
pub open spec fn purple_confined(f0: Seq<u8>, f1: Seq<u8>, w: int, h: int) -> bool {
    &&& f1.len() == f0.len()
    &&& forall|i: int|
        0 <= i < f0.len() && #[trigger] f1[i] != f0[i] ==> i % 4 < 3 && i < 4 * w * h && f1[i]
            == PURPLE1@[i % 4]
}

/// A painted byte is an RGB channel byte inside the logical buffer.
proof fn lemma_dc_paints_confine(c: DrawCtx, i: int)
    requires
        dc_paints_upto(c, i, c.shape.indices@.len() as int, 0),
        0 < c.w,
        0 < c.h,
    ensures
        0 <= i,
        i % 4 < 3,
        i < 4 * c.w * c.h,
{
    if marker_paints_upto(c, i, c.shape.vertices@.len() as int) {
        let j = choose|j: int|
            #![trigger marker_hits(c, i, j)]
            0 <= j < c.shape.vertices@.len() && marker_hits(c, i, j);
        let pt = vertex_point(c, j);
        lemma_sq_hits_confine(i, pt.0 - 2, pt.1 - 2, 5, 5, c.w, c.h, c.len);
    } else {
        let (f, e) = choose|f: int, e: int|
            #![trigger edge_hits(c, i, f, e)]
            0 <= f < c.shape.indices@.len() && 0 <= e < face_len(c, f) && (f < c.shape.indices@.len()
                || (f == c.shape.indices@.len() && e < 0)) && face_drawn(c, f) && edge_hits(
                c,
                i,
                f,
                e,
            );
        let ind = c.shape.indices@[f]@;
        let a = vertex_point(c, ind[e] as int);
        let b = vertex_point(c, ind[edge_succ(e, ind.len() as int)] as int);
        lemma_thick_hits_confine(i, a.0, a.1, b.0, b.1, c.w, c.h);
    }
}

/// Draws one visible object: rotates its local vertices about its center
/// (around y, then around x), projects each rotated vertex, drops the ones
/// the distance margin rejects as absent, draws a five-by-five marker square
/// at each present vertex, and then draws the thick wireframe edges of each
/// face, wrapping the last index back to the first. Drawing of the object
/// stops at the first face that touches an absent vertex. The final buffer
/// is pinned down byte for byte: exactly the bytes [`dc_paints`] names are
/// set to the wireframe color, and every other byte is untouched.
#[verifier::rlimit(100)]
pub fn draw_corners(
    shape: &Object,
    player: &Player,
    frame: &mut Vec<u8>,
    window_size: &FrameSize,
    ax2: u32,
    rot_sin: i64,
    rot_cos: i64,
    heading_sin: i64,
    heading_cos: i64,
)
    requires
        0 < window_size.width <= 0x10000,
        0 < window_size.height <= 0x10000,
        old(frame).len() >= 4 * (window_size.width as int) * (window_size.height as int),
        obj_indices_ok(*shape),
        forall|i: int, k: int|
            0 <= i < shape.vertices@.len() && 0 <= k < 3 ==> -0x1000000
                <= #[trigger] shape.vertices@[i]@[k] <= 0x1000000,
        forall|k: int| 0 <= k < 3 ==> -0x1000000 <= #[trigger] shape.coords@[k] <= 0x1000000,
        shape.width <= 256,
        -0x1000000 <= player.x <= 0x1000000,
        -0x1000000 <= player.y <= 0x1000000,
        -FX_ONE <= rot_sin <= FX_ONE,
        -FX_ONE <= rot_cos <= FX_ONE,
        -FX_ONE <= heading_sin <= FX_ONE,
        -FX_ONE <= heading_cos <= FX_ONE,
    ensures
        final(frame).len() == old(frame).len(),
        ({
            let c = (DrawCtx {
                shape: *shape,
                player: *player,
                ax2: ax2 as int,
                w: window_size.width as int,
                h: window_size.height as int,
                hs: heading_sin as int,
                hc: heading_cos as int,
                rs: rot_sin as int,
                rc: rot_cos as int,
                len: old(frame).len() as int,
            });
            forall|i: int|
                0 <= i < old(frame).len() ==> final(frame)@[i] == (if dc_paints(c, i) {
                    PURPLE1@[i % 4]
                } else {
                    old(frame)@[i]
                })
        }),
        purple_confined(
            old(frame)@,
            final(frame)@,
            window_size.width as int,
            window_size.height as int,
        ),
{
    let ghost f0 = frame@;
    let ghost wi = window_size.width as int;
    let ghost hi = window_size.height as int;
    let flen = frame.len();
    let ghost c = DrawCtx {
        shape: *shape,
        player: *player,
        ax2: ax2 as int,
        w: wi,
        h: hi,
        hs: heading_sin as int,
        hc: heading_cos as int,
        rs: rot_sin as int,
        rc: rot_cos as int,
        len: flen as int,
    };
    let hw = (shape.width as i64) * FX_HALF;
    let pivot = [shape.coords[0] + hw, shape.coords[1] + hw, shape.coords[2] + hw];
    let r1 = rotate_cube(&shape.vertices, rot_sin, rot_cos, 'y', pivot);
    proof {
        assert forall|j: int, k: int| 0 <= j < r1@.len() && 0 <= k < 3 implies -0x7800000
            <= #[trigger] r1@[j]@[k] <= 0x7800000 by {
            assert(k == 0 || k == 1 || k == 2);
            let rs = rotate_point_spec(
                shape.vertices@[j]@[0] as int,
                shape.vertices@[j]@[1] as int,
                shape.vertices@[j]@[2] as int,
                pivot@[0] as int,
                pivot@[1] as int,
                pivot@[2] as int,
                rot_sin as int,
                rot_cos as int,
                'y',
            );
            assert(r1@[j]@[0] == rs.0 && r1@[j]@[1] == rs.1 && r1@[j]@[2] == rs.2);
            lemma_rot2_bound(
                shape.vertices@[j]@[2] - pivot@[2],
                shape.vertices@[j]@[0] - pivot@[0],
                rot_sin as int,
                rot_cos as int,
                0x3000000,
                0x3000000,
            );
        }
    }
    let rot_v = rotate_cube(&r1, rot_sin, rot_cos, 'x', pivot);
    proof {
        assert forall|j: int, k: int| 0 <= j < rot_v@.len() && 0 <= k < 3 implies -0x14000000
            <= #[trigger] rot_v@[j]@[k] <= 0x14000000 by {
            assert(k == 0 || k == 1 || k == 2);
            let rs = rotate_point_spec(
                r1@[j]@[0] as int,
                r1@[j]@[1] as int,
                r1@[j]@[2] as int,
                pivot@[0] as int,
                pivot@[1] as int,
                pivot@[2] as int,
                rot_sin as int,
                rot_cos as int,
                'x',
            );
            assert(rot_v@[j]@[0] == rs.0 && rot_v@[j]@[1] == rs.1 && rot_v@[j]@[2] == rs.2);
            lemma_rot2_bound(
                r1@[j]@[1] - pivot@[1],
                r1@[j]@[2] - pivot@[2],
                rot_sin as int,
                rot_cos as int,
                0x9000000,
                0x9000000,
            );
        }
        assert forall|j: int| 0 <= j < rot_v@.len() implies {
            let rv = rotated_vertex(c, j);
            (#[trigger] rot_v@[j])@[0] == rv.0 && rot_v@[j]@[1] == rv.1 && rot_v@[j]@[2] == rv.2
        } by {
            let p = object_pivot(c.shape);
            assert(pivot@[0] == p.0 && pivot@[1] == p.1 && pivot@[2] == p.2);
        }
    }
    let mut points: Vec<Option<[i32; 2]>> = Vec::new();
    let nverts = rot_v.len();
    let mut vi: usize = 0;
    while vi < nverts
        invariant
            vi <= nverts,
            nverts == rot_v@.len(),
            rot_v@.len() == c.shape.vertices@.len(),
            points@.len() == vi,
            frame@.len() == f0.len(),
            f0.len() == flen,
            f0.len() >= 4 * wi * hi,
            0 < window_size.width <= 0x10000,
            0 < window_size.height <= 0x10000,
            wi == window_size.width as int,
            hi == window_size.height as int,
            c == (DrawCtx {
                shape: *shape,
                player: *player,
                ax2: ax2 as int,
                w: wi,
                h: hi,
                hs: heading_sin as int,
                hc: heading_cos as int,
                rs: rot_sin as int,
                rc: rot_cos as int,
                len: flen as int,
            }),
            -0x1000000 <= player.x <= 0x1000000,
            -0x1000000 <= player.y <= 0x1000000,
            -FX_ONE <= heading_sin <= FX_ONE,
            -FX_ONE <= heading_cos <= FX_ONE,
            forall|j: int, k: int|
                0 <= j < rot_v@.len() && 0 <= k < 3 ==> -0x14000000 <= #[trigger] rot_v@[j]@[k]
                    <= 0x14000000,
            forall|j: int|
                0 <= j < rot_v@.len() ==> {
                    let rv = rotated_vertex(c, j);
                    (#[trigger] rot_v@[j])@[0] == rv.0 && rot_v@[j]@[1] == rv.1 && rot_v@[j]@[2]
                        == rv.2
                },
            forall|j: int|
                0 <= j < vi ==> ((#[trigger] points@[j]) matches Some(p) ==> vertex_present(c, j)
                    && p@[0] == vertex_point(c, j).0 && p@[1] == vertex_point(c, j).1 && -0x30000
                    <= p@[0] <= 0x30000 && -0x30000 <= p@[1] <= 0x30000),
            forall|j: int| 0 <= j < vi ==> ((#[trigger] points@[j]) is None ==> !vertex_present(c, j)),
            forall|i: int|
                0 <= i < f0.len() ==> frame@[i] == (if marker_paints_upto(c, i, vi as int) {
                    PURPLE1@[i % 4]
                } else {
                    f0[i]
                }),
        decreases nverts - vi,
    {
        let p = rot_v[vi];
        let x2 = match projection(window_size, player, p, heading_sin, heading_cos) {
            Some(q) => q,
            None => {
                proof {
                    assert(false);
                }
                [0, 0]
            },
        };
        let ghost pt = vertex_point(c, vi as int);
        proof {
            assert(x2@[0] == pt.0 && x2@[1] == pt.1);
        }
        let mut present = false;
        if ax2 < window_size.width {
            let dxp = p[0] - player.x;
            let dyp = p[1] - player.y;
            proof {
                lemma_mul_le(dxp as int, 0x20000000, dxp as int, 0x20000000);
                lemma_mul_le(dyp as int, 0x20000000, dyp as int, 0x20000000);
            }
            let dist = hypot_fx(dxp, dyp);
            if dist != 0 {
                proof {
                    lemma_tdiv_bounds(500 * (FX_ONE as int) * (FX_ONE as int), dist as int);
                }
                let margin = div_trunc(500 * FX_ONE * FX_ONE, dist);
                present = margin + (ax2 as i64) * FX_ONE < (window_size.width as i64) * FX_ONE;
            }
        }
        proof {
            assert(present == vertex_present(c, vi as int));
        }
        if present {
            points.push(Some(x2));
            if x2[0] >= 2 && x2[1] >= 2 {
                let ghost fprev = frame@;
                draw_square(
                    frame,
                    window_size,
                    (x2[0] - 2) as u32,
                    (x2[1] - 2) as u32,
                    5,
                    5,
                    PURPLE1,
                );
                proof {
                    assert forall|i: int| 0 <= i < f0.len() implies frame@[i] == (if
                    marker_paints_upto(c, i, vi + 1) {
                        PURPLE1@[i % 4]
                    } else {
                        f0[i]
                    }) by {
                        if sq_hits(i, pt.0 - 2, pt.1 - 2, 5, 5, wi, hi, flen as int) {
                            assert(marker_hits(c, i, vi as int));
                            assert(marker_paints_upto(c, i, vi + 1));
                        } else {
                            assert(frame@[i] == fprev[i]);
                            if marker_paints_upto(c, i, vi + 1) {
                                let j = choose|j: int|
                                    #![trigger marker_hits(c, i, j)]
                                    0 <= j < vi + 1 && marker_hits(c, i, j);
                                if j == vi {
                                    assert(false);
                                }
                                assert(marker_paints_upto(c, i, vi as int));
                            } else {
                                assert(!marker_paints_upto(c, i, vi as int));
                            }
                        }
                    }
                }
            } else {
                proof {
                    assert forall|i: int| 0 <= i < f0.len() implies marker_paints_upto(
                        c,
                        i,
                        vi + 1,
                    ) == marker_paints_upto(c, i, vi as int) by {
                        if marker_paints_upto(c, i, vi + 1) {
                            let j = choose|j: int|
                                #![trigger marker_hits(c, i, j)]
                                0 <= j < vi + 1 && marker_hits(c, i, j);
                            if j == vi {
                                assert(false);
                            }
                            assert(marker_paints_upto(c, i, vi as int));
                        }
                    }
                }
            }
        } else {
            points.push(None);
            proof {
                assert forall|i: int| 0 <= i < f0.len() implies marker_paints_upto(c, i, vi + 1)
                    == marker_paints_upto(c, i, vi as int) by {
                    if marker_paints_upto(c, i, vi + 1) {
                        let j = choose|j: int|
                            #![trigger marker_hits(c, i, j)]
                            0 <= j < vi + 1 && marker_hits(c, i, j);
                        if j == vi {
                            assert(false);
                        }
                        assert(marker_paints_upto(c, i, vi as int));
                    }
                }
            }
        }
        vi = vi + 1;
    }
    let nfaces = shape.indices.len();
    let mut f: usize = 0;
    while f < nfaces
        invariant
            f <= nfaces,
            f0 == old(frame)@,
            nfaces == c.shape.indices@.len(),
            points@.len() == c.shape.vertices@.len(),
            obj_indices_ok(c.shape),
            frame@.len() == f0.len(),
            f0.len() == flen,
            f0.len() >= 4 * wi * hi,
            0 < window_size.width <= 0x10000,
            0 < window_size.height <= 0x10000,
            wi == window_size.width as int,
            hi == window_size.height as int,
            c == (DrawCtx {
                shape: *shape,
                player: *player,
                ax2: ax2 as int,
                w: wi,
                h: hi,
                hs: heading_sin as int,
                hc: heading_cos as int,
                rs: rot_sin as int,
                rc: rot_cos as int,
                len: flen as int,
            }),
            faces_ok_before(c, f as int),
            forall|j: int|
                0 <= j < points@.len() ==> ((#[trigger] points@[j]) matches Some(p)
                    ==> vertex_present(c, j) && p@[0] == vertex_point(c, j).0 && p@[1]
                    == vertex_point(c, j).1 && -0x30000 <= p@[0] <= 0x30000 && -0x30000 <= p@[1]
                    <= 0x30000),
            forall|j: int|
                0 <= j < points@.len() ==> ((#[trigger] points@[j]) is None ==> !vertex_present(
                    c,
                    j,
                )),
            forall|i: int|
                0 <= i < f0.len() ==> frame@[i] == (if dc_paints_upto(c, i, f as int, 0) {
                    PURPLE1@[i % 4]
                } else {
                    f0[i]
                }),
        decreases nfaces - f,
    {
        let ind: &Vec<usize> = &shape.indices[f];
        let ilen = ind.len();
        if ilen > 0 {
            let mut all_present = true;
            let mut t: usize = 0;
            while t < ilen
                invariant
                    t <= ilen,
                    ilen == ind@.len(),
                    ind@ == c.shape.indices@[f as int]@,
                    f < c.shape.indices@.len(),
                    points@.len() == c.shape.vertices@.len(),
                    obj_indices_ok(c.shape),
                    forall|j: int|
                        0 <= j < points@.len() ==> ((#[trigger] points@[j]) is None
                            ==> !vertex_present(c, j)),
                    forall|j: int|
                        0 <= j < points@.len() ==> ((#[trigger] points@[j]) matches Some(p)
                            ==> vertex_present(c, j)),
                    all_present <==> (forall|u: int|
                        0 <= u < t ==> vertex_present(c, #[trigger] ind@[u] as int)),
                decreases ilen - t,
            {
                if points[ind[t]].is_none() {
                    all_present = false;
                }
                t = t + 1;
            }
            if !all_present {
                proof {
                    assert(!face_ok(c, f as int));
                    assert forall|i: int| 0 <= i < f0.len() implies dc_paints_upto(
                        c,
                        i,
                        nfaces as int,
                        0,
                    ) == dc_paints_upto(c, i, f as int, 0) by {
                        if edge_paints_upto(c, i, nfaces as int, 0) {
                            let (ff, ee) = choose|ff: int, ee: int|
                                #![trigger edge_hits(c, i, ff, ee)]
                                0 <= ff < c.shape.indices@.len() && 0 <= ee < face_len(c, ff) && (
                                ff < nfaces as int || (ff == nfaces as int && ee < 0))
                                    && face_drawn(c, ff) && edge_hits(c, i, ff, ee);
                            if ff >= f {
                                assert(face_len(c, f as int) > 0);
                                if ff == f {
                                    assert(!face_ok(c, ff));
                                } else {
                                    assert(!(face_len(c, f as int) == 0 || face_ok(c, f as int)));
                                    assert(!faces_ok_before(c, ff));
                                }
                                assert(false);
                            }
                            assert(edge_paints_upto(c, i, f as int, 0));
                        }
                    }
                    assert forall|i: int|
                        0 <= i < f0.len() && #[trigger] frame@[i] != f0[i] implies i % 4 < 3 && i
                        < 4 * wi * hi && frame@[i] == PURPLE1@[i % 4] by {
                        lemma_dc_paints_confine(c, i);
                    }
                }
                return ;
            }
            proof {
                assert(face_ok(c, f as int));
                assert(face_drawn(c, f as int));
            }
            let mut e: usize = 0;
            while e < ilen - 1
                invariant
                    e < ilen,
                    ilen == ind@.len(),
                    ilen > 0,
                    ind@ == c.shape.indices@[f as int]@,
                    f < c.shape.indices@.len(),
                    points@.len() == c.shape.vertices@.len(),
                    obj_indices_ok(c.shape),
                    face_drawn(c, f as int),
                    frame@.len() == f0.len(),
                    f0.len() == flen,
                    f0.len() >= 4 * wi * hi,
                    0 < window_size.width <= 0x10000,
                    0 < window_size.height <= 0x10000,
                    wi == window_size.width as int,
                    hi == window_size.height as int,
                    c.w == wi && c.h == hi && c.len == flen as int,
                    forall|j: int|
                        0 <= j < points@.len() ==> ((#[trigger] points@[j]) matches Some(p)
                            ==> vertex_present(c, j) && p@[0] == vertex_point(c, j).0 && p@[1]
                            == vertex_point(c, j).1 && -0x30000 <= p@[0] <= 0x30000 && -0x30000
                            <= p@[1] <= 0x30000),
                    forall|j: int|
                        0 <= j < points@.len() ==> ((#[trigger] points@[j]) is None
                            ==> !vertex_present(c, j)),
                    forall|i: int|
                        0 <= i < f0.len() ==> frame@[i] == (if dc_paints_upto(
                            c,
                            i,
                            f as int,
                            e as int,
                        ) {
                            PURPLE1@[i % 4]
                        } else {
                            f0[i]
                        }),
                decreases ilen - e,
            {
                let pa = match points[ind[e]] {
                    Some(p) => p,
                    None => {
                        proof {
                            assert(vertex_present(c, ind@[e as int] as int));
                            assert(false);
                        }
                        [0, 0]
                    },
                };
                let pb = match points[ind[e + 1]] {
                    Some(p) => p,
                    None => {
                        proof {
                            assert(vertex_present(c, ind@[e + 1] as int));
                            assert(false);
                        }
                        [0, 0]
                    },
                };
                let pts = bresenham_points(pa, pb);
                let ghost fprev = frame@;
                draw_bresenham(frame, window_size, pts, PURPLE1);
                proof {
                    let a = vertex_point(c, ind@[e as int] as int);
                    let b = vertex_point(c, ind@[edge_succ(e as int, ilen as int)] as int);
                    assert(edge_succ(e as int, ilen as int) == e + 1);
                    lemma_line_hits_thick(0, pts@, a.0, a.1, b.0, b.1, wi, hi);
                    assert forall|i: int| 0 <= i < f0.len() implies frame@[i] == (if
                    dc_paints_upto(c, i, f as int, e + 1) {
                        PURPLE1@[i % 4]
                    } else {
                        f0[i]
                    }) by {
                        lemma_line_hits_thick(i, pts@, a.0, a.1, b.0, b.1, wi, hi);
                        if line_hits(i, pts@, wi, hi) {
                            assert(edge_hits(c, i, f as int, e as int));
                            assert(edge_paints_upto(c, i, f as int, e + 1));
                        } else {
                            assert(frame@[i] == fprev[i]);
                            if edge_paints_upto(c, i, f as int, e + 1) {
                                let (ff, ee) = choose|ff: int, ee: int|
                                    #![trigger edge_hits(c, i, ff, ee)]
                                    0 <= ff < c.shape.indices@.len() && 0 <= ee < face_len(c, ff)
                                        && (ff < f as int || (ff == f as int && ee < e + 1))
                                        && face_drawn(c, ff) && edge_hits(c, i, ff, ee);
                                if ff == f as int && ee == e as int {
                                    assert(false);
                                }
                                assert(edge_paints_upto(c, i, f as int, e as int));
                            } else {
                                assert(!edge_paints_upto(c, i, f as int, e as int));
                            }
                        }
                    }
                }
                e = e + 1;
            }
            let pa = match points[ind[ilen - 1]] {
                Some(p) => p,
                None => {
                    proof {
                        assert(vertex_present(c, ind@[ilen - 1] as int));
                        assert(false);
                    }
                    [0, 0]
                },
            };
            let pb = match points[ind[0]] {
                Some(p) => p,
                None => {
                    proof {
                        assert(vertex_present(c, ind@[0] as int));
                        assert(false);
                    }
                    [0, 0]
                },
            };
            let pts = bresenham_points(pa, pb);
            let ghost fprev = frame@;
            draw_bresenham(frame, window_size, pts, PURPLE1);
            proof {
                let a = vertex_point(c, ind@[ilen - 1] as int);
                let b = vertex_point(c, ind@[edge_succ(ilen - 1, ilen as int)] as int);
                assert(edge_succ(ilen - 1, ilen as int) == 0);
                assert forall|i: int| 0 <= i < f0.len() implies frame@[i] == (if dc_paints_upto(
                    c,
                    i,
                    f + 1,
                    0,
                ) {
                    PURPLE1@[i % 4]
                } else {
                    f0[i]
                }) by {
                    lemma_line_hits_thick(i, pts@, a.0, a.1, b.0, b.1, wi, hi);
                    if line_hits(i, pts@, wi, hi) {
                        assert(edge_hits(c, i, f as int, ilen - 1));
                        assert(edge_paints_upto(c, i, f + 1, 0));
                    } else {
                        assert(frame@[i] == fprev[i]);
                        if edge_paints_upto(c, i, f + 1, 0) {
                            let (ff, ee) = choose|ff: int, ee: int|
                                #![trigger edge_hits(c, i, ff, ee)]
                                0 <= ff < c.shape.indices@.len() && 0 <= ee < face_len(c, ff) && (
                                ff < f + 1 || (ff == f + 1 && ee < 0)) && face_drawn(c, ff)
                                    && edge_hits(c, i, ff, ee);
                            if ff == f as int && ee == ilen - 1 {
                                assert(false);
                            }
                            assert(edge_paints_upto(c, i, f as int, ilen - 1));
                        } else {
                            assert(!edge_paints_upto(c, i, f as int, ilen - 1));
                        }
                    }
                }
            }
        } else {
            proof {
                assert forall|i: int| 0 <= i < f0.len() implies dc_paints_upto(c, i, f + 1, 0)
                    == dc_paints_upto(c, i, f as int, 0) by {
                    if edge_paints_upto(c, i, f + 1, 0) {
                        let (ff, ee) = choose|ff: int, ee: int|
                            #![trigger edge_hits(c, i, ff, ee)]
                            0 <= ff < c.shape.indices@.len() && 0 <= ee < face_len(c, ff) && (ff < f
                                + 1 || (ff == f + 1 && ee < 0)) && face_drawn(c, ff) && edge_hits(
                                c,
                                i,
                                ff,
                                ee,
                            );
                        if ff == f as int {
                            assert(false);
                        }
                        assert(edge_paints_upto(c, i, f as int, 0));
                    }
                }
            }
        }
        f = f + 1;
    }
    proof {
        assert forall|i: int| 0 <= i < f0.len() && #[trigger] frame@[i] != f0[i] implies i % 4 < 3
            && i < 4 * wi * hi && frame@[i] == PURPLE1@[i % 4] by {
            lemma_dc_paints_confine(c, i);
        }
    }
}

/// Runs the whole per-frame pipeline over the object list: each object is
/// first put to the visibility culler, and a visible object is rotated,
/// projected and rasterized through [`draw_corners`] with the estimated
/// screen position of its anchor. The final buffer is pinned down byte for
/// byte: exactly the bytes [`scene_paints`] names are set to the wireframe
/// color, every other byte is untouched, and a frame in which every object
/// is culled is left untouched.
pub fn scan_scene(
    object_list: &Vec<Object>,
    player: &Player,
    frame: &mut Vec<u8>,
    window_size: &FrameSize,
    heading_sin: i64,
    heading_cos: i64,
    rot_sin: i64,
    rot_cos: i64,
)
    requires
        0 < window_size.width <= 0x10000,
        0 < window_size.height <= 0x10000,
        old(frame).len() >= 4 * (window_size.width as int) * (window_size.height as int),
        forall|j: int| 0 <= j < object_list@.len() ==> obj_indices_ok(#[trigger] object_list@[j]),
        forall|j: int, i: int, k: int|
            0 <= j < object_list@.len() && 0 <= i < object_list@[j].vertices@.len() && 0 <= k < 3
                ==> -0x1000000 <= #[trigger] object_list@[j].vertices@[i]@[k] <= 0x1000000,
        forall|j: int, k: int|
            0 <= j < object_list@.len() && 0 <= k < 3 ==> -0x1000000
                <= #[trigger] object_list@[j].coords@[k] <= 0x1000000,
        forall|j: int| 0 <= j < object_list@.len() ==> (#[trigger] object_list@[j].width) <= 256,
        -0x1000000 <= player.x <= 0x1000000,
        -0x1000000 <= player.y <= 0x1000000,
        -FX_ONE <= heading_sin <= FX_ONE,
        -FX_ONE <= heading_cos <= FX_ONE,
        -FX_ONE <= rot_sin <= FX_ONE,
        -FX_ONE <= rot_cos <= FX_ONE,
    ensures
        final(frame).len() == old(frame).len(),
        forall|i: int|
            0 <= i < old(frame).len() ==> final(frame)@[i] == (if scene_paints(
                object_list@,
                *player,
                window_size.width as int,
                window_size.height as int,
                heading_sin as int,
                heading_cos as int,
                rot_sin as int,
                rot_cos as int,
                old(frame).len() as int,
                i,
            ) {
                PURPLE1@[i % 4]
            } else {
                old(frame)@[i]
            }),
        purple_confined(
            old(frame)@,
            final(frame)@,
            window_size.width as int,
            window_size.height as int,
        ),
        (forall|j: int|
            0 <= j < object_list@.len() ==> !cull_spec(
                #[trigger] object_list@[j].coords@[0] as int,
                object_list@[j].coords@[1] as int,
                object_list@[j].width as int,
                player.x as int,
                player.y as int,
                heading_sin as int,
                heading_cos as int,
                window_size.width as int,
            )) ==> final(frame)@ == old(frame)@,
{
    let ghost f0 = frame@;
    let ghost wi = window_size.width as int;
    let ghost hi = window_size.height as int;
    let ghost hsi = heading_sin as int;
    let ghost hci = heading_cos as int;
    let ghost rsi = rot_sin as int;
    let ghost rci = rot_cos as int;
    let flen = frame.len();
    let n = object_list.len();
    let mut k: usize = 0;
    while k < n
        invariant
            k <= n,
            n == object_list@.len(),
            f0 == old(frame)@,
            frame@.len() == f0.len(),
            f0.len() == flen,
            f0.len() >= 4 * wi * hi,
            0 < window_size.width <= 0x10000,
            0 < window_size.height <= 0x10000,
            wi == window_size.width as int,
            hi == window_size.height as int,
            hsi == heading_sin as int,
            hci == heading_cos as int,
            rsi == rot_sin as int,
            rci == rot_cos as int,
            forall|j: int|
                0 <= j < object_list@.len() ==> obj_indices_ok(#[trigger] object_list@[j]),
            forall|j: int, i: int, kk: int|
                0 <= j < object_list@.len() && 0 <= i < object_list@[j].vertices@.len() && 0 <= kk
                    < 3 ==> -0x1000000 <= #[trigger] object_list@[j].vertices@[i]@[kk] <= 0x1000000,
            forall|j: int, kk: int|
                0 <= j < object_list@.len() && 0 <= kk < 3 ==> -0x1000000
                    <= #[trigger] object_list@[j].coords@[kk] <= 0x1000000,
            forall|j: int|
                0 <= j < object_list@.len() ==> (#[trigger] object_list@[j].width) <= 256,
            -0x1000000 <= player.x <= 0x1000000,
            -0x1000000 <= player.y <= 0x1000000,
            -FX_ONE <= heading_sin <= FX_ONE,
            -FX_ONE <= heading_cos <= FX_ONE,
            -FX_ONE <= rot_sin <= FX_ONE,
            -FX_ONE <= rot_cos <= FX_ONE,
            forall|i: int|
                0 <= i < f0.len() ==> frame@[i] == (if scene_paints_upto(
                    object_list@,
                    *player,
                    wi,
                    hi,
                    hsi,
                    hci,
                    rsi,
                    rci,
                    flen as int,
                    i,
                    k as int,
                ) {
                    PURPLE1@[i % 4]
                } else {
                    f0[i]
                }),
        decreases n - k,
    {
        let obj: &Object = &object_list[k];
        let visible = object_visible(obj, player, heading_sin, heading_cos, window_size);
        if visible {
            let ax = ax_estimate(obj, player, heading_sin, heading_cos, window_size);
            let ghost fprev = frame@;
            let ghost ck = object_ctx(
                object_list@,
                *player,
                wi,
                hi,
                hsi,
                hci,
                rsi,
                rci,
                flen as int,
                k as int,
            );
            draw_corners(
                obj,
                player,
                frame,
                window_size,
                ax,
                rot_sin,
                rot_cos,
                heading_sin,
                heading_cos,
            );
            proof {
                assert(ck == (DrawCtx {
                    shape: *obj,
                    player: *player,
                    ax2: ax as int,
                    w: wi,
                    h: hi,
                    hs: heading_sin as int,
                    hc: heading_cos as int,
                    rs: rot_sin as int,
                    rc: rot_cos as int,
                    len: flen as int,
                }));
                assert forall|i: int| 0 <= i < f0.len() implies frame@[i] == (if scene_paints_upto(
                    object_list@,
                    *player,
                    wi,
                    hi,
                    hsi,
                    hci,
                    rsi,
                    rci,
                    flen as int,
                    i,
                    k + 1,
                ) {
                    PURPLE1@[i % 4]
                } else {
                    f0[i]
                }) by {
                    if dc_paints(ck, i) {
                        assert(scene_paints_upto(
                            object_list@,
                            *player,
                            wi,
                            hi,
                            hsi,
                            hci,
                            rsi,
                            rci,
                            flen as int,
                            i,
                            k + 1,
                        ));
                    } else {
                        assert(frame@[i] == fprev[i]);
                        if scene_paints_upto(
                            object_list@,
                            *player,
                            wi,
                            hi,
                            hsi,
                            hci,
                            rsi,
                            rci,
                            flen as int,
                            i,
                            k + 1,
                        ) {
                            let kk = choose|kk: int|
                                #![trigger object_list@[kk]]
                                0 <= kk < k + 1 && object_passes(
                                    object_list@,
                                    *player,
                                    hsi,
                                    hci,
                                    wi,
                                    kk,
                                ) && dc_paints(
                                    object_ctx(
                                        object_list@,
                                        *player,
                                        wi,
                                        hi,
                                        hsi,
                                        hci,
                                        rsi,
                                        rci,
                                        flen as int,
                                        kk,
                                    ),
                                    i,
                                );
                            if kk == k {
                                assert(false);
                            }
                            assert(scene_paints_upto(
                                object_list@,
                                *player,
                                wi,
                                hi,
                                hsi,
                                hci,
                                rsi,
                                rci,
                                flen as int,
                                i,
                                k as int,
                            ));
                        } else {
                            assert(!scene_paints_upto(
                                object_list@,
                                *player,
                                wi,
                                hi,
                                hsi,
                                hci,
                                rsi,
                                rci,
                                flen as int,
                                i,
                                k as int,
                            ));
                        }
                    }
                }
            }
        } else {
            proof {
                assert forall|i: int| 0 <= i < f0.len() implies scene_paints_upto(
                    object_list@,
                    *player,
                    wi,
                    hi,
                    hsi,
                    hci,
                    rsi,
                    rci,
                    flen as int,
                    i,
                    k + 1,
                ) == scene_paints_upto(
                    object_list@,
                    *player,
                    wi,
                    hi,
                    hsi,
                    hci,
                    rsi,
                    rci,
                    flen as int,
                    i,
                    k as int,
                ) by {
                    if scene_paints_upto(
                        object_list@,
                        *player,
                        wi,
                        hi,
                        hsi,
                        hci,
                        rsi,
                        rci,
                        flen as int,
                        i,
                        k + 1,
                    ) {
                        let kk = choose|kk: int|
                            #![trigger object_list@[kk]]
                            0 <= kk < k + 1 && object_passes(
                                object_list@,
                                *player,
                                hsi,
                                hci,
                                wi,
                                kk,
                            ) && dc_paints(
                                object_ctx(
                                    object_list@,
                                    *player,
                                    wi,
                                    hi,
                                    hsi,
                                    hci,
                                    rsi,
                                    rci,
                                    flen as int,
                                    kk,
                                ),
                                i,
                            );
                        if kk == k {
                            assert(false);
                        }
                        assert(scene_paints_upto(
                            object_list@,
                            *player,
                            wi,
                            hi,
                            hsi,
                            hci,
                            rsi,
                            rci,
                            flen as int,
                            i,
                            k as int,
                        ));
                    }
                }
            }
        }
        k = k + 1;
    }
    proof {
        assert forall|i: int| 0 <= i < f0.len() && #[trigger] frame@[i] != f0[i] implies i % 4 < 3
            && i < 4 * wi * hi && frame@[i] == PURPLE1@[i % 4] by {
            let kk = choose|kk: int|
                #![trigger object_list@[kk]]
                0 <= kk < n && object_passes(object_list@, *player, hsi, hci, wi, kk) && dc_paints(
                    object_ctx(object_list@, *player, wi, hi, hsi, hci, rsi, rci, flen as int, kk),
                    i,
                );
            lemma_dc_paints_confine(
                object_ctx(object_list@, *player, wi, hi, hsi, hci, rsi, rci, flen as int, kk),
                i,
            );
        }
        if forall|j: int|
            0 <= j < object_list@.len() ==> !cull_spec(
                #[trigger] object_list@[j].coords@[0] as int,
                object_list@[j].coords@[1] as int,
                object_list@[j].width as int,
                player.x as int,
                player.y as int,
                heading_sin as int,
                heading_cos as int,
                window_size.width as int,
            ) {
            assert forall|i: int| 0 <= i < f0.len() implies frame@[i] == f0[i] by {
                if scene_paints(
                    object_list@,
                    *player,
                    wi,
                    hi,
                    hsi,
                    hci,
                    rsi,
                    rci,
                    flen as int,
                    i,
                ) {
                    let kk = choose|kk: int|
                        #![trigger object_list@[kk]]
                        0 <= kk < n && object_passes(object_list@, *player, hsi, hci, wi, kk)
                            && dc_paints(
                            object_ctx(
                                object_list@,
                                *player,
                                wi,
                                hi,
                                hsi,
                                hci,
                                rsi,
                                rci,
                                flen as int,
                                kk,
                            ),
                            i,
                        );
                    assert(false);
                }
            }
            assert(frame@ =~= f0);
        }
    }
}

} // verus!
