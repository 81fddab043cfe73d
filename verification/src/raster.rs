//! Rasterization into an RGBA8 byte buffer: clipped thick line segments and
//! filled marker squares. The buffer is row-major with the logical origin at
//! the bottom left: the byte offset of the bottom-up point `(x, y)` is
//! `((height - y) * width + x) * 4`. Only the RGB channels are ever written.
use vstd::prelude::*;

use crate::FrameSize;
use vstd::arithmetic::div_mod::lemma_fundamental_div_mod_converse_mod;

verus! {

/// How many unit offsets a line segment is repeated at to appear thick.
pub const WIRE_THICKNESS: i32 = 2;

/// The pixel walk the Bresenham line stepper takes from `(x0, y0)` to
/// `(x1, y1)`.
pub uninterp spec fn bres_of(x0: int, y0: int, x1: int, y1: int) -> Seq<(i32, i32)>;

/// Relies on line_drawing's `Bresenham` iterator: the walk is a pure
/// function of its two endpoints alone, yields at least one point, and
/// includes both the start and the end point.
#[verifier::external_body]
fn bresenham_segment(x0: i32, y0: i32, x1: i32, y1: i32) -> (r: Vec<(i32, i32)>)
    requires
        -0x1000000 <= x0 <= 0x1000000,
        -0x1000000 <= y0 <= 0x1000000,
        -0x1000000 <= x1 <= 0x1000000,
        -0x1000000 <= y1 <= 0x1000000,
    ensures
        r@ == bres_of(x0 as int, y0 as int, x1 as int, y1 as int),
        r@.len() >= 1,
        r@[0] == (x0, y0),
        r@[r@.len() - 1] == (x1, y1),
{
    line_drawing::Bresenham::new((x0, y0), (x1, y1)).collect()
}

/// The thick line between two points: the Bresenham walk repeated at the
/// origin and shifted by one unit down-left, concatenated in that order.
pub open spec fn thick_line_spec(x0: int, y0: int, x1: int, y1: int) -> Seq<(i32, i32)> {
    bres_of(x0, y0, x1, y1) + bres_of(x0 - 1, y0 - 1, x1 - 1, y1 - 1)
}

/// The point list for a thick line from `p1` to `p2`: the Bresenham walk at
/// `WIRE_THICKNESS` unit offsets along both axes.
pub fn bresenham_points(p1: [i32; 2], p2: [i32; 2]) -> (r: Vec<[i32; 2]>)
    requires
        forall|k: int| 0 <= k < 2 ==> -0xff0000 <= #[trigger] p1@[k] <= 0xff0000,
        forall|k: int| 0 <= k < 2 ==> -0xff0000 <= #[trigger] p2@[k] <= 0xff0000,
    ensures
        ({
            let t = thick_line_spec(p1@[0] as int, p1@[1] as int, p2@[0] as int, p2@[1] as int);
            r@.len() == t.len() && forall|j: int|
                0 <= j < t.len() ==> (#[trigger] r@[j])@[0] == t[j].0 && r@[j]@[1] == t[j].1
        }),
{
    let ghost t = thick_line_spec(p1@[0] as int, p1@[1] as int, p2@[0] as int, p2@[1] as int);
    let mut out: Vec<[i32; 2]> = Vec::new();
    let seg0 = bresenham_segment(p1[0], p1[1], p2[0], p2[1]);
    let seg1 = bresenham_segment(p1[0] - 1, p1[1] - 1, p2[0] - 1, p2[1] - 1);
    let mut j: usize = 0;
    while j < seg0.len()
        invariant
            j <= seg0@.len(),
            out@.len() == j,
            seg0@ == bres_of(p1@[0] as int, p1@[1] as int, p2@[0] as int, p2@[1] as int),
            forall|q: int|
                0 <= q < j ==> (#[trigger] out@[q])@[0] == seg0@[q].0 && out@[q]@[1] == seg0@[q].1,
        decreases seg0@.len() - j,
    {
        let p = seg0[j];
        out.push([p.0, p.1]);
        j = j + 1;
    }
    let ghost n0 = seg0@.len() as int;
    let mut j2: usize = 0;
    while j2 < seg1.len()
        invariant
            j2 <= seg1@.len(),
            out@.len() == n0 + j2,
            n0 == seg0@.len(),
            seg0@ == bres_of(p1@[0] as int, p1@[1] as int, p2@[0] as int, p2@[1] as int),
            seg1@ == bres_of(
                p1@[0] - 1,
                p1@[1] - 1,
                p2@[0] - 1,
                p2@[1] - 1,
            ),
            forall|q: int|
                0 <= q < n0 ==> (#[trigger] out@[q])@[0] == seg0@[q].0 && out@[q]@[1]
                    == seg0@[q].1,
            forall|q: int|
                0 <= q < j2 ==> (#[trigger] out@[n0 + q])@[0] == seg1@[q].0 && out@[n0 + q]@[1]
                    == seg1@[q].1,
        decreases seg1@.len() - j2,
    {
        let p = seg1[j2];
        out.push([p.0, p.1]);
        j2 = j2 + 1;
    }
    proof {
        assert forall|q: int| 0 <= q < t.len() implies (#[trigger] out@[q])@[0] == t[q].0
            && out@[q]@[1] == t[q].1 by {
            if q < n0 {
                assert(t[q] == seg0@[q]);
            } else {
                assert(t[q] == seg1@[q - n0]);
                assert(out@[n0 + (q - n0)]@[0] == seg1@[q - n0].0);
                assert(out@[n0 + (q - n0)]@[1] == seg1@[q - n0].1);
            }
        }
    }
    out
}

/// The point `(x, y)` lands inside the drawable window: within the width
/// and strictly between the bottom row and the height.
pub open spec fn pt_in_range(x: int, y: int, w: int, h: int) -> bool {
    0 <= x < w && 0 < y < h
}

/// The byte offset of the first channel of the bottom-up point `(x, y)`.
pub open spec fn px_offset(x: int, y: int, w: int, h: int) -> int {
    ((h - y) * w + x) * 4
}

/// Byte `i` belongs to one of the RGB channels of the in-range point
/// `(x, y)`.
pub open spec fn hits_pt(i: int, x: int, y: int, w: int, h: int) -> bool {
    pt_in_range(x, y, w, h) && px_offset(x, y, w, h) <= i < px_offset(x, y, w, h) + 3
}

/// Byte `i` belongs to an RGB channel of one of the first `n` points.
pub open spec fn line_hits_upto(i: int, pts: Seq<[i32; 2]>, w: int, h: int, n: int) -> bool {
    exists|k: int|
        0 <= k < n && k < pts.len() && hits_pt(i, pts[k]@[0] as int, pts[k]@[1] as int, w, h)
}

/// Byte `i` belongs to an RGB channel of one of the points.
pub open spec fn line_hits(i: int, pts: Seq<[i32; 2]>, w: int, h: int) -> bool {
    line_hits_upto(i, pts, w, h, pts.len() as int)
}

/// An in-range point's channel bytes sit inside the logical buffer.
pub proof fn lemma_px_offset_bound(x: int, y: int, w: int, h: int)
    requires
        pt_in_range(x, y, w, h),
    ensures
        0 <= px_offset(x, y, w, h),
        px_offset(x, y, w, h) + 4 <= 4 * w * h,
        px_offset(x, y, w, h) % 4 == 0,
{
    assert(0 <= (h - y) * w + x && (h - y) * w + x <= w * h - 1) by (nonlinear_arith)
        requires
            0 <= x < w,
            0 < y < h,
    ;
    let q = (h - y) * w + x;
    assert(q * 4 == 4 * q) by (nonlinear_arith);
    assert(4 * w * h == (w * h) * 4) by (nonlinear_arith);
    lemma_fundamental_div_mod_converse_mod(4 * q, 4, q, 0);
}

/// The channel index of a byte within a pixel whose offset is a multiple of
/// four.
pub proof fn lemma_channel(q: int, ch: int)
    requires
        0 <= ch < 4,
        0 <= q,
    ensures
        (4 * q + ch) % 4 == ch,
{
    lemma_fundamental_div_mod_converse_mod(4 * q + ch, 4, q, ch);
}

/// A byte hit by a square cell is an RGB channel byte inside both the
/// logical buffer of the window and the byte buffer itself.
pub proof fn lemma_sq_hits_confine(
    i: int,
    x: int,
    y: int,
    w: int,
    h: int,
    sw: int,
    sh: int,
    len: int,
)
    requires
        sq_hits(i, x, y, w, h, sw, sh, len),
        0 < sw,
        0 < sh,
    ensures
        0 <= i,
        i % 4 < 3,
        i < 4 * sw * sh,
        i < len,
{
    let (a, r) = choose|a: int, r: int|
        #![trigger sq_cell_covers(i, x + a, y + r, sw, sh, len)]
        0 <= a < w && 0 <= r < h && (r < h || (r == h && a < 0)) && sq_cell_covers(
            i,
            x + a,
            y + r,
            sw,
            sh,
            len,
        );
    let tx = x + a;
    let ty = y + r;
    lemma_cell_offset_bound(tx, ty, sw, sh);
    let q = (sh - ty) * sw + tx;
    assert(q * 4 == 4 * q) by (nonlinear_arith);
    lemma_channel(q, i - 4 * q);
}

/// A cell whose bottom-up row may also be the bottom buffer row still has
/// its four bytes inside the logical buffer.
pub proof fn lemma_cell_offset_bound(tx: int, ty: int, sw: int, sh: int)
    requires
        0 <= tx < sw,
        1 <= ty <= sh,
    ensures
        0 <= px_offset(tx, ty, sw, sh),
        px_offset(tx, ty, sw, sh) + 4 <= 4 * sw * sh,
        px_offset(tx, ty, sw, sh) % 4 == 0,
{
    assert(0 <= (sh - ty) * sw + tx && (sh - ty) * sw + tx <= sw * sh - 1) by (nonlinear_arith)
        requires
            0 <= tx < sw,
            1 <= ty <= sh,
    ;
    let q = (sh - ty) * sw + tx;
    assert(q * 4 == 4 * q) by (nonlinear_arith);
    assert(4 * sw * sh == (sw * sh) * 4) by (nonlinear_arith);
    lemma_fundamental_div_mod_converse_mod(4 * q, 4, q, 0);
}

/// Byte `i` belongs to an RGB channel of some in-range point of the thick
/// line between `(x0, y0)` and `(x1, y1)`.
pub open spec fn thick_hits(i: int, x0: int, y0: int, x1: int, y1: int, w: int, h: int) -> bool {
    exists|k: int|
        #![trigger thick_line_spec(x0, y0, x1, y1)[k]]
        0 <= k < thick_line_spec(x0, y0, x1, y1).len() && hits_pt(
            i,
            thick_line_spec(x0, y0, x1, y1)[k].0 as int,
            thick_line_spec(x0, y0, x1, y1)[k].1 as int,
            w,
            h,
        )
}

/// A byte hit by a thick line is an RGB channel byte inside the logical
/// buffer of a `w` by `h` window.
pub proof fn lemma_thick_hits_confine(
    i: int,
    x0: int,
    y0: int,
    x1: int,
    y1: int,
    w: int,
    h: int,
)
    requires
        thick_hits(i, x0, y0, x1, y1, w, h),
    ensures
        0 <= i,
        i % 4 < 3,
        i < 4 * w * h,
{
    let t = thick_line_spec(x0, y0, x1, y1);
    let k = choose|k: int|
        #![trigger t[k]]
        0 <= k < t.len() && hits_pt(i, t[k].0 as int, t[k].1 as int, w, h);
    let x = t[k].0 as int;
    let y = t[k].1 as int;
    lemma_px_offset_bound(x, y, w, h);
    let q = (h - y) * w + x;
    assert(q * 4 == 4 * q) by (nonlinear_arith);
    lemma_channel(q, i - 4 * q);
}

/// A point list that mirrors the thick line hits exactly the same bytes.
pub proof fn lemma_line_hits_thick(
    i: int,
    pts: Seq<[i32; 2]>,
    x0: int,
    y0: int,
    x1: int,
    y1: int,
    w: int,
    h: int,
)
    requires
        pts.len() == thick_line_spec(x0, y0, x1, y1).len(),
        forall|j: int|
            0 <= j < pts.len() ==> (#[trigger] pts[j])@[0] == thick_line_spec(x0, y0, x1, y1)[j].0
                && pts[j]@[1] == thick_line_spec(x0, y0, x1, y1)[j].1,
    ensures
        line_hits(i, pts, w, h) == thick_hits(i, x0, y0, x1, y1, w, h),
{
    let t = thick_line_spec(x0, y0, x1, y1);
    if line_hits(i, pts, w, h) {
        let k = choose|k: int|
            0 <= k < pts.len() && k < pts.len() && hits_pt(
                i,
                pts[k]@[0] as int,
                pts[k]@[1] as int,
                w,
                h,
            );
        assert(pts[k]@[0] == t[k].0 && pts[k]@[1] == t[k].1);
        assert(hits_pt(i, t[k].0 as int, t[k].1 as int, w, h));
        assert(thick_hits(i, x0, y0, x1, y1, w, h));
    }
    if thick_hits(i, x0, y0, x1, y1, w, h) {
        let k = choose|k: int|
            #![trigger t[k]]
            0 <= k < t.len() && hits_pt(i, t[k].0 as int, t[k].1 as int, w, h);
        assert(pts[k]@[0] == t[k].0 && pts[k]@[1] == t[k].1);
        assert(hits_pt(i, pts[k]@[0] as int, pts[k]@[1] as int, w, h));
        assert(line_hits_upto(i, pts, w, h, pts.len() as int));
    }
}

/// The index into the shorter point list paired with position `i` of the
/// longer one: `i` scaled by the ratio of the two lengths, rounded down.
pub open spec fn fill_partner(i: int, slen: int, llen: int) -> int {
    (i * slen) / llen
}

/// Byte `i` is hit by one of the first `n` connecting thick lines drawn
/// between the longer point list `big` and the scaled positions of the
/// shorter one, `small`.
pub open spec fn fill_hits_upto(
    i: int,
    big: Seq<[i32; 2]>,
    small: Seq<[i32; 2]>,
    w: int,
    h: int,
    n: int,
) -> bool {
    exists|x: int|
        #![trigger big[x]]
        0 <= x < n && x < big.len() && thick_hits(
            i,
            big[x]@[0] as int,
            big[x]@[1] as int,
            small[fill_partner(x, small.len() as int, big.len() as int)]@[0] as int,
            small[fill_partner(x, small.len() as int, big.len() as int)]@[1] as int,
            w,
            h,
        )
}

/// Byte `i` is hit by one of the connecting thick lines between the longer
/// of the two point lists (ties pick the second) and the shorter one.
pub open spec fn fill_hits(i: int, p0: Seq<[i32; 2]>, p1: Seq<[i32; 2]>, w: int, h: int) -> bool {
    let big = if p0.len() > p1.len() {
        p0
    } else {
        p1
    };
    let small = if p0.len() > p1.len() {
        p1
    } else {
        p0
    };
    fill_hits_upto(i, big, small, w, h, big.len() as int)
}

/// Draws thick connecting lines between the longer of the two point lists
/// and the shorter one, pairing each position of the longer list with the
/// proportionally scaled position of the shorter; used to fill the area
/// between two rasterized runs.
pub fn fill_bresenham(
    points: [Vec<[i32; 2]>; 2],
    frame: &mut Vec<u8>,
    size: &FrameSize,
    color: [u8; 4],
)
    requires
        0 < size.width <= 0x10000,
        0 < size.height <= 0x10000,
        old(frame).len() >= 4 * (size.width as int) * (size.height as int),
        points@[0]@.len() > 0 <==> points@[1]@.len() > 0,
        points@[0]@.len() <= 0x7fffffff,
        points@[1]@.len() <= 0x7fffffff,
        forall|v: int, j: int, k: int|
            0 <= v < 2 && 0 <= j < points@[v]@.len() && 0 <= k < 2 ==> -0xff0000
                <= #[trigger] points@[v]@[j]@[k] <= 0xff0000,
    ensures
        final(frame).len() == old(frame).len(),
        forall|i: int|
            0 <= i < old(frame).len() ==> final(frame)@[i] == (if fill_hits(
                i,
                points@[0]@,
                points@[1]@,
                size.width as int,
                size.height as int,
            ) {
                color@[i % 4]
            } else {
                old(frame)@[i]
            }),
{
    let ghost p0s = points@[0]@;
    let ghost p1s = points@[1]@;
    let ghost wi = size.width as int;
    let ghost hi = size.height as int;
    let chosen_vec: usize;
    let smaller_vec: usize;
    if points[0].len() > points[1].len() {
        chosen_vec = 0;
        smaller_vec = 1;
    } else {
        chosen_vec = 1;
        smaller_vec = 0;
    }
    let vec1: &Vec<[i32; 2]> = &points[chosen_vec];
    let small: &Vec<[i32; 2]> = &points[smaller_vec];
    let ghost bigs = vec1@;
    let ghost smalls = small@;
    let llen = vec1.len();
    let slen = small.len();
    let ghost f0 = frame@;
    let flen = frame.len();
    let mut x: usize = 0;
    while x < llen
        invariant
            frame@.len() == f0.len(),
            f0.len() == flen,
            f0.len() >= 4 * wi * hi,
            0 < size.width <= 0x10000,
            0 < size.height <= 0x10000,
            wi == size.width as int,
            hi == size.height as int,
            x <= llen,
            vec1@ == bigs,
            small@ == smalls,
            llen == bigs.len(),
            slen == smalls.len(),
            llen <= 0x7fffffff,
            slen <= 0x7fffffff,
            llen > 0 ==> slen > 0,
            bigs == (if p0s.len() > p1s.len() {
                p0s
            } else {
                p1s
            }),
            smalls == (if p0s.len() > p1s.len() {
                p1s
            } else {
                p0s
            }),
            forall|j: int, k: int|
                0 <= j < bigs.len() && 0 <= k < 2 ==> -0xff0000 <= #[trigger] bigs[j]@[k]
                    <= 0xff0000,
            forall|j: int, k: int|
                0 <= j < smalls.len() && 0 <= k < 2 ==> -0xff0000 <= #[trigger] smalls[j]@[k]
                    <= 0xff0000,
            forall|i: int|
                0 <= i < f0.len() ==> frame@[i] == (if fill_hits_upto(
                    i,
                    bigs,
                    smalls,
                    wi,
                    hi,
                    x as int,
                ) {
                    color@[i % 4]
                } else {
                    f0[i]
                }),
        decreases llen - x,
    {
        proof {
            assert(0 <= (x as int) * (slen as int) <= 0x7fffffff * 0x7fffffff) by (nonlinear_arith)
                requires
                    0 <= x as int <= 0x7fffffff,
                    0 <= slen as int <= 0x7fffffff,
            ;
        }
        let n64 = ((x as u64) * (slen as u64)) / (llen as u64);
        proof {
            assert((x as int) * (slen as int) < (llen as int) * (slen as int)) by (nonlinear_arith)
                requires
                    0 <= x < llen as int,
                    0 < slen as int,
            ;
            assert((x as int) * (slen as int) / (llen as int) < slen as int) by (nonlinear_arith)
                requires
                    (x as int) * (slen as int) < (llen as int) * (slen as int),
                    0 < llen as int,
                    0 < slen as int,
            ;
        }
        let n = n64 as usize;
        let a = vec1[x];
        let b = small[n];
        let pts = bresenham_points(a, b);
        let ghost fprev = frame@;
        draw_bresenham(frame, size, pts, color);
        proof {
            let bx = bigs[x as int]@[0] as int;
            let by = bigs[x as int]@[1] as int;
            let sx = smalls[n as int]@[0] as int;
            let sy = smalls[n as int]@[1] as int;
            assert(n as int == fill_partner(x as int, slen as int, llen as int));
            assert forall|i: int| 0 <= i < f0.len() implies frame@[i] == (if fill_hits_upto(
                i,
                bigs,
                smalls,
                wi,
                hi,
                x + 1,
            ) {
                color@[i % 4]
            } else {
                f0[i]
            }) by {
                lemma_line_hits_thick(i, pts@, bx, by, sx, sy, wi, hi);
                if line_hits(i, pts@, wi, hi) {
                    assert(thick_hits(i, bx, by, sx, sy, wi, hi));
                    assert(fill_hits_upto(i, bigs, smalls, wi, hi, x + 1));
                } else {
                    assert(frame@[i] == fprev[i]);
                    if fill_hits_upto(i, bigs, smalls, wi, hi, x + 1) {
                        let xx = choose|xx: int|
                            #![trigger bigs[xx]]
                            0 <= xx < x + 1 && xx < bigs.len() && thick_hits(
                                i,
                                bigs[xx]@[0] as int,
                                bigs[xx]@[1] as int,
                                smalls[fill_partner(xx, slen as int, llen as int)]@[0] as int,
                                smalls[fill_partner(xx, slen as int, llen as int)]@[1] as int,
                                wi,
                                hi,
                            );
                        if xx == x {
                            assert(false);
                        }
                        assert(fill_hits_upto(i, bigs, smalls, wi, hi, x as int));
                    } else {
                        assert(!fill_hits_upto(i, bigs, smalls, wi, hi, x as int));
                    }
                }
            }
        }
        x = x + 1;
    }
}

/// Byte `i` is one of the RGB channel bytes of the logical bottom-up point
/// `(tx, ty)`, and all four of that pixel's bytes fit inside the buffer.
pub open spec fn sq_cell_covers(i: int, tx: int, ty: int, sw: int, sh: int, len: int) -> bool {
    &&& 0 <= tx < sw
    &&& 1 <= ty <= sh
    &&& px_offset(tx, ty, sw, sh) + 4 <= len
    &&& px_offset(tx, ty, sw, sh) <= i < px_offset(tx, ty, sw, sh) + 3
}

/// Byte `i` is covered by a cell of the square drawn at `(x, y)` among the
/// cells that precede local row `rd`, or lie in row `rd` before column `ad`.
pub open spec fn sq_hits_upto(
    i: int,
    x: int,
    y: int,
    w: int,
    h: int,
    sw: int,
    sh: int,
    len: int,
    rd: int,
    ad: int,
) -> bool {
    exists|a: int, r: int|
        #![trigger sq_cell_covers(i, x + a, y + r, sw, sh, len)]
        0 <= a < w && 0 <= r < h && (r < rd || (r == rd && a < ad)) && sq_cell_covers(
            i,
            x + a,
            y + r,
            sw,
            sh,
            len,
        )
}

/// Byte `i` is covered by some cell of the square drawn at `(x, y)`.
pub open spec fn sq_hits(
    i: int,
    x: int,
    y: int,
    w: int,
    h: int,
    sw: int,
    sh: int,
    len: int,
) -> bool {
    sq_hits_upto(i, x, y, w, h, sw, sh, len, h, 0)
}

/// Fills a `width` x `height` block of pixels whose bottom-left corner is
/// the logical bottom-up point `(x, y)` with the RGB channels of `color`.
/// Every cell of the block that lands inside the window and whose bytes fit
/// in the buffer is painted; every other byte of the buffer is untouched,
/// and nothing panics however far the block reaches past the edges.
pub fn draw_square(
    frame: &mut Vec<u8>,
    size: &FrameSize,
    x: u32,
    y: u32,
    width: usize,
    height: usize,
    color: [u8; 4],
)
    requires
        0 < size.width <= 0x10000,
        0 < size.height <= 0x10000,
    ensures
        final(frame).len() == old(frame).len(),
        forall|i: int|
            0 <= i < old(frame).len() ==> final(frame)@[i] == (if sq_hits(
                i,
                x as int,
                y as int,
                width as int,
                height as int,
                size.width as int,
                size.height as int,
                old(frame).len() as int,
            ) {
                color@[i % 4]
            } else {
                old(frame)@[i]
            }),
{
    let sw = size.width;
    let sh = size.height;
    let ghost f0 = frame@;
    let ghost swi = sw as int;
    let ghost shi = sh as int;
    let ghost xi = x as int;
    let ghost yi = y as int;
    let ghost wi = width as int;
    let ghost hi = height as int;
    let flen = frame.len();
    let ghost li = flen as int;
    let mut r: usize = 0;
    while r < height
        invariant
            frame@.len() == f0.len(),
            f0.len() == flen,
            r <= hi,
            r == 0 || yi + r <= shi + 1,
            0 < sw <= 0x10000,
            0 < sh <= 0x10000,
            swi == sw as int,
            shi == sh as int,
            xi == x as int,
            yi == y as int,
            wi == width as int,
            hi == height as int,
            li == flen as int,
            forall|i: int|
                0 <= i < f0.len() ==> frame@[i] == (if sq_hits_upto(
                    i,
                    xi,
                    yi,
                    wi,
                    hi,
                    swi,
                    shi,
                    li,
                    r as int,
                    0,
                ) {
                    color@[i % 4]
                } else {
                    f0[i]
                }),
        ensures
            frame@.len() == f0.len(),
            forall|i: int|
                0 <= i < f0.len() ==> frame@[i] == (if sq_hits_upto(
                    i,
                    xi,
                    yi,
                    wi,
                    hi,
                    swi,
                    shi,
                    li,
                    hi,
                    0,
                ) {
                    color@[i % 4]
                } else {
                    f0[i]
                }),
        decreases hi - r,
    {
        let ty = (y as u64) + (r as u64);
        if ty > sh as u64 {
            proof {
                assert forall|i: int| 0 <= i < f0.len() implies sq_hits_upto(
                    i,
                    xi,
                    yi,
                    wi,
                    hi,
                    swi,
                    shi,
                    li,
                    hi,
                    0,
                ) == sq_hits_upto(i, xi, yi, wi, hi, swi, shi, li, r as int, 0) by {
                    if sq_hits_upto(i, xi, yi, wi, hi, swi, shi, li, hi, 0) {
                        let (a, rr) = choose|a: int, rr: int|
                            #![trigger sq_cell_covers(i, xi + a, yi + rr, swi, shi, li)]
                            0 <= a < wi && 0 <= rr < hi && (rr < hi || (rr == hi && a < 0))
                                && sq_cell_covers(i, xi + a, yi + rr, swi, shi, li);
                        if rr >= r {
                            assert(yi + rr >= yi + r > shi);
                            assert(false);
                        }
                        assert(sq_hits_upto(i, xi, yi, wi, hi, swi, shi, li, r as int, 0));
                    }
                }
            }
            break ;
        }
        if ty >= 1 {
            let mut a: usize = 0;
            while a < width
                invariant
                    frame@.len() == f0.len(),
                    f0.len() == flen,
                    a <= wi,
                    a == 0 || xi + a <= swi,
                    r < hi,
                    0 < sw <= 0x10000,
                    0 < sh <= 0x10000,
                    swi == sw as int,
                    shi == sh as int,
                    xi == x as int,
                    yi == y as int,
                    wi == width as int,
                    hi == height as int,
                    li == flen as int,
                    ty == yi + r,
                    1 <= ty <= shi,
                    forall|i: int|
                        0 <= i < f0.len() ==> frame@[i] == (if sq_hits_upto(
                            i,
                            xi,
                            yi,
                            wi,
                            hi,
                            swi,
                            shi,
                            li,
                            r as int,
                            a as int,
                        ) {
                            color@[i % 4]
                        } else {
                            f0[i]
                        }),
                ensures
                    frame@.len() == f0.len(),
                    forall|i: int|
                        0 <= i < f0.len() ==> frame@[i] == (if sq_hits_upto(
                            i,
                            xi,
                            yi,
                            wi,
                            hi,
                            swi,
                            shi,
                            li,
                            r as int,
                            wi,
                        ) {
                            color@[i % 4]
                        } else {
                            f0[i]
                        }),
                decreases wi - a,
            {
                let tx = (x as u64) + (a as u64);
                if tx >= sw as u64 {
                    proof {
                        assert forall|i: int| 0 <= i < f0.len() implies sq_hits_upto(
                            i,
                            xi,
                            yi,
                            wi,
                            hi,
                            swi,
                            shi,
                            li,
                            r as int,
                            wi,
                        ) == sq_hits_upto(i, xi, yi, wi, hi, swi, shi, li, r as int, a as int) by {
                            if sq_hits_upto(i, xi, yi, wi, hi, swi, shi, li, r as int, wi) {
                                let (aa, rr) = choose|aa: int, rr: int|
                                        #![trigger sq_cell_covers(i, xi + aa, yi + rr, swi, shi, li)]
                                    0 <= aa < wi && 0 <= rr < hi && (rr < r || (rr == r && aa < wi))
                                        && sq_cell_covers(i, xi + aa, yi + rr, swi, shi, li);
                                if rr == r && aa >= a {
                                    assert(xi + aa >= xi + a >= swi);
                                    assert(false);
                                }
                                assert(sq_hits_upto(
                                    i,
                                    xi,
                                    yi,
                                    wi,
                                    hi,
                                    swi,
                                    shi,
                                    li,
                                    r as int,
                                    a as int,
                                ));
                            }
                        }
                    }
                    break ;
                }
                let ghost fprev = frame@;
                proof {
                    assert(0 <= (shi - ty as int) * swi <= 0x100000000) by (nonlinear_arith)
                        requires
                            0 <= shi - ty as int <= 0x10000,
                            0 <= swi <= 0x10000,
                    ;
                }
                let off64 = (((sh as u64) - ty) * (sw as u64) + tx) * 4;
                let painted = off64 + 4 <= flen as u64;
                if painted {
                    let off = off64 as usize;
                    frame.set(off, color[0]);
                    frame.set(off + 1, color[1]);
                    frame.set(off + 2, color[2]);
                }
                proof {
                    let offi = ((shi - ty as int) * swi + tx as int) * 4;
                    let q = (shi - ty as int) * swi + tx as int;
                    assert(offi == off64 as int);
                    assert(q * 4 == 4 * q) by (nonlinear_arith);
                    lemma_channel(q, 0);
                    lemma_channel(q, 1);
                    lemma_channel(q, 2);
                    assert forall|i: int| 0 <= i < f0.len() implies frame@[i] == (if sq_hits_upto(
                        i,
                        xi,
                        yi,
                        wi,
                        hi,
                        swi,
                        shi,
                        li,
                        r as int,
                        a + 1,
                    ) {
                        color@[i % 4]
                    } else {
                        f0[i]
                    }) by {
                        let covered = painted && offi <= i < offi + 3;
                        if covered {
                            assert(sq_cell_covers(i, xi + a, yi + r, swi, shi, li));
                            assert(sq_hits_upto(i, xi, yi, wi, hi, swi, shi, li, r as int, a + 1));
                            assert(i % 4 == i - offi);
                            assert(frame@[i] == color@[i % 4]);
                        } else {
                            assert(frame@[i] == fprev[i]);
                            if sq_hits_upto(i, xi, yi, wi, hi, swi, shi, li, r as int, a + 1) {
                                let (aa, rr) = choose|aa: int, rr: int|
                                        #![trigger sq_cell_covers(i, xi + aa, yi + rr, swi, shi, li)]
                                    0 <= aa < wi && 0 <= rr < hi && (rr < r || (rr == r && aa < a
                                        + 1)) && sq_cell_covers(i, xi + aa, yi + rr, swi, shi, li);
                                if rr == r && aa == a {
                                    assert(sq_cell_covers(i, xi + a, yi + r, swi, shi, li));
                                    assert(painted && offi <= i < offi + 3);
                                    assert(false);
                                }
                                assert(sq_hits_upto(
                                    i,
                                    xi,
                                    yi,
                                    wi,
                                    hi,
                                    swi,
                                    shi,
                                    li,
                                    r as int,
                                    a as int,
                                ));
                            } else {
                                assert(!sq_hits_upto(
                                    i,
                                    xi,
                                    yi,
                                    wi,
                                    hi,
                                    swi,
                                    shi,
                                    li,
                                    r as int,
                                    a as int,
                                ));
                            }
                        }
                    }
                }
                a = a + 1;
            }
        } else {
            proof {
                assert forall|i: int| 0 <= i < f0.len() implies sq_hits_upto(
                    i,
                    xi,
                    yi,
                    wi,
                    hi,
                    swi,
                    shi,
                    li,
                    r as int,
                    wi,
                ) == sq_hits_upto(i, xi, yi, wi, hi, swi, shi, li, r as int, 0) by {
                    if sq_hits_upto(i, xi, yi, wi, hi, swi, shi, li, r as int, wi) {
                        let (aa, rr) = choose|aa: int, rr: int|
                        #![trigger sq_cell_covers(i, xi + aa, yi + rr, swi, shi, li)]
                            0 <= aa < wi && 0 <= rr < hi && (rr < r || (rr == r && aa < wi))
                                && sq_cell_covers(i, xi + aa, yi + rr, swi, shi, li);
                        if rr == r {
                            assert(yi + rr == ty);
                            assert(false);
                        }
                        assert(sq_hits_upto(i, xi, yi, wi, hi, swi, shi, li, r as int, 0));
                    }
                }
            }
        }
        proof {
            assert forall|i: int| 0 <= i < f0.len() implies sq_hits_upto(
                i,
                xi,
                yi,
                wi,
                hi,
                swi,
                shi,
                li,
                r + 1,
                0,
            ) == sq_hits_upto(i, xi, yi, wi, hi, swi, shi, li, r as int, wi) by {
                if sq_hits_upto(i, xi, yi, wi, hi, swi, shi, li, r + 1, 0) {
                    let (aa, rr) = choose|aa: int, rr: int|
                        #![trigger sq_cell_covers(i, xi + aa, yi + rr, swi, shi, li)]
                        0 <= aa < wi && 0 <= rr < hi && (rr < r + 1 || (rr == r + 1 && aa < 0))
                            && sq_cell_covers(i, xi + aa, yi + rr, swi, shi, li);
                    assert(sq_hits_upto(i, xi, yi, wi, hi, swi, shi, li, r as int, wi));
                }
                if sq_hits_upto(i, xi, yi, wi, hi, swi, shi, li, r as int, wi) {
                    let (aa, rr) = choose|aa: int, rr: int|
                        #![trigger sq_cell_covers(i, xi + aa, yi + rr, swi, shi, li)]
                        0 <= aa < wi && 0 <= rr < hi && (rr < r || (rr == r && aa < wi))
                            && sq_cell_covers(i, xi + aa, yi + rr, swi, shi, li);
                    assert(sq_hits_upto(i, xi, yi, wi, hi, swi, shi, li, r + 1, 0));
                }
            }
        }
        r = r + 1;
    }
}

/// Writes the RGB channels of every listed point that lands in range;
/// points at or beyond the window edges, at the bottom row or above the top
/// are silently dropped, and the alpha channel is never touched.
pub fn draw_bresenham(frame: &mut Vec<u8>, size: &FrameSize, points: Vec<[i32; 2]>, color: [u8; 4])
    requires
        0 < size.width <= 0x10000,
        0 < size.height <= 0x10000,
        old(frame).len() >= 4 * (size.width as int) * (size.height as int),
    ensures
        final(frame).len() == old(frame).len(),
        forall|i: int|
            0 <= i < old(frame).len() ==> final(frame)@[i] == (if line_hits(
                i,
                points@,
                size.width as int,
                size.height as int,
            ) {
                color@[i % 4]
            } else {
                old(frame)@[i]
            }),
{
    let w = size.width;
    let h = size.height;
    let ghost f0 = frame@;
    let ghost wi = w as int;
    let ghost hi = h as int;
    let flen = frame.len();
    let mut k: usize = 0;
    while k < points.len()
        invariant
            frame@.len() == f0.len(),
            f0.len() == flen,
            f0.len() >= 4 * wi * hi,
            0 < w <= 0x10000,
            0 < h <= 0x10000,
            wi == w as int,
            hi == h as int,
            k <= points@.len(),
            forall|i: int|
                0 <= i < f0.len() ==> frame@[i] == (if line_hits_upto(
                    i,
                    points@,
                    wi,
                    hi,
                    k as int,
                ) {
                    color@[i % 4]
                } else {
                    f0[i]
                }),
        decreases points@.len() - k,
    {
        let ghost fprev = frame@;
        let p = points[k];
        let x = p[0];
        let y = p[1];
        if x >= w as i32 || x < 0 || y <= 0 || y >= h as i32 {
            proof {
                assert forall|i: int| 0 <= i < f0.len() implies line_hits_upto(
                    i,
                    points@,
                    wi,
                    hi,
                    k + 1,
                ) == line_hits_upto(i, points@, wi, hi, k as int) by {
                    if line_hits_upto(i, points@, wi, hi, k + 1) {
                        let kk = choose|kk: int|
                            0 <= kk < k + 1 && kk < points@.len() && hits_pt(
                                i,
                                points@[kk]@[0] as int,
                                points@[kk]@[1] as int,
                                wi,
                                hi,
                            );
                        assert(kk != k);
                        assert(line_hits_upto(i, points@, wi, hi, k as int));
                    }
                }
            }
        } else {
            proof {
                assert(0 <= (hi - y as int) * wi <= 0x100000000) by (nonlinear_arith)
                    requires
                        0 <= hi - y as int <= 0x10000,
                        0 <= wi <= 0x10000,
                ;
            }
            let off64 = (((h as u64) - (y as u64)) * (w as u64) + (x as u64)) * 4;
            proof {
                lemma_px_offset_bound(x as int, y as int, wi, hi);
                assert(((hi - y as int) * wi + x as int) * 4 == off64 as int);
                assert(off64 as int + 4 <= 4 * wi * hi);
                assert(off64 <= usize::MAX as u64);
            }
            let off = off64 as usize;
            frame.set(off, color[0]);
            frame.set(off + 1, color[1]);
            frame.set(off + 2, color[2]);
            proof {
                let offi = off as int;
                let q = (hi - y) * wi + x;
                lemma_channel(q, 0);
                lemma_channel(q, 1);
                lemma_channel(q, 2);
                assert(q * 4 == 4 * q) by (nonlinear_arith);
                assert forall|i: int| 0 <= i < f0.len() implies frame@[i] == (if line_hits_upto(
                    i,
                    points@,
                    wi,
                    hi,
                    k + 1,
                ) {
                    color@[i % 4]
                } else {
                    f0[i]
                }) by {
                    if offi <= i < offi + 3 {
                        assert(hits_pt(i, x as int, y as int, wi, hi));
                        assert(line_hits_upto(i, points@, wi, hi, k + 1));
                        assert(i % 4 == i - offi);
                    } else {
                        assert(frame@[i] == fprev[i]);
                        if line_hits_upto(i, points@, wi, hi, k + 1) {
                            let kk = choose|kk: int|
                                0 <= kk < k + 1 && kk < points@.len() && hits_pt(
                                    i,
                                    points@[kk]@[0] as int,
                                    points@[kk]@[1] as int,
                                    wi,
                                    hi,
                                );
                            if kk == k {
                                assert(false);
                            }
                            assert(line_hits_upto(i, points@, wi, hi, k as int));
                        } else {
                            assert(!line_hits_upto(i, points@, wi, hi, k as int));
                        }
                    }
                }
            }
        }
        k = k + 1;
    }
}

} // verus!
