use polygon_graphics::raster::{draw_bresenham, draw_square, fill_bresenham};
use polygon_graphics::{FrameSize, RED1};

fn buffer(w: u32, h: u32) -> Vec<u8> {
    vec![0u8; (w * h * 4) as usize]
}

fn offset(x: u32, y: u32, w: u32, h: u32) -> usize {
    (((h - y) * w + x) * 4) as usize
}

#[test]
fn square_paints_rgb_only() {
    let size = FrameSize { width: 10, height: 10 };
    let mut frame = buffer(10, 10);
    draw_square(&mut frame, &size, 2, 3, 2, 2, RED1);
    for ty in 3..5u32 {
        for tx in 2..4u32 {
            let o = offset(tx, ty, 10, 10);
            assert_eq!(&frame[o..o + 3], &[154, 25, 70]);
            assert_eq!(frame[o + 3], 0);
        }
    }
    let painted: usize = frame.iter().filter(|b| **b != 0).count();
    assert_eq!(painted, 4 * 3);
}

#[test]
fn square_clips_at_edges_without_panic() {
    // The block reaches past the right edge and the top: only the cells
    // inside the window are painted, everything else is untouched.
    let size = FrameSize { width: 10, height: 10 };
    let mut frame = buffer(10, 10);
    draw_square(&mut frame, &size, 8, 9, 5, 5, RED1);
    let mut painted = Vec::new();
    for (i, b) in frame.iter().enumerate() {
        if *b != 0 {
            painted.push(i);
        }
    }
    let mut expected = Vec::new();
    for ty in [9u32, 10u32] {
        for tx in [8u32, 9u32] {
            let o = offset(tx, ty, 10, 10);
            expected.extend([o, o + 1, o + 2]);
        }
    }
    expected.sort();
    assert_eq!(painted, expected);
}

#[test]
fn square_at_bottom_row_is_dropped() {
    // The logical bottom row (y == 0) is never written.
    let size = FrameSize { width: 10, height: 10 };
    let mut frame = buffer(10, 10);
    draw_square(&mut frame, &size, 0, 0, 3, 1, RED1);
    assert!(frame.iter().all(|b| *b == 0));
}

#[test]
fn square_on_short_buffer_is_safe() {
    // A buffer shorter than the window: cells whose bytes do not fit are
    // skipped, nothing panics.
    let size = FrameSize { width: 10, height: 10 };
    let mut frame = vec![0u8; 40];
    draw_square(&mut frame, &size, 0, 1, 10, 10, RED1);
    // Only logical row y == 10 (buffer row 0) fits in the first 40 bytes.
    for tx in 0..10u32 {
        let o = (tx * 4) as usize;
        assert_eq!(&frame[o..o + 3], &[154, 25, 70]);
        assert_eq!(frame[o + 3], 0);
    }
}

#[test]
fn line_points_out_of_range_are_dropped() {
    let size = FrameSize { width: 10, height: 10 };
    let mut frame = buffer(10, 10);
    let points = vec![[-1, 5], [10, 5], [5, 0], [5, 10], [0, -3]];
    draw_bresenham(&mut frame, &size, points, RED1);
    assert!(frame.iter().all(|b| *b == 0));
}

#[test]
fn line_point_in_range_is_painted() {
    let size = FrameSize { width: 10, height: 10 };
    let mut frame = buffer(10, 10);
    draw_bresenham(&mut frame, &size, vec![[5, 5]], RED1);
    let o = offset(5, 5, 10, 10);
    assert_eq!(&frame[o..o + 3], &[154, 25, 70]);
    let painted: usize = frame.iter().filter(|b| **b != 0).count();
    assert_eq!(painted, 3);
}

#[test]
fn fill_draws_connecting_thick_line() {
    // Two single-point runs: the fill draws the thick stepped line between
    // them, so an interior pixel of the segment must be painted.
    let size = FrameSize { width: 10, height: 10 };
    let mut frame = buffer(10, 10);
    fill_bresenham([vec![[2, 5]], vec![[7, 5]]], &mut frame, &size, RED1);
    for x in 2..8u32 {
        let o = offset(x, 5, 10, 10);
        assert_eq!(&frame[o..o + 3], &[154, 25, 70], "pixel {x} on the segment");
    }
    // The unit-offset repeat of the segment sits one row below.
    let o = offset(4, 4, 10, 10);
    assert_eq!(&frame[o..o + 3], &[154, 25, 70]);
}

#[test]
fn fill_of_two_empty_runs_is_empty() {
    let size = FrameSize { width: 10, height: 10 };
    let mut frame = buffer(10, 10);
    fill_bresenham([Vec::new(), Vec::new()], &mut frame, &size, RED1);
    assert!(frame.iter().all(|b| *b == 0));
}
