use polygon_graphics::scene::scan_scene;
use polygon_graphics::{vf_default, FrameSize, Object, Player, FX_ONE, SCREEN_HEIGHT, SCREEN_WIDTH};

fn player_at(x: i64, y: i64) -> Player {
    Player { fov: 60, half_fov: 30, x, y, frustum: vf_default() }
}

fn unit_cube_at(coords: [i64; 3]) -> Object {
    // The eight corners of a unit cube in local space, with a few faces
    // over them; vertex i has bits x, y, z of its corner in i.
    let mut vertices = Vec::new();
    for i in 0..8u32 {
        let x = if i & 4 != 0 { FX_ONE } else { 0 };
        let y = if i & 2 != 0 { FX_ONE } else { 0 };
        let z = if i & 1 != 0 { FX_ONE } else { 0 };
        vertices.push([x, y, z]);
    }
    let indices = vec![
        vec![0usize, 1, 3, 2],
        vec![4, 5, 7, 6],
        vec![0, 1, 5, 4],
        vec![2, 3, 7, 6],
    ];
    Object { width: 10, height: 10, coords, animated: false, vertices, indices }
}

fn full_buffer() -> Vec<u8> {
    vec![0u8; (SCREEN_WIDTH as usize) * (SCREEN_HEIGHT as usize) * 4]
}

#[test]
fn scan_draws_cube_in_upper_middle() {
    // Camera at (0, -40), heading 0, object anchored at (0, 8, 0): the
    // whole pipeline puts pixels into the upper-middle of the buffer.
    let size = FrameSize { width: SCREEN_WIDTH as u32, height: SCREEN_HEIGHT as u32 };
    let player = player_at(0, -40 * FX_ONE);
    let objects = vec![unit_cube_at([0, 8 * FX_ONE, 0])];
    let mut frame = full_buffer();
    scan_scene(&objects, &player, &mut frame, &size, 0, FX_ONE, 0, FX_ONE);
    let w = SCREEN_WIDTH as usize;
    let mut hits = 0usize;
    for row in 250..320usize {
        for col in 450..570usize {
            let o = (row * w + col) * 4;
            if frame[o] != 0 || frame[o + 1] != 0 || frame[o + 2] != 0 {
                hits += 1;
            }
        }
    }
    assert!(hits > 0, "no pixels drawn in the upper-middle region");
    // Nothing was drawn outside that region.
    let total: usize = frame.chunks(4).filter(|p| p[0] != 0 || p[1] != 0 || p[2] != 0).count();
    assert_eq!(total, hits);
    // Alpha stays untouched everywhere.
    assert!(frame.iter().skip(3).step_by(4).all(|b| *b == 0));
}

#[test]
fn scan_is_deterministic() {
    let size = FrameSize { width: SCREEN_WIDTH as u32, height: SCREEN_HEIGHT as u32 };
    let player = player_at(0, -40 * FX_ONE);
    let objects = vec![unit_cube_at([0, 8 * FX_ONE, 0])];
    let mut a = full_buffer();
    let mut b = full_buffer();
    scan_scene(&objects, &player, &mut a, &size, 0, FX_ONE, 3000, 65400);
    scan_scene(&objects, &player, &mut b, &size, 0, FX_ONE, 3000, 65400);
    assert_eq!(a, b);
}

#[test]
fn scan_culled_object_writes_nothing() {
    // The anchor's relative bearing sine is about 0.9, past the +0.5
    // limit: the culler rejects the object and not one byte changes,
    // whatever mesh it carries.
    let size = FrameSize { width: SCREEN_WIDTH as u32, height: SCREEN_HEIGHT as u32 };
    let player = player_at(0, 0);
    let objects = vec![unit_cube_at([9 * FX_ONE, 285697, 0])];
    let mut frame = full_buffer();
    scan_scene(&objects, &player, &mut frame, &size, 0, FX_ONE, 0, FX_ONE);
    assert!(frame.iter().all(|b| *b == 0));
}

#[test]
fn scan_empty_scene_writes_nothing() {
    let size = FrameSize { width: SCREEN_WIDTH as u32, height: SCREEN_HEIGHT as u32 };
    let player = player_at(0, -40 * FX_ONE);
    let mut frame = full_buffer();
    scan_scene(&Vec::new(), &player, &mut frame, &size, 0, FX_ONE, 0, FX_ONE);
    assert!(frame.iter().all(|b| *b == 0));
}
