use polygon_graphics::parse::{check_faces, parse_obj, MeshError};

#[test]
fn parse_round_trip() {
    let (vs, fs) = parse_obj(b"v 1 2 3\nf 1\n").unwrap();
    assert_eq!(vs, vec![[65536i64, 131072, 196608]]);
    assert_eq!(fs, vec![vec![0usize]]);
}

#[test]
fn parse_index_error_downstream() {
    let (vs, fs) = parse_obj(b"v 1 2 3\nf 2\n").unwrap();
    assert_eq!(vs.len(), 1);
    assert_eq!(fs, vec![vec![1usize]]);
    assert_eq!(check_faces(vs.len(), &fs), Err(MeshError::Index));
}

#[test]
fn check_faces_accepts_in_range() {
    let (vs, fs) = parse_obj(b"v 1 2 3\nv 4 5 6\nf 1 2\n").unwrap();
    assert_eq!(check_faces(vs.len(), &fs), Ok(()));
}

#[test]
fn parse_error_non_numeric() {
    assert_eq!(parse_obj(b"v a 2 3\n"), Err(MeshError::Parse));
}

#[test]
fn parse_error_missing_coordinate() {
    assert_eq!(parse_obj(b"v 1 2\n"), Err(MeshError::Parse));
}

#[test]
fn parse_ignores_unknown_and_empty_lines() {
    let (vs, fs) = parse_obj(b"vt 0.5 0.5\n\nv 1 2 3\nusemtl x\n").unwrap();
    assert_eq!(vs, vec![[65536i64, 131072, 196608]]);
    assert_eq!(fs.len(), 0);
}

#[test]
fn parse_negative_and_fractional() {
    let (vs, _) = parse_obj(b"v -1.5 0.25 2\n").unwrap();
    assert_eq!(vs, vec![[-98304i64, 16384, 131072]]);
}

#[test]
fn parse_fraction_truncates_toward_zero() {
    // 0.00001 * 65536 = 0.65536, which truncates to 0.
    let (vs, _) = parse_obj(b"v 0.00001 -0.00001 1.00001\n").unwrap();
    assert_eq!(vs, vec![[0i64, 0, 65536]]);
}

#[test]
fn parse_face_uses_first_subfield() {
    let (_, fs) = parse_obj(b"v 0 0 0\nv 0 0 0\nv 0 0 0\nf 1/2/3 2//4 3\n").unwrap();
    assert_eq!(fs, vec![vec![0usize, 1, 2]]);
}

#[test]
fn parse_face_zero_index_is_error() {
    assert_eq!(parse_obj(b"f 0\n"), Err(MeshError::Parse));
}

#[test]
fn parse_empty_input() {
    let (vs, fs) = parse_obj(b"").unwrap();
    assert_eq!(vs.len(), 0);
    assert_eq!(fs.len(), 0);
}

#[test]
fn parse_carriage_returns_are_separators() {
    let (vs, fs) = parse_obj(b"v 1 2 3\r\nf 1\r\n").unwrap();
    assert_eq!(vs, vec![[65536i64, 131072, 196608]]);
    assert_eq!(fs, vec![vec![0usize]]);
}

#[test]
fn parse_no_trailing_newline() {
    let (vs, fs) = parse_obj(b"v 1 2 3\nf 1").unwrap();
    assert_eq!(vs.len(), 1);
    assert_eq!(fs, vec![vec![0usize]]);
}

#[test]
fn parse_coordinate_magnitude_cap() {
    // 2^40 is the largest accepted integer part; one more is rejected.
    let (vs, _) = parse_obj(b"v 1099511627776 0 0\n").unwrap();
    assert_eq!(vs[0][0], 1099511627776i64 * 65536);
    assert_eq!(parse_obj(b"v 1099511627777 0 0\n"), Err(MeshError::Parse));
}

#[test]
fn parse_bare_face_keyword_gives_empty_face() {
    let (_, fs) = parse_obj(b"f\n").unwrap();
    assert_eq!(fs, vec![Vec::<usize>::new()]);
}

#[test]
fn parse_sign_without_digits_is_error() {
    assert_eq!(parse_obj(b"v - 1 2\n"), Err(MeshError::Parse));
}
