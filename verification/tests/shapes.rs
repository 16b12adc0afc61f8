use voxel_sandbox::brush_list::parse_draw;
use voxel_sandbox::model_list::{parse_place, to_ellipsoid, to_line};

#[test]
fn checker_box_is_hollow() {
    // the checkerboard box fills exactly the face boundary of the region
    let first = [-5, -5, -5];
    let last = [5, 5, 5];
    let color = [200, 300, 400, 1000];
    for x in -5..=5 {
        for y in -5..=5 {
            for z in -5..=5 {
                let r = parse_place(x, y, z, first, last, color, 0);
                let boundary = x == -5 || x == 5 || y == -5 || y == 5 || z == -5 || z == 5;
                assert_eq!(r.is_some(), boundary);
            }
        }
    }
}

#[test]
fn checker_box_tiles_alternate() {
    let first = [-5, -5, -5];
    let last = [5, 5, 5];
    let color = [200, 300, 400, 900];
    // x >= 0 and z >= 0 tile with even parity: white
    let v = parse_place(0, -5, 0, first, last, color, 0).unwrap();
    assert_eq!(v.color, [1000, 1000, 1000, 900]);
    // x < 0 crosses into the odd tile: the request color stays
    let v = parse_place(-1, -5, 0, first, last, color, 0).unwrap();
    assert_eq!(v.color, [200, 300, 400, 900]);
    // both negative: even parity again
    let v = parse_place(-1, -5, -1, first, last, color, 0).unwrap();
    assert_eq!(v.color, [1000, 1000, 1000, 900]);
}

#[test]
fn checker_box_face_normals() {
    let first = [-5, -5, -5];
    let last = [5, 5, 5];
    let color = [0, 0, 0, 1000];
    assert_eq!(parse_place(0, -5, 0, first, last, color, 0).unwrap().normal, [0, -1000, 0]);
    assert_eq!(parse_place(0, 5, 0, first, last, color, 0).unwrap().normal, [0, 1000, 0]);
    assert_eq!(parse_place(-5, 0, 0, first, last, color, 0).unwrap().normal, [0, 0, 0]);
}

#[test]
fn ellipsoid_shell_is_hollow() {
    // a generous region: the exact center and the corner both miss the shell
    let first = [-20, -20, -20];
    let last = [20, 20, 20];
    assert!(!to_ellipsoid(first, last, [0, 0, 0]));
    assert!(!to_ellipsoid(first, last, [-20, -20, -20]));
    // a point on the x axis just inside the outer ellipsoid is on the shell
    assert!(to_ellipsoid(first, last, [19, 0, 0]));
    // well inside the inner ellipsoid: not on the shell
    assert!(!to_ellipsoid(first, last, [5, 0, 0]));
}

#[test]
fn sphere_model_uses_the_shell() {
    let first = [-20, -20, -20];
    let last = [20, 20, 20];
    let color = [100, 200, 300, 1000];
    assert!(parse_place(0, 0, 0, first, last, color, 14).is_none());
    let v = parse_place(19, 0, 0, first, last, color, 14).unwrap();
    assert_eq!(v.position, [19, 0, 0]);
    // outward radial normal: along +x, close to unit length
    assert!(v.normal[0] > 900);
    assert_eq!(v.normal[1], 0);
    assert_eq!(v.normal[2], 0);
}

#[test]
fn pillar_runs_up_the_center() {
    let first = [-10, -10, -10];
    let last = [10, 10, 10];
    let color = [0, 0, 0, 1000];
    // the pillar model holds the center column on the mid depth slice
    assert!(parse_place(0, -10, 0, first, last, color, 1).is_some());
    assert!(parse_place(0, 10, 0, first, last, color, 1).is_some());
    // far off the column: no voxel
    assert!(parse_place(10, 0, 0, first, last, color, 1).is_none());
    // off the mid depth slice: no voxel
    assert!(parse_place(0, 0, 7, first, last, color, 1).is_none());
}

#[test]
fn line_segment_needs_the_mid_slice() {
    let first = [0, 0, 0];
    let last = [10, 0, 0];
    assert!(to_line(first, last, [5, 0, 0]));
    assert!(to_line(first, last, [5, 2, 0]));
    assert!(!to_line(first, last, [5, 4, 0]));
    assert!(!to_line(first, last, [5, 0, 3]));
}

#[test]
fn lawn_covers_the_floor() {
    let first = [-3, 7, -3];
    let last = [3, 20, 3];
    let color = [0, 500, 0, 1000];
    for x in -3..=3 {
        for z in -3..=3 {
            assert!(parse_place(x, 7, z, first, last, color, 13).is_some());
            assert!(parse_place(x, 8, z, first, last, color, 13).is_none());
        }
    }
}

#[test]
fn block_side_normals_win_over_floor() {
    let first = [-5, -5, -5];
    let last = [5, 5, 5];
    let color = [0, 0, 0, 1000];
    // a wall voxel points sideways even on the bottom plane
    assert_eq!(parse_place(5, -5, 0, first, last, color, 12).unwrap().normal, [1000, 0, 0]);
    assert_eq!(parse_place(-5, 0, 0, first, last, color, 12).unwrap().normal, [-1000, 0, 0]);
    // a pure floor voxel points down
    assert_eq!(parse_place(0, -5, 0, first, last, color, 12).unwrap().normal, [0, -1000, 0]);
}

#[test]
fn unknown_model_places_nothing() {
    let first = [-5, -5, -5];
    let last = [5, 5, 5];
    let color = [0, 0, 0, 1000];
    assert!(parse_place(0, -5, 0, first, last, color, 99).is_none());
    assert!(parse_place(0, -5, 0, first, last, color, -1).is_none());
}

#[test]
fn classifier_is_pure() {
    let first = [-20, -20, -20];
    let last = [20, 20, 20];
    let color = [100, 200, 300, 1000];
    for id in 0..=14 {
        for &(x, y, z) in &[(19, 0, 0), (0, -20, 0), (0, 0, 0), (-20, -20, -20)] {
            let a = parse_place(x, y, z, first, last, color, id);
            let b = parse_place(x, y, z, first, last, color, id);
            assert_eq!(a, b);
        }
    }
}

#[test]
fn brush_zero_recolors_plainly() {
    let c = [100, 200, 300, 800];
    assert_eq!(parse_draw(1, 2, 3, [0, 0, 0], [9, 9, 9], c, 0), Some([100, 200, 300, 800]));
}

#[test]
fn fire_brush_halves_alpha() {
    let c = [100, 200, 300, 800];
    assert_eq!(parse_draw(1, 2, 3, [0, 0, 0], [9, 9, 9], c, 1), Some([100, 200, 300, 500]));
}

#[test]
fn unknown_brush_paints_nothing() {
    let c = [100, 200, 300, 800];
    assert_eq!(parse_draw(1, 2, 3, [0, 0, 0], [9, 9, 9], c, 2), None);
    assert_eq!(parse_draw(1, 2, 3, [0, 0, 0], [9, 9, 9], c, -1), None);
}
