use game_engine::polygon::{edge_axis, get_push_vector, get_shadow, Axis, Polygon};
use game_engine::vectors::{Vector2, UNIT};

fn square(cx: i32, cy: i32, half: i32) -> Polygon {
    Polygon::new(
        Vector2::new(cx, cy),
        vec![
            Vector2::new(-half, half),
            Vector2::new(half, half),
            Vector2::new(half, -half),
            Vector2::new(-half, -half),
        ],
    )
}

#[test]
fn unit_squares_far_apart_do_not_collide() {
    let a = square(0, 0, UNIT / 2);
    let b = square(5 * UNIT, 5 * UNIT, UNIT / 2);
    assert_eq!(a.collide(&b), None);
    assert_eq!(b.collide(&a), None);
}

#[test]
fn half_overlapping_unit_squares_push_by_half_a_unit() {
    let a = square(0, 0, UNIT / 2);
    let b = square(0, UNIT / 2, UNIT / 2);
    let v = a.collide(&b).expect("the squares overlap");
    assert_eq!(v.x, 0);
    assert_eq!(v.y.abs(), UNIT / 2);
    assert_eq!(v, Vector2::new(0, -UNIT / 2));
    let w = b.collide(&a).expect("the squares overlap");
    assert_eq!(w, Vector2::new(0, UNIT / 2));
}

#[test]
fn edges_close_the_loop() {
    let a = square(10, 20, 1);
    let edges = a.get_edges();
    assert_eq!(edges.len(), 4);
    assert_eq!(edges[0], (Vector2::new(9, 21), Vector2::new(11, 21)));
    assert_eq!(edges[3], (Vector2::new(9, 19), Vector2::new(9, 21)));
    assert_eq!(
        a.get_points(),
        vec![
            Vector2::new(9, 21),
            Vector2::new(11, 21),
            Vector2::new(11, 19),
            Vector2::new(9, 19)
        ]
    );
}

#[test]
fn shadow_is_the_extent_along_the_axis() {
    let a = square(0, 0, 2);
    let axis = Axis { x: 0, y: 3 };
    assert_eq!(get_shadow(&a, axis), Some((-6, 6)));
    let empty = Polygon::new(Vector2::new(0, 0), vec![]);
    assert_eq!(get_shadow(&empty, axis), None);
    assert_eq!(edge_axis(Vector2::new(0, 0), Vector2::new(2, 0)), Axis { x: 0, y: 2 });
}

#[test]
fn push_vector_rounds_toward_zero() {
    // A diagonal axis of length sqrt(2): the push is the overlap times the
    // axis divided by its squared length.
    let a = Polygon::new(Vector2::new(0, 0), vec![Vector2::new(0, 0), Vector2::new(3, 3)]);
    let b = Polygon::new(Vector2::new(0, 0), vec![Vector2::new(2, 2), Vector2::new(5, 5)]);
    let axis = Axis { x: 1, y: 1 };
    // shadows: a = [0, 6], b = [4, 10]; scalar = 4 - 6 = -2; push = (1, 1) * -2 / 2.
    assert_eq!(get_push_vector(&a, &b, axis), Some(Vector2::new(-1, -1)));
    let c = Polygon::new(Vector2::new(0, 0), vec![Vector2::new(1, 2), Vector2::new(5, 5)]);
    // shadows: a = [0, 6], c = [3, 10]; scalar = 3 - 6 = -3; -3 / 2 rounds to -1.
    assert_eq!(get_push_vector(&a, &c, axis), Some(Vector2::new(-1, -1)));
    let far = Polygon::new(Vector2::new(0, 0), vec![Vector2::new(4, 4)]);
    assert_eq!(get_push_vector(&a, &far, axis), None);
}

#[test]
fn touching_shapes_overlap_with_a_null_push() {
    let a = square(0, 0, 1);
    let b = square(2, 0, 1);
    assert_eq!(a.collide(&b), Some(Vector2::new(0, 0)));
}

#[test]
fn shape_without_vertices_never_collides() {
    let a = square(0, 0, 1);
    let empty = Polygon::new(Vector2::new(0, 0), vec![]);
    assert_eq!(a.collide(&empty), None);
    assert_eq!(empty.collide(&a), None);
}

#[test]
fn axis_checks_tell_what_the_test_can_take() {
    assert!(Axis { x: 0, y: 0 }.is_zero());
    assert!(!Axis { x: 0, y: 1 }.is_zero());
    assert!(Axis { x: 0xffff_ffff, y: -0xffff_ffff }.is_in_range());
    assert!(!Axis { x: 0x1_0000_0000, y: 0 }.is_in_range());
    assert!(!Axis { x: 0, y: -0x1_0000_0000 }.is_in_range());
    // The widest edge that two vertices can span.
    let axis = edge_axis(Vector2::new(i32::MIN, i32::MAX), Vector2::new(i32::MAX, i32::MIN));
    assert_eq!(axis, Axis { x: 0xffff_ffff, y: 0xffff_ffff });
    assert!(axis.is_in_range());
}

#[test]
fn shapes_at_the_ends_of_the_range_are_tested_exactly() {
    let far = i32::MAX - 1;
    let a = Polygon::new(
        Vector2::new(far, far),
        vec![Vector2::new(-1, 1), Vector2::new(1, 1), Vector2::new(1, -1), Vector2::new(-1, -1)],
    );
    let b = Polygon::new(
        Vector2::new(-far, -far),
        vec![Vector2::new(-1, 1), Vector2::new(1, 1), Vector2::new(1, -1), Vector2::new(-1, -1)],
    );
    assert_eq!(a.collide(&b), None);
    let huge = Polygon::new(
        Vector2::new(0, 0),
        vec![
            Vector2::new(i32::MIN, i32::MAX),
            Vector2::new(i32::MAX, i32::MAX),
            Vector2::new(i32::MAX, i32::MIN),
            Vector2::new(i32::MIN, i32::MIN),
        ],
    );
    // The small square sits in the corner of the huge one: the shortest way
    // out is its own height over the nearest side.
    assert_eq!(a.collide(&huge), Some(Vector2::new(0, 2)));
}

#[test]
fn triangle_against_square_uses_slanted_axes() {
    // A right triangle with legs of 4: its slanted side has the normal (4, 4).
    let t = Polygon::new(
        Vector2::new(0, 0),
        vec![Vector2::new(0, 4), Vector2::new(4, 0), Vector2::new(0, 0)],
    );
    let far = Polygon::new(
        Vector2::new(4, 4),
        vec![Vector2::new(-1, 1), Vector2::new(1, 1), Vector2::new(1, -1), Vector2::new(-1, -1)],
    );
    // The square lies beyond the slanted side: only that axis separates.
    assert_eq!(t.collide(&far), None);
    let near = Polygon::new(
        Vector2::new(2, 2),
        vec![Vector2::new(-1, 1), Vector2::new(1, 1), Vector2::new(1, -1), Vector2::new(-1, -1)],
    );
    // Along (4, 4) the triangle reaches 16 and the square starts at 8: the
    // push is (4, 4) * -8 / 32 = (-1, -1).
    assert_eq!(t.collide(&near), Some(Vector2::new(-1, -1)));
}
