use game_engine::components::Sprite;
use game_engine::err::{EngineError, EngineErrorTrait};
use game_engine::graphics::{Camera, Graphics, INSTANCES};
use game_engine::n_array::{ArrIter, NArray};
use game_engine::quadtree::{Cartesian, Node, QuadTree};
use game_engine::vectors::{
    clamp_to_coord, divide_toward_zero, Vector2, Vector3, UNIT,
};
use game_engine::world::{add_coords, count_pass, elapsed, scale_by_time, World};

#[test]
fn array_holds_clones_of_one_value() {
    let mut a = NArray::new("x".to_owned(), 3);
    assert_eq!(a.len(), 3);
    assert_eq!(a.index(0), "x");
    assert_eq!(a.index(2), "x");
    a.set(1, "y".to_owned());
    assert_eq!(a.index(0), "x");
    assert_eq!(a.index(1), "y");
    let empty: NArray<u8> = NArray::new(0, 0);
    assert_eq!(empty.len(), 0);
}

#[test]
fn array_iterator_walks_front_to_back() {
    let mut a = NArray::new(0u32, 3);
    a.set(0, 10);
    a.set(1, 20);
    a.set(2, 30);
    let mut it = a.into_iter();
    assert_eq!(it.next(), Some(10));
    assert_eq!(it.next(), Some(20));
    assert_eq!(it.next(), Some(30));
    assert_eq!(it.next(), None);
    assert_eq!(it.next(), None);
    let mut b = NArray::new(7u8, 2);
    b.set(1, 8);
    let mut it: ArrIter<u8> = ArrIter::from(b);
    assert_eq!(it.next(), Some(7));
    assert_eq!(it.next(), Some(8));
    assert_eq!(it.next(), None);
}

#[test]
fn errors_carry_their_message() {
    let fixed = EngineError::from("Failed to create GLFW window.");
    assert_eq!(fixed.get_error_message(), "Failed to create GLFW window.");
    assert!(matches!(fixed, EngineError::Static(_)));
    let made = EngineError::from(format!("GL Init Error: {}", "Internal"));
    assert_eq!(made.get_error_message(), "GL Init Error: Internal");
    match made {
        EngineError::Dynamic(inner) => assert_eq!(inner.get_error_message(), "GL Init Error: Internal"),
        EngineError::Static(_) => panic!("a text made at run time"),
    }
}

#[test]
fn vectors_are_built_from_components_and_tuples() {
    assert_eq!(Vector2::new(1, -2), Vector2 { x: 1, y: -2 });
    assert_eq!(Vector3::new(1, -2, 3), Vector3 { x: 1, y: -2, z: 3 });
    assert_eq!(Vector2::from((4, 5)), Vector2::new(4, 5));
    assert_eq!(Vector3::from((4, 5, 6)), Vector3::new(4, 5, 6));
    let v: Vector3 = (7, 8, 9).into();
    assert_eq!(v, Vector3::new(7, 8, 9));
    assert_eq!(Vector2::zero(), Vector2::new(0, 0));
    assert_eq!(Vector2::unit(), Vector2::new(UNIT, UNIT));
    assert_eq!(Vector3::zero(), Vector3::new(0, 0, 0));
    assert_eq!(Vector3::one(), Vector3::new(UNIT, UNIT, UNIT));
    assert_eq!(Vector3::new(1, 2, 3).xy(), Vector2::new(1, 2));
    assert_eq!(UNIT, 1024);
}

#[test]
fn vector_sums_saturate() {
    assert_eq!(Vector2::new(1, 2).plus(Vector2::new(10, -20)), Vector2::new(11, -18));
    assert_eq!(Vector2::new(1, 2).minus(Vector2::new(10, -20)), Vector2::new(-9, 22));
    assert_eq!(
        Vector2::new(i32::MAX, i32::MIN).plus(Vector2::new(1, -1)),
        Vector2::new(i32::MAX, i32::MIN)
    );
    assert_eq!(
        Vector2::new(i32::MIN, i32::MAX).minus(Vector2::new(1, -1)),
        Vector2::new(i32::MIN, i32::MAX)
    );
    assert_eq!(
        Vector3::new(i32::MAX, 0, i32::MIN).plus(Vector3::new(5, 5, -5)),
        Vector3::new(i32::MAX, 5, i32::MIN)
    );
    assert_eq!(Vector2::new(3, -4).length_squared(), 25);
    assert_eq!(Vector2::new(i32::MIN, i32::MIN).length_squared(), 1i128 << 63);
}

#[test]
fn number_helpers_round_toward_zero_and_clamp() {
    assert_eq!(clamp_to_coord(5), 5);
    assert_eq!(clamp_to_coord(1 << 40), i32::MAX);
    assert_eq!(clamp_to_coord(-(1 << 40)), i32::MIN);
    assert_eq!(clamp_to_coord(i32::MAX as i128), i32::MAX);
    assert_eq!(clamp_to_coord(i32::MIN as i128), i32::MIN);
    assert_eq!(divide_toward_zero(7, 2), 3);
    assert_eq!(divide_toward_zero(-7, 2), -3);
    assert_eq!(divide_toward_zero(-6, 2), -3);
    assert_eq!(divide_toward_zero(0, 9), 0);
    assert_eq!(add_coords(i32::MAX, 1), i32::MAX);
    assert_eq!(add_coords(-5, 3), -2);
    assert_eq!(scale_by_time(1024, 20_000), 20);
    assert_eq!(scale_by_time(-1024, 20_000), -20);
    assert_eq!(scale_by_time(1024, -20_000), -20);
    assert_eq!(scale_by_time(1, 999_999), 0);
    assert_eq!(scale_by_time(i32::MAX, i64::MAX), i32::MAX);
    assert_eq!(scale_by_time(i32::MAX, i64::MIN), i32::MIN);
    assert_eq!(elapsed(10, 4), 6);
    assert_eq!(elapsed(4, 10), -6);
    assert_eq!(elapsed(u64::MAX, 0), i64::MAX);
    assert_eq!(elapsed(0, u64::MAX), i64::MIN);
}

#[test]
fn pass_counter_measures_once_a_second() {
    assert_eq!(count_pass(0, 0, 999_999), (1, 0, None));
    assert_eq!(count_pass(59, 0, 1_000_000), (0, 1_000_000, Some((60, 1_000_000))));
    assert_eq!(count_pass(5, 2_000_000, 3_500_000), (0, 3_500_000, Some((6, 1_500_000))));
    assert_eq!(count_pass(i64::MAX, 10, 11), (i64::MAX, 10, None));
    assert_eq!(count_pass(3, 10, 5), (4, 10, None));
}

#[test]
fn sprite_table_takes_sprites_by_slot() {
    let mut gfx = Graphics::new();
    let s = Sprite { sprite_id: 2, x: 1, y: 2, w: 3, h: 4 };
    gfx.update_sprite(s, INSTANCES - 1);
    assert_eq!(gfx.get_sprite(INSTANCES - 1), s);
    assert_eq!(gfx.get_sprite(0), Sprite { sprite_id: 0, x: 0, y: 0, w: 0, h: 0 });
    assert_eq!(
        *gfx.get_camera(),
        Camera {
            pos: Vector3::new(0, 0, 0),
            rot: Vector3::new(0, 0, 0),
            size: Vector2::new(UNIT, UNIT),
            near: 102,
            far: 1_024_000,
        }
    );
    gfx.get_camera_mut().pos = Vector3::new(1, 2, 3);
    assert_eq!(gfx.get_camera().pos, Vector3::new(1, 2, 3));
    assert_eq!(gfx.get_sprite(INSTANCES - 1), s);
}

#[test]
fn world_keeps_keys_and_time() {
    let mut w = World::new();
    assert_eq!(w.get_scene().len(), 1);
    assert!(!w.get_key(65));
    w.set_key(65, true);
    w.set_key(-7, true);
    w.set_key(1000, true);
    assert!(w.get_key(65));
    assert!(!w.get_key(-7));
    assert!(!w.get_key(1000));
    w.set_key(65, false);
    assert!(!w.get_key(65));
    w.set_now(5);
    assert_eq!(w.take_reports(), vec![]);
    assert_eq!(w.get_contacts(), &vec![]);
}

struct Point(i32, i32);

impl Cartesian for Point {
    fn get_x(&self) -> i32 {
        self.0
    }

    fn get_y(&self) -> i32 {
        self.1
    }
}

#[test]
fn new_quadtree_is_empty() {
    let tree: QuadTree<Point> = QuadTree::new();
    assert!(matches!(tree.root, Node::Empty));
    let p = Point(3, 4);
    assert_eq!((p.get_x(), p.get_y()), (3, 4));
}
