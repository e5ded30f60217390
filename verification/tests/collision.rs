use game_engine::components::{Collider, Component, ComponentKind, ComponentRef, WASDy};
use game_engine::game_object::{GameObject, Scene};
use game_engine::polygon::Polygon;
use game_engine::tree::ObjectId;
use game_engine::vectors::{Vector2, Vector3};

fn rect(half_w: i32, half_h: i32) -> Component {
    Component::Collider(Collider::new(Polygon::new(
        Vector2::new(0, 0),
        vec![
            Vector2::new(-half_w, half_h),
            Vector2::new(half_w, half_h),
            Vector2::new(half_w, -half_h),
            Vector2::new(-half_w, -half_h),
        ],
    )))
}

fn body(scene: &mut Scene, parent: Option<ObjectId>, pos: (i32, i32), half: (i32, i32)) -> ObjectId {
    let id = GameObject::create_empty(scene, "body".to_owned(), parent);
    GameObject::set_pos(scene, id, Vector3::new(pos.0, pos.1, 0));
    GameObject::add_component(scene, id, rect(half.0, half.1));
    id
}

#[test]
fn object_without_collider_just_moves() {
    let mut scene = Scene::new();
    let root = GameObject::create_empty(&mut scene, "root".to_owned(), None);
    let _wall = body(&mut scene, Some(root), (0, 0), (100, 100));
    let ghost = GameObject::create_empty(&mut scene, "ghost".to_owned(), Some(root));
    GameObject::add_component(&mut scene, ghost, Component::Wasdy(WASDy { speed: 1, velocity: 2, acc: 3 }));
    GameObject::move_and_collide(&mut scene, root, ghost, Vector3::new(5, -6, 7));
    assert_eq!(scene.get(ghost).get_pos(), Vector3::new(5, -6, 7));
    assert!(!scene.get(ghost).is_grounded());
}

#[test]
fn push_with_upward_part_grounds_the_mover() {
    let mut scene = Scene::new();
    let root = GameObject::create_empty(&mut scene, "root".to_owned(), None);
    let ground = body(&mut scene, Some(root), (0, -768), (1024, 256));
    let guy = body(&mut scene, Some(root), (0, 0), (256, 512));
    GameObject::move_and_collide(&mut scene, root, guy, Vector3::new(0, -100, 0));
    assert_eq!(scene.get(guy).get_pos(), Vector3::new(0, 0, 0));
    assert!(scene.get(guy).is_grounded());
    assert_eq!(scene.get(ground).get_pos(), Vector3::new(0, -768, 0));
    // Both hitboxes were put around their owners before the test.
    assert_eq!(scene.hitbox(ComponentRef { owner: guy, index: 0 }).center, Vector2::new(0, -100));
    assert_eq!(scene.hitbox(ComponentRef { owner: ground, index: 0 }).center, Vector2::new(0, -768));
}

#[test]
fn push_with_downward_part_does_not_ground() {
    let mut scene = Scene::new();
    let root = GameObject::create_empty(&mut scene, "root".to_owned(), None);
    let _ceiling = body(&mut scene, Some(root), (0, 768), (1024, 256));
    let guy = body(&mut scene, Some(root), (0, 0), (256, 512));
    GameObject::move_and_collide(&mut scene, root, guy, Vector3::new(0, 100, 0));
    assert_eq!(scene.get(guy).get_pos(), Vector3::new(0, 0, 0));
    assert!(!scene.get(guy).is_grounded());
}

#[test]
fn level_push_does_not_ground() {
    let mut scene = Scene::new();
    let root = GameObject::create_empty(&mut scene, "root".to_owned(), None);
    let _wall = body(&mut scene, Some(root), (512, 0), (256, 512));
    let guy = body(&mut scene, Some(root), (0, 0), (256, 512));
    GameObject::move_and_collide(&mut scene, root, guy, Vector3::new(50, 0, 0));
    assert_eq!(scene.get(guy).get_pos(), Vector3::new(0, 0, 0));
    assert!(!scene.get(guy).is_grounded());
}

#[test]
fn move_without_overlap_ends_where_it_aimed() {
    let mut scene = Scene::new();
    let root = GameObject::create_empty(&mut scene, "root".to_owned(), None);
    let _ground = body(&mut scene, Some(root), (0, -768), (1024, 256));
    let guy = body(&mut scene, Some(root), (0, 100), (256, 512));
    GameObject::move_and_collide(&mut scene, root, guy, Vector3::new(30, -50, 0));
    assert_eq!(scene.get(guy).get_pos(), Vector3::new(30, 50, 0));
    assert!(!scene.get(guy).is_grounded());
}

#[test]
fn every_move_starts_off_the_ground() {
    let mut scene = Scene::new();
    let root = GameObject::create_empty(&mut scene, "root".to_owned(), None);
    let _ground = body(&mut scene, Some(root), (0, -768), (1024, 256));
    let guy = body(&mut scene, Some(root), (0, 0), (256, 512));
    GameObject::move_and_collide(&mut scene, root, guy, Vector3::new(0, -1, 0));
    assert!(scene.get(guy).is_grounded());
    GameObject::move_and_collide(&mut scene, root, guy, Vector3::new(0, 200, 0));
    assert!(!scene.get(guy).is_grounded());
    assert_eq!(scene.get(guy).get_pos(), Vector3::new(0, 200, 0));
}

#[test]
fn overlaps_are_resolved_one_after_the_other() {
    // The mover drops into a corner: the floor pushes it up, then the wall
    // pushes it aside, in the order in which the colliders are found.
    let mut scene = Scene::new();
    let root = GameObject::create_empty(&mut scene, "root".to_owned(), None);
    let _floor = body(&mut scene, Some(root), (0, -768), (1024, 256));
    let _wall = body(&mut scene, Some(root), (512, 0), (256, 512));
    let guy = body(&mut scene, Some(root), (-10, 10), (256, 512));
    GameObject::move_and_collide(&mut scene, root, guy, Vector3::new(30, -30, 0));
    assert_eq!(scene.get(guy).get_pos(), Vector3::new(0, 0, 0));
    assert!(scene.get(guy).is_grounded());
}

#[test]
fn colliders_outside_the_given_root_are_not_tested() {
    let mut scene = Scene::new();
    let root = GameObject::create_empty(&mut scene, "root".to_owned(), None);
    let elsewhere = GameObject::create_empty(&mut scene, "elsewhere".to_owned(), None);
    let _ground = body(&mut scene, Some(elsewhere), (0, -768), (1024, 256));
    let guy = body(&mut scene, Some(root), (0, 0), (256, 512));
    GameObject::move_and_collide(&mut scene, root, guy, Vector3::new(0, -100, 0));
    assert_eq!(scene.get(guy).get_pos(), Vector3::new(0, -100, 0));
    assert!(!scene.get(guy).is_grounded());
}

#[test]
fn only_the_first_collider_of_the_mover_is_used() {
    let mut scene = Scene::new();
    let root = GameObject::create_empty(&mut scene, "root".to_owned(), None);
    let _ground = body(&mut scene, Some(root), (0, -768), (1024, 256));
    let guy = body(&mut scene, Some(root), (0, 0), (256, 512));
    // A second, far larger collider on the mover: it is tested against like
    // any other collider, and it is not the one that is pushed out.
    GameObject::add_component(&mut scene, guy, rect(2000, 2000));
    assert_eq!(
        scene.get(guy).get_component(ComponentKind::Collider).map(|h| h.rc.index),
        Some(0)
    );
    GameObject::move_and_collide(&mut scene, root, guy, Vector3::new(0, 100, 0));
    // Ground does not overlap the first collider; the mover's own second
    // collider surrounds the first and pushes it by the shortest way out,
    // which is sideways.
    assert_eq!(scene.get(guy).get_pos(), Vector3::new(2256, 100, 0));
    assert!(!scene.get(guy).is_grounded());
}

#[test]
fn positions_saturate_at_the_end_of_the_range() {
    let mut scene = Scene::new();
    let root = GameObject::create_empty(&mut scene, "root".to_owned(), None);
    let far = GameObject::create_empty(&mut scene, "far".to_owned(), Some(root));
    GameObject::set_pos(&mut scene, far, Vector3::new(i32::MAX - 1, i32::MIN + 1, 0));
    GameObject::move_and_collide(&mut scene, root, far, Vector3::new(10, -10, 0));
    assert_eq!(scene.get(far).get_pos(), Vector3::new(i32::MAX, i32::MIN, 0));
}
