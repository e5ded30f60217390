use game_engine::components::{
    Collider, CompRc, Component, ComponentKind, ComponentRef, Sprite, SpriteComponent,
    TestComponent, WASDy,
};
use game_engine::game_object::GameObject;
use game_engine::polygon::Polygon;
use game_engine::tree::ObjectId;
use game_engine::vectors::{Vector2, Vector3};
use game_engine::world::{Contact, Phase, RateReport, TickInfo, World, KEY_D};

fn rect(half_w: i32, half_h: i32) -> Component {
    Component::Collider(Collider::new(Polygon::new(
        Vector2::new(0, 0),
        vec![
            Vector2::new(-half_w, half_h),
            Vector2::new(half_w, half_h),
            Vector2::new(half_w, -half_h),
            Vector2::new(-half_w, -half_h),
        ],
    )))
}

fn body(world: &mut World, parent: ObjectId, pos: (i32, i32), half: (i32, i32)) -> ObjectId {
    let scene = world.get_scene_mut();
    let id = GameObject::create_empty(scene, "body".to_owned(), Some(parent));
    GameObject::set_pos(scene, id, Vector3::new(pos.0, pos.1, 0));
    GameObject::add_component(scene, id, rect(half.0, half.1));
    id
}

fn handle(owner: ObjectId, index: usize) -> CompRc {
    CompRc { rc: ComponentRef { owner, index }, kind: ComponentKind::Collider }
}

#[test]
fn collision_pass_tests_every_pair_once() {
    let mut w = World::new();
    let root = w.get_root_object();
    // Three boxes in a row: a overlaps b, b overlaps c, a and c are apart.
    let a = body(&mut w, root, (0, 0), (10, 10));
    let b = body(&mut w, root, (15, 0), (10, 10));
    let c = body(&mut w, b, (30, 0), (10, 10));
    w.collision_pass();
    assert_eq!(
        w.get_contacts(),
        &vec![
            Contact { first: handle(a, 0), second: handle(b, 0), push: Vector2::new(-5, 0) },
            Contact { first: handle(b, 0), second: handle(c, 0), push: Vector2::new(-5, 0) },
        ]
    );
    // The pass has put every hitbox at its owner and moved nothing.
    assert_eq!(w.get_scene().hitbox(ComponentRef { owner: c, index: 0 }).center, Vector2::new(30, 0));
    assert_eq!(w.get_scene().get(a).get_pos(), Vector3::new(0, 0, 0));
    assert_eq!(w.get_scene().get(b).get_pos(), Vector3::new(15, 0, 0));
    // A later pass replaces the contacts of the one before.
    GameObject::set_pos(w.get_scene_mut(), b, Vector3::new(100, 100, 0));
    w.collision_pass();
    assert_eq!(w.get_contacts(), &vec![]);
}

#[test]
fn collision_pass_lists_pairs_in_the_order_of_the_colliders() {
    let mut w = World::new();
    let root = w.get_root_object();
    GameObject::add_component(w.get_scene_mut(), root, rect(100, 100));
    let a = body(&mut w, root, (0, 0), (10, 10));
    let b = body(&mut w, root, (0, 0), (10, 10));
    GameObject::add_component(w.get_scene_mut(), a, rect(1, 1));
    w.collision_pass();
    let pairs: Vec<(CompRc, CompRc)> =
        w.get_contacts().iter().map(|c| (c.first, c.second)).collect();
    assert_eq!(
        pairs,
        vec![
            (handle(root, 0), handle(a, 0)),
            (handle(root, 0), handle(a, 1)),
            (handle(root, 0), handle(b, 0)),
            (handle(a, 0), handle(a, 1)),
            (handle(a, 0), handle(b, 0)),
            (handle(a, 1), handle(b, 0)),
        ]
    );
}

#[test]
fn collision_pass_without_colliders_finds_nothing() {
    let mut w = World::new();
    w.collision_pass();
    assert_eq!(w.get_contacts(), &vec![]);
}

#[test]
fn hooks_can_be_run_one_by_one() {
    let mut w = World::new();
    let root = w.get_root_object();
    let scene = w.get_scene_mut();
    let a = GameObject::create_empty(scene, "a".to_owned(), Some(root));
    GameObject::set_pos(scene, a, Vector3::new(7, 8, 9));
    GameObject::add_component(scene, a, Component::Sprite(SpriteComponent::new(5, 6)));
    GameObject::add_component(scene, a, Component::Test(TestComponent::default()));
    GameObject::add_component(
        scene,
        a,
        Component::Wasdy(WASDy { speed: 1_000_000, velocity: 0, acc: 0 }),
    );
    let info = TickInfo { delta_time: 10 };
    w.set_now(2_000_000);
    let sprite = ComponentRef { owner: a, index: 0 };
    let test = ComponentRef { owner: a, index: 1 };
    let wasdy = ComponentRef { owner: a, index: 2 };

    w.run_hook(sprite, Phase::Render, info);
    w.run_hook(sprite, Phase::FixedUpdate, info);
    assert_eq!(w.get_gfx().get_sprite(5), Sprite { sprite_id: 0, x: 0, y: 0, w: 0, h: 0 });
    w.run_hook(sprite, Phase::Init, info);
    assert_eq!(w.get_gfx().get_sprite(5), Sprite { sprite_id: 6, x: 0, y: 0, w: 1024, h: 1024 });
    w.run_hook(sprite, Phase::Update, info);
    assert_eq!(w.get_gfx().get_sprite(5), Sprite { sprite_id: 6, x: 7, y: 8, w: 1024, h: 1024 });

    w.run_hook(test, Phase::Init, info);
    w.run_hook(test, Phase::Render, info);
    assert_eq!(w.take_reports(), vec![]);
    w.run_hook(test, Phase::FixedUpdate, info);
    assert_eq!(
        w.take_reports(),
        vec![RateReport { fixed: true, passes: 1, elapsed: 2_000_000 }]
    );
    w.run_hook(test, Phase::Update, info);
    assert_eq!(
        w.take_reports(),
        vec![RateReport { fixed: false, passes: 1, elapsed: 2_000_000 }]
    );

    w.set_key(KEY_D, true);
    w.run_hook(wasdy, Phase::FixedUpdate, info);
    w.run_hook(wasdy, Phase::Init, info);
    assert_eq!(w.get_scene().get(a).get_pos(), Vector3::new(7, 8, 9));
    w.run_hook(wasdy, Phase::Update, info);
    assert_eq!(w.get_scene().get(a).get_pos(), Vector3::new(17, 8, 9));
}

#[test]
fn object_hooks_run_in_list_order() {
    let mut w = World::new();
    let root = w.get_root_object();
    let scene = w.get_scene_mut();
    let a = GameObject::create_empty(scene, "a".to_owned(), Some(root));
    // The sprite is drawn before the move of this pass and after the move of
    // the pass before.
    GameObject::add_component(scene, a, Component::Sprite(SpriteComponent::new(0, 1)));
    GameObject::add_component(
        scene,
        a,
        Component::Wasdy(WASDy { speed: 0, velocity: 1_000_000, acc: 0 }),
    );
    GameObject::add_component(scene, a, Component::Sprite(SpriteComponent::new(1, 1)));
    let info = TickInfo { delta_time: 3 };
    w.run_object(a, Phase::Update, info);
    assert_eq!(w.get_scene().get(a).get_pos(), Vector3::new(0, 3, 0));
    assert_eq!(w.get_gfx().get_sprite(0).y, 0);
    assert_eq!(w.get_gfx().get_sprite(1).y, 3);
    w.run_phase(Phase::Update, info);
    assert_eq!(w.get_scene().get(a).get_pos(), Vector3::new(0, 6, 0));
    assert_eq!(w.get_gfx().get_sprite(0).y, 3);
    assert_eq!(w.get_gfx().get_sprite(1).y, 6);
}

#[test]
fn phase_visits_the_root_then_breadth_first() {
    let mut w = World::new();
    let root = w.get_root_object();
    let scene = w.get_scene_mut();
    let a = GameObject::create_empty(scene, "a".to_owned(), Some(root));
    let b = GameObject::create_empty(scene, "b".to_owned(), Some(root));
    let a1 = GameObject::create_empty(scene, "a1".to_owned(), Some(a));
    let loose = GameObject::create_empty(scene, "loose".to_owned(), None);
    // All write the same slot; the image tells who came last.
    for (id, image) in [(a1, 4), (b, 3), (a, 2), (root, 1)] {
        GameObject::add_component(scene, id, Component::Sprite(SpriteComponent::new(0, image)));
    }
    GameObject::add_component(scene, loose, Component::Sprite(SpriteComponent::new(1, 9)));
    w.run_phase(Phase::Init, TickInfo { delta_time: 0 });
    assert_eq!(w.get_gfx().get_sprite(0).sprite_id, 4);
    // An object that does not hang below the root is not visited.
    assert_eq!(w.get_gfx().get_sprite(1).sprite_id, 0);
    GameObject::set_parent(w.get_scene_mut(), a1, None);
    w.run_phase(Phase::Init, TickInfo { delta_time: 0 });
    assert_eq!(w.get_gfx().get_sprite(0).sprite_id, 3);
}
