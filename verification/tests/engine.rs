use game_engine::components::{
    Collider, CompRc, Component, ComponentKind, ComponentRef, Sprite, SpriteComponent,
    TestComponent, WASDy, TICKS_PER_SECOND,
};
use game_engine::engine::{Engine, FrameAction, InputEvent};
use game_engine::err::{EngineError, EngineErrorTrait};
use game_engine::game_object::GameObject;
use game_engine::graphics::INSTANCES;
use game_engine::polygon::Polygon;
use game_engine::tree::ObjectId;
use game_engine::vectors::{Vector2, Vector3, UNIT};
use game_engine::world::{
    Contact, RateReport, KEY_A, KEY_D, KEY_DOWN, KEY_ESCAPE, KEY_LEFT, KEY_RIGHT, KEY_S,
    KEY_SPACE, KEY_UP, KEY_W,
};

fn engine() -> Engine {
    Engine::init_engine(Ok(())).expect("the graphics came up")
}

fn rect(half_w: i32, half_h: i32) -> Component {
    Component::Collider(Collider::new(Polygon::new(
        Vector2::new(0, 0),
        vec![
            Vector2::new(-half_w, half_h),
            Vector2::new(half_w, half_h),
            Vector2::new(half_w, -half_h),
            Vector2::new(-half_w, -half_h),
        ],
    )))
}

fn child(engine: &mut Engine, name: &str, pos: (i32, i32)) -> ObjectId {
    let root = engine.get_root_object();
    let scene = engine.get_world_mut().get_scene_mut();
    let id = GameObject::create_empty(scene, name.to_owned(), Some(root));
    GameObject::set_pos(scene, id, Vector3::new(pos.0, pos.1, 0));
    id
}

fn add(engine: &mut Engine, id: ObjectId, c: Component) {
    GameObject::add_component(engine.get_world_mut().get_scene_mut(), id, c);
}

fn pos(engine: &Engine, id: ObjectId) -> Vector3 {
    engine.get_world().get_scene().get(id).get_pos()
}

fn wasdy_of(engine: &Engine, rc: ComponentRef) -> WASDy {
    match engine.get_world().get_scene().get_component_ref(rc) {
        Component::Wasdy(w) => *w,
        _ => panic!("not a keyboard-driven component"),
    }
}

fn count_fixed_passes(engine: &mut Engine, probe: ComponentRef) -> i64 {
    match engine.get_world().get_scene().get_component_ref(probe) {
        Component::Test(t) => t.fixed_count,
        _ => panic!("not a test component"),
    }
}

#[test]
fn init_fails_with_the_error_of_the_graphics() {
    let r = Engine::init_engine(Err(EngineError::from("GL Already Initialized!")));
    match r {
        Err(e) => assert_eq!(e.get_error_message(), "GL Already Initialized!"),
        Ok(_) => panic!("an engine without graphics"),
    }
}

#[test]
fn new_engine_is_stopped_and_holds_a_root() {
    let e = engine();
    assert!(!e.is_running());
    let root = e.get_root_object();
    assert_eq!(root, ObjectId { index: 0 });
    let scene = e.get_world().get_scene();
    assert_eq!(scene.len(), 1);
    assert_eq!(scene.get(root).get_parent(), None);
    assert_eq!(scene.get(root).get_children(), vec![]);
    assert!(!e.get_key(KEY_W));
    assert_eq!(e.get_gfx().get_camera().size, Vector2::new(UNIT, UNIT));
    assert_eq!(e.get_gfx().get_sprite(0), Sprite { sprite_id: 0, x: 0, y: 0, w: 0, h: 0 });
    assert_eq!(
        e.get_gfx().get_sprite(INSTANCES - 1),
        Sprite { sprite_id: 0, x: 0, y: 0, w: 0, h: 0 }
    );
}

#[test]
fn starting_twice_is_an_error() {
    let mut e = engine();
    assert!(e.start_game_loop(0).is_ok());
    assert!(e.is_running());
    match e.start_game_loop(5) {
        Err(err) => assert_eq!(err.get_error_message(), "Game loop already running!"),
        Ok(()) => panic!("started twice"),
    }
    assert!(e.is_running());
    e.stop_game_loop();
    assert!(!e.is_running());
    assert!(e.start_game_loop(10).is_ok());
}

#[test]
fn keys_follow_press_and_release() {
    let mut e = engine();
    e.start_game_loop(0).unwrap();
    let events = vec![
        InputEvent::KeyPress(KEY_W),
        InputEvent::KeyPress(KEY_A),
        InputEvent::Other,
        InputEvent::KeyRelease(KEY_W),
        InputEvent::KeyPress(-1),
        InputEvent::KeyPress(350),
        InputEvent::KeyPress(349),
    ];
    assert_eq!(e.frame(&events, 1000), FrameAction::Render);
    assert!(e.get_key(KEY_A));
    assert!(!e.get_key(KEY_W));
    assert!(e.get_key(349));
    assert!(!e.get_key(350));
    assert!(!e.get_key(-1));
    assert!(!e.get_key(i32::MAX));
    assert_eq!(e.frame(&vec![InputEvent::KeyRelease(KEY_A)], 2000), FrameAction::Render);
    assert!(!e.get_key(KEY_A));
}

#[test]
fn escape_closes_before_any_pass_runs() {
    let mut e = engine();
    let guy = child(&mut e, "guy", (0, 0));
    add(&mut e, guy, Component::Wasdy(WASDy { speed: UNIT, velocity: 0, acc: -5 * UNIT }));
    e.start_game_loop(0).unwrap();
    let events = vec![InputEvent::KeyPress(KEY_D), InputEvent::KeyPress(KEY_ESCAPE)];
    assert_eq!(e.frame(&events, 20_000), FrameAction::Close);
    assert_eq!(pos(&e, guy), Vector3::new(0, 0, 0));
    assert!(e.get_key(KEY_D));
    assert!(!e.get_key(KEY_ESCAPE));
    // Once closing, always closing, until the loop is started anew.
    assert_eq!(e.frame(&vec![], 40_000), FrameAction::Close);
    assert_eq!(pos(&e, guy), Vector3::new(0, 0, 0));
    e.stop_game_loop();
    e.start_game_loop(40_000).unwrap();
    assert_eq!(e.frame(&vec![], 60_000), FrameAction::Render);
    assert_eq!(pos(&e, guy), Vector3::new(20, -2, 0));
}

#[test]
fn escape_release_alone_does_not_close() {
    let mut e = engine();
    e.start_game_loop(0).unwrap();
    assert_eq!(e.frame(&vec![InputEvent::KeyRelease(KEY_ESCAPE)], 10), FrameAction::Render);
}

#[test]
fn falling_object_gains_speed_each_frame() {
    let mut e = engine();
    let guy = child(&mut e, "guy", (0, 0));
    add(&mut e, guy, Component::Wasdy(WASDy { speed: UNIT, velocity: 0, acc: -5 * UNIT }));
    let rc = ComponentRef { owner: guy, index: 0 };
    e.start_game_loop(0).unwrap();
    e.frame(&vec![], 20_000);
    // velocity: -5120 * 0.02 = -102.4 -> -102; move: -102 * 0.02 = -2.04 -> -2
    assert_eq!(wasdy_of(&e, rc), WASDy { speed: UNIT, velocity: -102, acc: -5 * UNIT });
    assert_eq!(pos(&e, guy), Vector3::new(0, -2, 0));
    e.frame(&vec![], 40_000);
    assert_eq!(wasdy_of(&e, rc).velocity, -204);
    assert_eq!(pos(&e, guy), Vector3::new(0, -6, 0));
}

#[test]
fn keys_steer_the_object() {
    let mut e = engine();
    let guy = child(&mut e, "guy", (0, 0));
    add(&mut e, guy, Component::Wasdy(WASDy { speed: UNIT, velocity: 0, acc: 0 }));
    e.start_game_loop(0).unwrap();
    // One step is 1024 * 0.02 = 20.48 -> 20.
    e.frame(&vec![InputEvent::KeyPress(KEY_W)], 20_000);
    assert_eq!(pos(&e, guy), Vector3::new(0, 20, 0));
    e.frame(&vec![InputEvent::KeyPress(KEY_D)], 40_000);
    assert_eq!(pos(&e, guy), Vector3::new(20, 40, 0));
    e.frame(&vec![InputEvent::KeyRelease(KEY_W), InputEvent::KeyPress(KEY_S)], 60_000);
    assert_eq!(pos(&e, guy), Vector3::new(40, 20, 0));
    e.frame(&vec![InputEvent::KeyPress(KEY_A)], 80_000);
    assert_eq!(pos(&e, guy), Vector3::new(40, 0, 0));
    e.frame(&vec![InputEvent::KeyRelease(KEY_D), InputEvent::KeyRelease(KEY_S)], 100_000);
    assert_eq!(pos(&e, guy), Vector3::new(20, 0, 0));
}

#[test]
fn arrow_keys_pan_the_camera() {
    let mut e = engine();
    let guy = child(&mut e, "guy", (0, 0));
    add(&mut e, guy, Component::Wasdy(WASDy { speed: 0, velocity: 0, acc: 0 }));
    e.start_game_loop(0).unwrap();
    e.frame(&vec![InputEvent::KeyPress(KEY_RIGHT), InputEvent::KeyPress(KEY_UP)], TICKS_PER_SECOND as u64);
    assert_eq!(e.get_gfx().get_camera().pos, Vector3::new(102, 102, 0));
    e.frame(
        &vec![
            InputEvent::KeyRelease(KEY_RIGHT),
            InputEvent::KeyRelease(KEY_UP),
            InputEvent::KeyPress(KEY_LEFT),
            InputEvent::KeyPress(KEY_DOWN),
        ],
        3 * TICKS_PER_SECOND as u64,
    );
    assert_eq!(e.get_gfx().get_camera().pos, Vector3::new(102 - 204, 102 - 204, 0));
}

#[test]
fn camera_can_be_set_from_outside() {
    let mut e = engine();
    e.get_gfx_mut().get_camera_mut().size = Vector2::new(3 * UNIT, 2 * UNIT);
    assert_eq!(e.get_gfx().get_camera().size, Vector2::new(3 * UNIT, 2 * UNIT));
    assert_eq!(e.get_gfx().get_camera().near, 102);
    assert_eq!(e.get_gfx().get_camera().far, 1000 * UNIT);
}

#[test]
fn landing_stops_the_fall_and_space_jumps() {
    let mut e = engine();
    let ground = child(&mut e, "ground", (0, -768));
    add(&mut e, ground, rect(1024, 256));
    let guy = child(&mut e, "guy", (0, 1));
    add(&mut e, guy, Component::Wasdy(WASDy { speed: UNIT, velocity: 0, acc: -5 * UNIT }));
    add(&mut e, guy, rect(256, 512));
    let rc = ComponentRef { owner: guy, index: 0 };
    e.start_game_loop(0).unwrap();
    e.frame(&vec![], 20_000);
    // The fall of 2 steps ends 1 step inside the ground; the push sets the
    // object on top of it.
    assert_eq!(pos(&e, guy), Vector3::new(0, 0, 0));
    assert!(e.get_world().get_scene().get(guy).is_grounded());
    assert_eq!(wasdy_of(&e, rc).velocity, 0);
    // The collision pass finds the two shapes touching.
    let ground_collider =
        CompRc { rc: ComponentRef { owner: ground, index: 0 }, kind: ComponentKind::Collider };
    let guy_collider =
        CompRc { rc: ComponentRef { owner: guy, index: 1 }, kind: ComponentKind::Collider };
    assert_eq!(
        e.get_world().get_contacts(),
        &vec![Contact { first: ground_collider, second: guy_collider, push: Vector2::new(0, 0) }]
    );
    e.frame(&vec![InputEvent::KeyPress(KEY_SPACE)], 40_000);
    // Jump: 5120 / 2 = 2560, less one frame of gravity: 2458; 2458 * 0.02 -> 49.
    assert_eq!(wasdy_of(&e, rc).velocity, 2458);
    assert_eq!(pos(&e, guy), Vector3::new(0, 49, 0));
    assert!(!e.get_world().get_scene().get(guy).is_grounded());
    assert_eq!(e.get_world().get_contacts(), &vec![]);
    e.frame(&vec![], 60_000);
    // In the air the space key does nothing.
    assert_eq!(wasdy_of(&e, rc).velocity, 2356);
    assert_eq!(pos(&e, guy), Vector3::new(0, 96, 0));
}

#[test]
fn init_records_owners_and_enters_sprites() {
    let mut e = engine();
    let a = child(&mut e, "a", (10, 20));
    add(&mut e, a, rect(1, 1));
    let mut sprite = SpriteComponent::new(3, 7);
    sprite.sprite.w = 2 * UNIT;
    add(&mut e, a, Component::Sprite(sprite));
    add(&mut e, a, Component::Sprite(SpriteComponent::new(INSTANCES, 1)));
    e.start_game_loop(0).unwrap();
    match e.get_world().get_scene().get_component_ref(ComponentRef { owner: a, index: 0 }) {
        Component::Collider(c) => assert_eq!(c.owner, Some(a)),
        _ => panic!("not the collider"),
    }
    // Initialisation enters the sprite as it stands, the update pass puts it
    // at its owner.
    assert_eq!(
        e.get_gfx().get_sprite(3),
        Sprite { sprite_id: 7, x: 0, y: 0, w: 2 * UNIT, h: UNIT }
    );
    e.frame(&vec![], 1000);
    assert_eq!(
        e.get_gfx().get_sprite(3),
        Sprite { sprite_id: 7, x: 10, y: 20, w: 2 * UNIT, h: UNIT }
    );
    assert_eq!(e.get_gfx().get_sprite(2), Sprite { sprite_id: 0, x: 0, y: 0, w: 0, h: 0 });
}

#[test]
fn root_components_run_too_and_before_the_others() {
    let mut e = engine();
    let root = e.get_root_object();
    // Both write slot 0: the one that runs last wins.
    add(&mut e, root, Component::Sprite(SpriteComponent::new(0, 1)));
    let a = child(&mut e, "a", (5, 5));
    add(&mut e, a, Component::Sprite(SpriteComponent::new(0, 2)));
    let only_root = child(&mut e, "b", (0, 0));
    let _ = only_root;
    add(&mut e, root, Component::Sprite(SpriteComponent::new(1, 3)));
    e.start_game_loop(0).unwrap();
    e.frame(&vec![], 1000);
    assert_eq!(e.get_gfx().get_sprite(0).sprite_id, 2);
    assert_eq!(e.get_gfx().get_sprite(0).x, 5);
    assert_eq!(e.get_gfx().get_sprite(1).sprite_id, 3);
}

#[test]
fn test_component_reports_once_a_second() {
    let mut e = engine();
    let root = e.get_root_object();
    add(&mut e, root, Component::Test(TestComponent::default()));
    e.start_game_loop(0).unwrap();
    e.frame(&vec![], 500_000);
    assert_eq!(e.get_world_mut().take_reports(), vec![]);
    e.frame(&vec![], 1_000_000);
    assert_eq!(
        e.get_world_mut().take_reports(),
        vec![
            RateReport { fixed: false, passes: 2, elapsed: 1_000_000 },
            RateReport { fixed: true, passes: 2, elapsed: 1_000_000 },
        ]
    );
    assert_eq!(e.get_world_mut().take_reports(), vec![]);
    match e.get_world().get_scene().get_component_ref(ComponentRef { owner: root, index: 0 }) {
        Component::Test(t) => assert_eq!(
            *t,
            TestComponent {
                count: 0,
                fixed_count: 0,
                last_update: 1_000_000,
                last_fixed_update: 1_000_000
            }
        ),
        _ => panic!("not the test component"),
    }
}

fn fixed_passes_in(frames: &[u64], start: u64) -> i64 {
    let mut e = engine();
    let root = e.get_root_object();
    // A second that never ends keeps the counter from starting over.
    add(
        &mut e,
        root,
        Component::Test(TestComponent {
            count: 0,
            fixed_count: 0,
            last_update: u64::MAX,
            last_fixed_update: u64::MAX,
        }),
    );
    e.start_game_loop(start).unwrap();
    let mut now = start;
    for d in frames {
        now += d;
        assert_eq!(e.frame(&vec![], now), FrameAction::Render);
    }
    count_fixed_passes(&mut e, ComponentRef { owner: root, index: 0 })
}

#[test]
fn sixty_fixed_passes_in_a_second_of_short_frames() {
    assert_eq!(fixed_passes_in(&[1000; 1000], 0), 60);
    assert_eq!(fixed_passes_in(&[100; 10_000], 123_456), 60);
    assert_eq!(fixed_passes_in(&[16_666; 60], 0), 60);
    assert_eq!(fixed_passes_in(&[16_667; 60], 7), 60);
}

#[test]
fn sixty_fixed_passes_in_a_second_of_uneven_frames() {
    let mut frames = Vec::new();
    let mut t: u64 = 0;
    let mut i: u64 = 0;
    while t < 1_000_000 {
        let mut d = (i * 7919) % 3000 + 500;
        if t + d > 1_000_000 {
            d = 1_000_000 - t;
        }
        frames.push(d);
        t += d;
        i += 1;
    }
    assert_eq!(frames.len(), 501);
    let n = fixed_passes_in(&frames, 0);
    assert!((59..=61).contains(&n));
    assert_eq!(n, 60);
}

#[test]
fn frames_that_overshoot_make_later_passes_come_early() {
    // With frames of 5 ms every pass is late by up to 3.3 ms, and the
    // correction lets the next one start early by twice as much.
    assert_eq!(fixed_passes_in(&[5000; 200], 0), 66);
    // One frame of a whole second runs one pass.
    assert_eq!(fixed_passes_in(&[1_000_000], 0), 1);
}

#[test]
fn ten_thousand_frames_keep_the_passes_on_time() {
    let frames: Vec<u64> = (0..10_000u64).map(|i| (i * 7919) % 3000 + 500).collect();
    let total: u64 = frames.iter().sum();
    assert_eq!(total, 19_994_000);
    assert_eq!(fixed_passes_in(&frames, 0), 1203);
}

#[test]
fn tick_rate_sets_the_time_between_fixed_passes() {
    let mut e = engine();
    let root = e.get_root_object();
    add(
        &mut e,
        root,
        Component::Test(TestComponent {
            count: 0,
            fixed_count: 0,
            last_update: u64::MAX,
            last_fixed_update: u64::MAX,
        }),
    );
    let probe = ComponentRef { owner: root, index: 0 };
    e.set_fixed_tick_rate(10);
    e.start_game_loop(0).unwrap();
    for i in 1..=100u64 {
        e.frame(&vec![], i * 10_000);
    }
    assert_eq!(count_fixed_passes(&mut e, probe), 10);
    e.set_fixed_tick_rate(0);
    for i in 101..=200u64 {
        e.frame(&vec![], i * 10_000);
    }
    assert_eq!(count_fixed_passes(&mut e, probe), 10);
}

#[test]
fn clock_running_backwards_runs_no_fixed_pass() {
    let mut e = engine();
    let root = e.get_root_object();
    add(
        &mut e,
        root,
        Component::Test(TestComponent {
            count: 0,
            fixed_count: 0,
            last_update: u64::MAX,
            last_fixed_update: u64::MAX,
        }),
    );
    let probe = ComponentRef { owner: root, index: 0 };
    e.start_game_loop(1_000_000).unwrap();
    assert_eq!(e.frame(&vec![], 500_000), FrameAction::Render);
    assert_eq!(count_fixed_passes(&mut e, probe), 0);
    assert_eq!(e.frame(&vec![], 1_016_666), FrameAction::Render);
    assert_eq!(count_fixed_passes(&mut e, probe), 1);
}

#[test]
fn game_tick_and_fixed_game_tick_can_be_driven_by_hand() {
    let mut e = engine();
    let guy = child(&mut e, "guy", (0, 0));
    add(&mut e, guy, Component::Wasdy(WASDy { speed: 0, velocity: 500, acc: 0 }));
    add(&mut e, guy, Component::Test(TestComponent::default()));
    e.init();
    e.game_tick(100_000);
    assert_eq!(pos(&e, guy), Vector3::new(0, 50, 0));
    e.fixed_game_tick(100_000);
    assert_eq!(pos(&e, guy), Vector3::new(0, 50, 0));
    match e.get_world().get_scene().get_component_ref(ComponentRef { owner: guy, index: 1 }) {
        Component::Test(t) => {
            assert_eq!(t.count, 1);
            assert_eq!(t.fixed_count, 1);
        }
        _ => panic!("not the test component"),
    }
}
