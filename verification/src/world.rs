//! The world that components act on, and what each kind of component does in
//! each phase of a tick.
//!
//! A hook gets the world, the handle of its component and the time that the
//! phase covers. It reads its own state from the world, and writes it back
//! when it is done; in between it may move its owner, the camera or a sprite.

use vstd::prelude::*;
use crate::components::{
    CompRc, Component, ComponentKind, ComponentRef, Sprite, SpriteComponent, TestComponent, WASDy,
    TICKS_PER_SECOND,
};
use crate::game_object::{
    GameObject, ObjectView, Scene, adopted, handles_below, hitbox_of, links_of, move_result,
    objects_wf, refreshed, root_id, same_shape, with_component, lemma_same_shape_trans,
    lemma_same_shape_wf,
};
use crate::graphics::{Camera, Graphics, GraphicsView, INSTANCES};
use crate::tree::{ObjectId, breadth_first_order, lemma_breadth_first_unique, lemma_descendant_in_forest};
use crate::vectors::{Vector2, Vector3, clamp_coord, clamp_to_coord, div_toward_zero, divide_toward_zero};

verus! {

/// The number of keys that the key table follows. Key codes are those of the
/// windowing layer; a code outside the table names a key that is never down.
pub const KEY_COUNT: usize = 350;

/// The code of the space key.
pub const KEY_SPACE: i32 = 32;

/// The code of the A key.
pub const KEY_A: i32 = 65;

/// The code of the D key.
pub const KEY_D: i32 = 68;

/// The code of the S key.
pub const KEY_S: i32 = 83;

/// The code of the W key.
pub const KEY_W: i32 = 87;

/// The code of the Escape key.
pub const KEY_ESCAPE: i32 = 256;

/// The code of the right arrow key.
pub const KEY_RIGHT: i32 = 262;

/// The code of the left arrow key.
pub const KEY_LEFT: i32 = 263;

/// The code of the down arrow key.
pub const KEY_DOWN: i32 = 264;

/// The code of the up arrow key.
pub const KEY_UP: i32 = 265;

/// The speed at which the arrow keys move the camera, in coordinate steps a
/// second: a tenth of a world unit.
pub const PAN_SPEED: i32 = 102;

/// The phases in which the scheduler drives the components.
#[derive(Clone, Copy, Debug, PartialEq, Eq, Structural)]
pub enum Phase {
    Init,
    Update,
    FixedUpdate,
    Render,
}

/// What a hook is told about the pass it runs in: the time that the pass
/// covers, in clock ticks.
#[derive(Clone, Copy, Debug, PartialEq, Eq, Structural)]
pub struct TickInfo {
    pub delta_time: i64,
}

/// A measurement of a test component: how many passes of one kind it saw in
/// how many clock ticks.
#[derive(Clone, Copy, Debug, PartialEq, Eq, Structural)]
pub struct RateReport {
    pub fixed: bool,
    pub passes: i64,
    pub elapsed: i64,
}

/// Two colliders that were found to overlap, and the push that would move
/// the first out of the second.
#[derive(Clone, Copy, Debug, PartialEq, Eq, Structural)]
pub struct Contact {
    pub first: CompRc,
    pub second: CompRc,
    pub push: Vector2,
}

/// The world as plain values.
pub struct WorldView {
    pub gfx: GraphicsView,
    pub objects: Seq<ObjectView>,
    pub root: ObjectId,
    pub keys: Seq<bool>,
    pub now: u64,
    pub reports: Seq<RateReport>,
    pub contacts: Seq<Contact>,
}

/// Everything that a component can reach: the scene with its root, the
/// camera and the sprite table, the state of the keys, the time of the
/// current frame, the measurements that wait to be collected and the
/// contacts that the last collision pass found.
pub struct World {
    gfx: Graphics,
    scene: Scene,
    root_object: ObjectId,
    keys: Vec<bool>,
    now: u64,
    reports: Vec<RateReport>,
    contacts: Vec<Contact>,
}

impl View for World {
    type V = WorldView;

    closed spec fn view(&self) -> WorldView {
        WorldView {
            gfx: self.gfx@,
            objects: self.scene@,
            root: self.root_object,
            keys: self.keys@,
            now: self.now,
            reports: self.reports@,
            contacts: self.contacts@,
        }
    }
}

/// The difference `d` of two clock readings, held to what a time span can
/// express.
pub open spec fn clamp_delta(d: int) -> int {
    if d > i64::MAX {
        i64::MAX as int
    } else if d < i64::MIN {
        i64::MIN as int
    } else {
        d
    }
}

/// The time from `earlier` to `later`, negative if the clock ran backwards.
pub fn elapsed(later: u64, earlier: u64) -> (d: i64)
    ensures
        d == clamp_delta(later - earlier),
{
    let d = later as i128 - earlier as i128;
    if d > i64::MAX as i128 {
        i64::MAX
    } else if d < i64::MIN as i128 {
        i64::MIN
    } else {
        d as i64
    }
}

/// What a rate of `v` coordinate steps a second amounts to in `dt` clock
/// ticks, rounded toward zero and held to the coordinate range.
pub open spec fn scaled_by_time(v: int, dt: int) -> int {
    clamp_coord(div_toward_zero(v * dt, TICKS_PER_SECOND as int))
}

/// What a rate of `v` coordinate steps a second amounts to in `dt` clock
/// ticks.
pub fn scale_by_time(v: i32, dt: i64) -> (r: i32)
    ensures
        r == scaled_by_time(v as int, dt as int),
{
    let a = v as i128;
    let b = dt as i128;
    assert(-0x4000_0000_0000_0000_0000_0000 <= a * b <= 0x4000_0000_0000_0000_0000_0000)
        by (nonlinear_arith)
        requires
            -0x8000_0000 <= a <= 0x8000_0000,
            -0x8000_0000_0000_0000 <= b <= 0x8000_0000_0000_0000,
    ;
    clamp_to_coord(divide_toward_zero(a * b, TICKS_PER_SECOND as i128))
}

/// The sum of two coordinates, held to the coordinate range.
pub fn add_coords(a: i32, b: i32) -> (r: i32)
    ensures
        r == clamp_coord(a + b),
{
    clamp_to_coord(a as i128 + b as i128)
}

/// Whether the key with code `key` is down; a key outside the table never is.
pub open spec fn key_down(keys: Seq<bool>, key: int) -> bool {
    0 <= key < keys.len() && keys[key]
}

/// The state and the move of a keyboard-driven object after `dt` clock ticks.
/// W, A, S and D each add a step of `speed`. Space lets an object that stands
/// on ground jump, with half the strength of its acceleration against it. Then
/// the acceleration acts on the velocity, and the new velocity on the move.
pub open spec fn wasdy_move(w: WASDy, keys: Seq<bool>, grounded: bool, dt: int) -> (WASDy, Vector3) {
    let step = scaled_by_time(w.speed as int, dt);
    let y1 = if key_down(keys, KEY_W as int) {
        clamp_coord(0 + step)
    } else {
        0
    };
    let x1 = if key_down(keys, KEY_A as int) {
        clamp_coord(0 - step)
    } else {
        0
    };
    let y2 = if key_down(keys, KEY_S as int) {
        clamp_coord(y1 - step)
    } else {
        y1
    };
    let x2 = if key_down(keys, KEY_D as int) {
        clamp_coord(x1 + step)
    } else {
        x1
    };
    let v0 = if key_down(keys, KEY_SPACE as int) && grounded {
        clamp_coord(div_toward_zero(-(w.acc as int), 2))
    } else {
        w.velocity as int
    };
    let v1 = clamp_coord(v0 + scaled_by_time(w.acc as int, dt));
    let y3 = clamp_coord(y2 + scaled_by_time(v1, dt));
    (
        WASDy { speed: w.speed, velocity: v1 as i32, acc: w.acc },
        Vector3 { x: x2 as i32, y: y3 as i32, z: 0 },
    )
}

/// The camera after the arrow keys have moved it for `dt` clock ticks.
pub open spec fn panned(cam: Camera, keys: Seq<bool>, dt: int) -> Camera {
    let forth = scaled_by_time(PAN_SPEED as int, dt);
    let back = scaled_by_time(-(PAN_SPEED as int), dt);
    let x1 = if key_down(keys, KEY_RIGHT as int) {
        clamp_coord(cam.pos.x + forth)
    } else {
        cam.pos.x as int
    };
    let x2 = if key_down(keys, KEY_LEFT as int) {
        clamp_coord(x1 + back)
    } else {
        x1
    };
    let y1 = if key_down(keys, KEY_UP as int) {
        clamp_coord(cam.pos.y + forth)
    } else {
        cam.pos.y as int
    };
    let y2 = if key_down(keys, KEY_DOWN as int) {
        clamp_coord(y1 + back)
    } else {
        y1
    };
    Camera {
        pos: Vector3 { x: x2 as i32, y: y2 as i32, z: cam.pos.z },
        rot: cam.rot,
        size: cam.size,
        near: cam.near,
        far: cam.far,
    }
}

/// A pass counter after one more pass: once a second or more has gone by
/// since the last measurement, the counter reports the passes and the time
/// and starts over.
pub open spec fn counted(count: i64, last: u64, now: u64) -> (i64, u64, Option<(i64, i64)>) {
    let more = if count < i64::MAX {
        (count + 1) as i64
    } else {
        count
    };
    let delta = clamp_delta(now - last);
    if delta >= TICKS_PER_SECOND {
        (0, now, Some((more, delta as i64)))
    } else {
        (more, last, None)
    }
}

/// Counts one more pass.
pub fn count_pass(count: i64, last: u64, now: u64) -> (r: (i64, u64, Option<(i64, i64)>))
    ensures
        r == counted(count, last, now),
{
    let more = if count < i64::MAX {
        count + 1
    } else {
        count
    };
    let delta = elapsed(now, last);
    if delta >= TICKS_PER_SECOND {
        (0, now, Some((more, delta)))
    } else {
        (more, last, None)
    }
}

/// The reports with one more, if there is one to add.
pub open spec fn with_report(
    reports: Seq<RateReport>,
    fixed: bool,
    measured: Option<(i64, i64)>,
) -> Seq<RateReport> {
    match measured {
        Some((passes, elapsed)) => reports.push(RateReport { fixed, passes, elapsed }),
        None => reports,
    }
}

/// The sprite table with `sprite` in slot `index`; a slot outside the table
/// is not drawn.
pub open spec fn with_sprite(gfx: GraphicsView, sprite: Sprite, index: usize) -> GraphicsView {
    if index < INSTANCES {
        GraphicsView { camera: gfx.camera, sprites: gfx.sprites.update(index as int, sprite) }
    } else {
        gfx
    }
}

/// The component that `rc` names.
pub open spec fn component_at(w: WorldView, rc: ComponentRef) -> Component {
    w.objects[rc.owner.index as int].components[rc.index as int]
}

/// The world after the component that `rc` names has been initialised: a
/// collider records its owner, a sprite component enters its sprite in the
/// sprite table.
pub open spec fn initialised(w: WorldView, rc: ComponentRef) -> WorldView {
    match component_at(w, rc) {
        Component::Collider(_) => WorldView {
            objects: with_component(w.objects, rc, adopted(component_at(w, rc), rc.owner)),
            ..w
        },
        Component::Sprite(c) => WorldView { gfx: with_sprite(w.gfx, c.sprite, c.index), ..w },
        _ => w,
    }
}

/// The sprite of `c` at the position of its owner.
pub open spec fn placed_sprite(c: SpriteComponent, owner: ObjectView) -> Sprite {
    Sprite {
        sprite_id: c.sprite.sprite_id,
        x: owner.pos.x,
        y: owner.pos.y,
        w: c.sprite.w,
        h: c.sprite.h,
    }
}

/// The world after a keyboard-driven component has had its variable-rate
/// pass: the camera follows the arrow keys, the owner makes its move and is
/// pushed out of what it runs into, and an owner that ends on ground loses
/// its velocity.
pub open spec fn wasdy_updated(w: WorldView, rc: ComponentRef, c: WASDy, dt: int) -> WorldView {
    let owner = rc.owner.index as int;
    let (after, offset) = wasdy_move(c, w.keys, w.objects[owner].grounded, dt);
    let objects = move_result(w.objects, w.root, rc.owner, offset);
    let landed = WASDy {
        speed: after.speed,
        velocity: if objects[owner].grounded {
            0
        } else {
            after.velocity
        },
        acc: after.acc,
    };
    WorldView {
        gfx: GraphicsView { camera: panned(w.gfx.camera, w.keys, dt), sprites: w.gfx.sprites },
        objects: with_component(objects, rc, Component::Wasdy(landed)),
        ..w
    }
}

/// The world after the component that `rc` names has had its variable-rate
/// pass of `dt` clock ticks.
pub open spec fn updated(w: WorldView, rc: ComponentRef, dt: int) -> WorldView {
    match component_at(w, rc) {
        Component::Collider(_) => w,
        Component::Sprite(c) => WorldView {
            gfx: with_sprite(w.gfx, placed_sprite(c, w.objects[rc.owner.index as int]), c.index),
            ..w
        },
        Component::Test(c) => {
            let (count, last, measured) = counted(c.count, c.last_update, w.now);
            WorldView {
                objects: with_component(
                    w.objects,
                    rc,
                    Component::Test(
                        TestComponent {
                            count,
                            fixed_count: c.fixed_count,
                            last_update: last,
                            last_fixed_update: c.last_fixed_update,
                        },
                    ),
                ),
                reports: with_report(w.reports, false, measured),
                ..w
            }
        },
        Component::Wasdy(c) => wasdy_updated(w, rc, c, dt),
    }
}

/// The world after the component that `rc` names has had its fixed-rate pass.
pub open spec fn fixed_updated(w: WorldView, rc: ComponentRef) -> WorldView {
    match component_at(w, rc) {
        Component::Test(c) => {
            let (count, last, measured) = counted(c.fixed_count, c.last_fixed_update, w.now);
            WorldView {
                objects: with_component(
                    w.objects,
                    rc,
                    Component::Test(
                        TestComponent {
                            count: c.count,
                            fixed_count: count,
                            last_update: c.last_update,
                            last_fixed_update: last,
                        },
                    ),
                ),
                reports: with_report(w.reports, true, measured),
                ..w
            }
        },
        _ => w,
    }
}

/// The world after the hook of the component that `rc` names has run in
/// `phase`. No component does anything in the render phase.
pub open spec fn hook_result(w: WorldView, rc: ComponentRef, phase: Phase, dt: int) -> WorldView {
    match phase {
        Phase::Init => initialised(w, rc),
        Phase::Update => updated(w, rc, dt),
        Phase::FixedUpdate => fixed_updated(w, rc),
        Phase::Render => w,
    }
}

/// A world is sound: its objects are sound as a scene, the root is the first
/// of them, and the key table and the sprite table have their fixed sizes.
pub open spec fn world_wf(w: WorldView) -> bool {
    &&& objects_wf(w.objects)
    &&& w.root == root_id()
    &&& w.keys.len() == KEY_COUNT
    &&& w.gfx.sprites.len() == INSTANCES
}

impl World {
    /// The world is sound: the scene is, the root is its first object, and
    /// the key table and the sprite table have their fixed sizes.
    pub open spec fn wf(&self) -> bool {
        world_wf(self@)
    }

    /// A new world: one object named "root" without parent, the initial
    /// camera, an empty sprite table, no key down, the clock at zero.
    pub fn new() -> (world: World)
        ensures
            world.wf(),
            world@.objects.len() == 1,
            world@.root == (ObjectId { index: 0 }),
            world@.objects[0] == crate::game_object::fresh_object(world@.root, "root"@),
            world@.gfx.camera == crate::graphics::initial_camera(),
            forall|i: int| 0 <= i < INSTANCES ==> world@.gfx.sprites[i] == crate::graphics::empty_slot(),
            forall|i: int| 0 <= i < KEY_COUNT ==> !world@.keys[i],
            world@.now == 0,
            world@.reports.len() == 0,
            world@.contacts.len() == 0,
    {
        let scene = Scene::new();
        let root_object = scene.root();
        let mut keys: Vec<bool> = Vec::new();
        let mut i: usize = 0;
        while i < KEY_COUNT
            invariant
                i <= KEY_COUNT,
                keys@.len() == i,
                forall|j: int| 0 <= j < i ==> !keys@[j],
            decreases KEY_COUNT - i,
        {
            keys.push(false);
            i += 1;
        }
        let gfx = Graphics::new();
        World { gfx, scene, root_object, keys, now: 0, reports: Vec::new(), contacts: Vec::new() }
    }

    /// The root of the scene graph.
    pub fn get_root_object(&self) -> (root: ObjectId)
        ensures
            root == self@.root,
    {
        self.root_object
    }

    /// The camera and the sprite table.
    pub fn get_gfx(&self) -> (gfx: &Graphics)
        ensures
            gfx@ == self@.gfx,
    {
        &self.gfx
    }

    /// The camera and the sprite table, for changing them.
    pub fn get_gfx_mut(&mut self) -> (gfx: &mut Graphics)
        ensures
            gfx@ == old(self)@.gfx,
            final(self)@ == (WorldView { gfx: final(gfx)@, ..old(self)@ }),
    {
        &mut self.gfx
    }

    /// The scene.
    pub fn get_scene(&self) -> (scene: &Scene)
        ensures
            scene@ == self@.objects,
    {
        &self.scene
    }

    /// The scene, for changing it.
    pub fn get_scene_mut(&mut self) -> (scene: &mut Scene)
        ensures
            scene@ == old(self)@.objects,
            final(self)@ == (WorldView { objects: final(scene)@, ..old(self)@ }),
    {
        &mut self.scene
    }

    /// Whether the key with code `key` is down.
    pub fn get_key(&self, key: i32) -> (down: bool)
        ensures
            down == key_down(self@.keys, key as int),
    {
        if key >= 0 && (key as usize) < self.keys.len() {
            self.keys[key as usize]
        } else {
            false
        }
    }

    /// Records that the key with code `key` went down or up. A code outside
    /// the key table is ignored.
    pub fn set_key(&mut self, key: i32, down: bool)
        requires
            old(self).wf(),
        ensures
            final(self).wf(),
            final(self)@ == (WorldView {
                keys: with_key(old(self)@.keys, key as int, down),
                ..old(self)@
            }),
    {
        if key >= 0 && (key as usize) < self.keys.len() {
            self.keys[key as usize] = down;
        }
    }

    /// Sets the time of the current frame.
    pub fn set_now(&mut self, now: u64)
        ensures
            final(self)@ == (WorldView { now, ..old(self)@ }),
    {
        self.now = now;
    }

    /// Hands out the measurements that have been made since the last call,
    /// oldest first, and forgets them.
    pub fn take_reports(&mut self) -> (reports: Vec<RateReport>)
        ensures
            reports@ == old(self)@.reports,
            final(self)@ == (WorldView { reports: Seq::empty(), ..old(self)@ }),
    {
        let mut out: Vec<RateReport> = Vec::new();
        let ghost before = self.reports@;
        out.append(&mut self.reports);
        proof {
            assert(out@ =~= before);
            assert(self.reports@ =~= Seq::<RateReport>::empty());
        }
        out
    }
}

/// The key table with the key `key` set to `down`; a code outside the table
/// changes nothing.
pub open spec fn with_key(keys: Seq<bool>, key: int, down: bool) -> Seq<bool> {
    if 0 <= key < keys.len() {
        keys.update(key, down)
    } else {
        keys
    }
}

/// `rc` names a component of one of the objects.
pub open spec fn has_component_at(objects: Seq<ObjectView>, rc: ComponentRef) -> bool {
    &&& rc.owner.index < objects.len()
    &&& rc.index < objects[rc.owner.index as int].components.len()
}

impl World {
    /// The sprite component that `rc` names.
    fn sprite_component(&self, rc: ComponentRef) -> (c: SpriteComponent)
        requires
            has_component_at(self@.objects, rc),
            component_at(self@, rc) is Sprite,
        ensures
            component_at(self@, rc) == Component::Sprite(c),
    {
        match self.scene.get_component_ref(rc) {
            Component::Sprite(c) => *c,
            _ => vstd::pervasive::unreached(),
        }
    }

    /// The test component that `rc` names.
    fn test_component(&self, rc: ComponentRef) -> (c: TestComponent)
        requires
            has_component_at(self@.objects, rc),
            component_at(self@, rc) is Test,
        ensures
            component_at(self@, rc) == Component::Test(c),
    {
        match self.scene.get_component_ref(rc) {
            Component::Test(c) => *c,
            _ => vstd::pervasive::unreached(),
        }
    }

    /// The keyboard-driven component that `rc` names.
    fn wasdy_component(&self, rc: ComponentRef) -> (c: WASDy)
        requires
            has_component_at(self@.objects, rc),
            component_at(self@, rc) is Wasdy,
        ensures
            component_at(self@, rc) == Component::Wasdy(c),
    {
        match self.scene.get_component_ref(rc) {
            Component::Wasdy(c) => *c,
            _ => vstd::pervasive::unreached(),
        }
    }

    /// Puts `sprite` into slot `index` of the sprite table, if the table has
    /// such a slot.
    fn draw_sprite(&mut self, sprite: Sprite, index: usize)
        requires
            old(self).wf(),
        ensures
            final(self)@ == (WorldView {
                gfx: with_sprite(old(self)@.gfx, sprite, index),
                ..old(self)@
            }),
    {
        if index < INSTANCES {
            self.gfx.update_sprite(sprite, index);
        }
    }

    /// Moves the camera as the arrow keys say.
    fn pan_camera(&mut self, dt: i64)
        ensures
            final(self)@ == (WorldView {
                gfx: GraphicsView {
                    camera: panned(old(self)@.gfx.camera, old(self)@.keys, dt as int),
                    sprites: old(self)@.gfx.sprites,
                },
                ..old(self)@
            }),
    {
        let forth = scale_by_time(PAN_SPEED, dt);
        let back = scale_by_time(-PAN_SPEED, dt);
        let right = self.get_key(KEY_RIGHT);
        let left = self.get_key(KEY_LEFT);
        let up = self.get_key(KEY_UP);
        let down = self.get_key(KEY_DOWN);
        let cam = self.gfx.get_camera_mut();
        if right {
            cam.pos.x = add_coords(cam.pos.x, forth);
        }
        if left {
            cam.pos.x = add_coords(cam.pos.x, back);
        }
        if up {
            cam.pos.y = add_coords(cam.pos.y, forth);
        }
        if down {
            cam.pos.y = add_coords(cam.pos.y, back);
        }
    }

    /// The state and the move of a keyboard-driven object after `dt` clock
    /// ticks, with the keys as they are.
    fn plan_move(&self, c: WASDy, grounded: bool, dt: i64) -> (r: (WASDy, Vector3))
        ensures
            r == wasdy_move(c, self@.keys, grounded, dt as int),
    {
        let step = scale_by_time(c.speed, dt);
        let mut x: i32 = 0;
        let mut y: i32 = 0;
        let mut velocity = c.velocity;
        if self.get_key(KEY_W) {
            y = add_coords(y, step);
        }
        if self.get_key(KEY_A) {
            x = clamp_to_coord(x as i128 - step as i128);
        }
        if self.get_key(KEY_S) {
            y = clamp_to_coord(y as i128 - step as i128);
        }
        if self.get_key(KEY_D) {
            x = add_coords(x, step);
        }
        if self.get_key(KEY_SPACE) && grounded {
            velocity = clamp_to_coord(divide_toward_zero(-(c.acc as i128), 2));
        }
        velocity = add_coords(velocity, scale_by_time(c.acc, dt));
        y = add_coords(y, scale_by_time(velocity, dt));
        (WASDy { speed: c.speed, velocity, acc: c.acc }, Vector3 { x, y, z: 0 })
    }
}

impl Component {
    /// Initialises the component that `rc` names: a collider records its
    /// owner, a sprite component enters its sprite in the sprite table.
    pub fn init(world: &mut World, rc: ComponentRef)
        requires
            old(world).wf(),
            has_component_at(old(world)@.objects, rc),
        ensures
            final(world).wf(),
            final(world)@ == initialised(old(world)@, rc),
            same_shape(old(world)@.objects, final(world)@.objects),
    {
        let ghost before = world@;
        match world.scene.get_component_ref(rc).kind() {
            ComponentKind::Collider => {
                world.scene.adopt_collider(rc);
            },
            ComponentKind::Sprite => {
                let c = world.sprite_component(rc);
                world.draw_sprite(c.sprite, c.index);
            },
            _ => {},
        }
        proof {
            lemma_same_shape_wf(before.objects, world@.objects);
        }
    }

    /// Runs the variable-rate pass of the component that `rc` names. A sprite
    /// component moves its sprite to its owner, a test component counts the
    /// pass, a keyboard-driven component moves its owner.
    pub fn update(world: &mut World, info: TickInfo, rc: ComponentRef)
        requires
            old(world).wf(),
            has_component_at(old(world)@.objects, rc),
        ensures
            final(world).wf(),
            final(world)@ == updated(old(world)@, rc, info.delta_time as int),
            same_shape(old(world)@.objects, final(world)@.objects),
    {
        let ghost before = world@;
        match world.scene.get_component_ref(rc).kind() {
            ComponentKind::Collider => {},
            ComponentKind::Sprite => {
                let c = world.sprite_component(rc);
                let pos = world.scene.get(rc.owner).get_pos();
                let placed = Sprite {
                    sprite_id: c.sprite.sprite_id,
                    x: pos.x,
                    y: pos.y,
                    w: c.sprite.w,
                    h: c.sprite.h,
                };
                world.draw_sprite(placed, c.index);
            },
            ComponentKind::Test => {
                let c = world.test_component(rc);
                let (count, last, measured) = count_pass(c.count, c.last_update, world.now);
                world.scene.set_component(
                    rc,
                    Component::Test(
                        TestComponent {
                            count,
                            fixed_count: c.fixed_count,
                            last_update: last,
                            last_fixed_update: c.last_fixed_update,
                        },
                    ),
                );
                match measured {
                    Some((passes, elapsed)) => {
                        world.reports.push(RateReport { fixed: false, passes, elapsed });
                    },
                    None => {},
                }
            },
            ComponentKind::Wasdy => {
                let c = world.wasdy_component(rc);
                let grounded = world.scene.get(rc.owner).is_grounded();
                let (after, offset) = world.plan_move(c, grounded, info.delta_time);
                world.pan_camera(info.delta_time);
                let root = world.root_object;
                GameObject::move_and_collide(&mut world.scene, root, rc.owner, offset);
                let landed = world.scene.get(rc.owner).is_grounded();
                let velocity = if landed {
                    0
                } else {
                    after.velocity
                };
                world.scene.set_component(
                    rc,
                    Component::Wasdy(WASDy { speed: after.speed, velocity, acc: after.acc }),
                );
                proof {
                    let mid = move_result(before.objects, before.root, rc.owner, offset);
                    lemma_same_shape_trans(before.objects, mid, world@.objects);
                }
            },
        }
        proof {
            lemma_same_shape_wf(before.objects, world@.objects);
        }
    }

    /// Runs the fixed-rate pass of the component that `rc` names. A test
    /// component counts the pass.
    pub fn fixed_update(world: &mut World, info: TickInfo, rc: ComponentRef)
        requires
            old(world).wf(),
            has_component_at(old(world)@.objects, rc),
        ensures
            final(world).wf(),
            final(world)@ == fixed_updated(old(world)@, rc),
            same_shape(old(world)@.objects, final(world)@.objects),
    {
        let ghost before = world@;
        match world.scene.get_component_ref(rc).kind() {
            ComponentKind::Test => {
                let c = world.test_component(rc);
                let (count, last, measured) = count_pass(
                    c.fixed_count,
                    c.last_fixed_update,
                    world.now,
                );
                world.scene.set_component(
                    rc,
                    Component::Test(
                        TestComponent {
                            count: c.count,
                            fixed_count: count,
                            last_update: c.last_update,
                            last_fixed_update: last,
                        },
                    ),
                );
                match measured {
                    Some((passes, elapsed)) => {
                        world.reports.push(RateReport { fixed: true, passes, elapsed });
                    },
                    None => {},
                }
            },
            _ => {},
        }
        proof {
            lemma_same_shape_wf(before.objects, world@.objects);
        }
    }

    /// Runs the render pass of the component that `rc` names. No component
    /// of the known kinds does anything here.
    pub fn render(world: &mut World, info: TickInfo, rc: ComponentRef)
        requires
            old(world).wf(),
            has_component_at(old(world)@.objects, rc),
        ensures
            final(world).wf(),
            final(world)@ == old(world)@,
    {
    }
}

/// The world after the hooks of the first `k` components of object `id`
/// have run in `phase`, in list order.
pub open spec fn hooks_run(w: WorldView, id: ObjectId, phase: Phase, dt: int, k: nat) -> WorldView
    decreases k,
{
    if k == 0 {
        w
    } else {
        hook_result(
            hooks_run(w, id, phase, dt, (k - 1) as nat),
            ComponentRef { owner: id, index: (k - 1) as usize },
            phase,
            dt,
        )
    }
}

/// The world after all hooks of object `id` have run in `phase`.
pub open spec fn object_run(w: WorldView, id: ObjectId, phase: Phase, dt: int) -> WorldView {
    hooks_run(w, id, phase, dt, w.objects[id.index as int].components.len())
}

/// The world after the hooks of the first `k` objects of `order` have run in
/// `phase`, object by object.
pub open spec fn objects_run(
    w: WorldView,
    order: Seq<ObjectId>,
    phase: Phase,
    dt: int,
    k: nat,
) -> WorldView
    decreases k,
{
    if k == 0 {
        w
    } else {
        object_run(objects_run(w, order, phase, dt, (k - 1) as nat), order[k - 1], phase, dt)
    }
}

/// The order in which a pass visits the objects: the root, then everything
/// below it, breadth first.
pub open spec fn tick_order(w: WorldView) -> Seq<ObjectId> {
    seq![w.root] + breadth_first_order(links_of(w.objects), w.root)
}

/// The world after one pass of `phase` over all objects.
pub open spec fn phase_result(w: WorldView, phase: Phase, dt: int) -> WorldView {
    objects_run(w, tick_order(w), phase, dt, tick_order(w).len())
}

/// What no hook changes: the root, the keys, the time of the frame, the
/// contacts and the size of the sprite table.
pub open spec fn same_frame(a: WorldView, b: WorldView) -> bool {
    &&& a.root == b.root
    &&& a.keys == b.keys
    &&& a.now == b.now
    &&& a.contacts == b.contacts
    &&& a.gfx.sprites.len() == b.gfx.sprites.len()
}

/// The objects after the hitboxes of the first `k` of `colliders` have been
/// put around the positions of their owners.
pub open spec fn refreshed_all(objects: Seq<ObjectView>, colliders: Seq<CompRc>, k: nat) -> Seq<
    ObjectView,
>
    decreases k,
{
    if k == 0 {
        objects
    } else {
        refreshed(refreshed_all(objects, colliders, (k - 1) as nat), colliders[k - 1].rc)
    }
}

/// The push that would move collider `a` out of collider `b`, with the
/// hitboxes as they are; `None` when the two do not overlap.
pub open spec fn overlap_of(objects: Seq<ObjectView>, a: ComponentRef, b: ComponentRef) -> Option<
    Vector2,
> {
    hitbox_of(objects[a.owner.index as int].components[a.index as int]).overlap_push(
        &hitbox_of(objects[b.owner.index as int].components[b.index as int]),
    )
}

/// The contact of the colliders at positions `a` and `b`, if they overlap.
pub open spec fn contact_at(
    objects: Seq<ObjectView>,
    colliders: Seq<CompRc>,
    a: int,
    b: int,
) -> Option<Contact> {
    match overlap_of(objects, colliders[a].rc, colliders[b].rc) {
        Some(push) => Some(Contact { first: colliders[a], second: colliders[b], push }),
        None => None,
    }
}

/// The contacts of collider `i` with those of the colliders behind it that
/// come before position `j`, in list order.
pub open spec fn contacts_in_row(
    objects: Seq<ObjectView>,
    colliders: Seq<CompRc>,
    i: nat,
    j: nat,
) -> Seq<Contact>
    decreases j,
{
    if j <= i + 1 {
        Seq::empty()
    } else {
        let before = contacts_in_row(objects, colliders, i, (j - 1) as nat);
        match contact_at(objects, colliders, i as int, j - 1) {
            Some(c) => before.push(c),
            None => before,
        }
    }
}

/// The contacts of each of the first `i` colliders with the colliders behind
/// it: every unordered pair once, the earlier collider first.
pub open spec fn contacts_upto(objects: Seq<ObjectView>, colliders: Seq<CompRc>, i: nat) -> Seq<
    Contact,
>
    decreases i,
{
    if i == 0 {
        Seq::empty()
    } else {
        contacts_upto(objects, colliders, (i - 1) as nat) + contacts_in_row(
            objects,
            colliders,
            (i - 1) as nat,
            colliders.len(),
        )
    }
}

/// `c` is the contact of the colliders at positions `a` and `b` of the list,
/// of which `a` is the earlier.
pub open spec fn is_contact_of(
    objects: Seq<ObjectView>,
    colliders: Seq<CompRc>,
    c: Contact,
    a: int,
    b: int,
) -> bool {
    0 <= a < b < colliders.len() && contact_at(objects, colliders, a, b) == Some(c)
}

/// `c` is the contact of the collider at position `i` with one of the
/// colliders behind it that come before position `j`.
pub open spec fn is_row_contact(
    objects: Seq<ObjectView>,
    colliders: Seq<CompRc>,
    c: Contact,
    i: int,
    j: int,
) -> bool {
    exists|b: int| b < j && is_contact_of(objects, colliders, c, i, b)
}

/// `c` is the contact of one of the first `i` colliders with a collider
/// behind it.
pub open spec fn is_pair_contact(
    objects: Seq<ObjectView>,
    colliders: Seq<CompRc>,
    c: Contact,
    i: int,
) -> bool {
    exists|a: int, b: int| a < i && is_contact_of(objects, colliders, c, a, b)
}

/// The contacts of one collider are those with the colliders behind it that it
/// overlaps, and all of those.
pub proof fn lemma_row_contacts(objects: Seq<ObjectView>, colliders: Seq<CompRc>, i: nat, j: nat)
    requires
        j <= colliders.len(),
    ensures
        forall|k: int|
            0 <= k < contacts_in_row(objects, colliders, i, j).len() ==> is_row_contact(
                objects,
                colliders,
                #[trigger] contacts_in_row(objects, colliders, i, j)[k],
                i as int,
                j as int,
            ),
        forall|b: int|
            i < b < j && (#[trigger] contact_at(objects, colliders, i as int, b)) is Some
                ==> contacts_in_row(objects, colliders, i, j).contains(
                contact_at(objects, colliders, i as int, b)->0,
            ),
    decreases j,
{
    if j > i + 1 {
        lemma_row_contacts(objects, colliders, i, (j - 1) as nat);
        let before = contacts_in_row(objects, colliders, i, (j - 1) as nat);
        let row = contacts_in_row(objects, colliders, i, j);
        assert forall|k: int| 0 <= k < row.len() implies is_row_contact(
            objects,
            colliders,
            #[trigger] row[k],
            i as int,
            j as int,
        ) by {
            if k < before.len() {
                assert(is_row_contact(objects, colliders, before[k], i as int, j - 1));
                let b = choose|b: int|
                    b < j - 1 && is_contact_of(objects, colliders, before[k], i as int, b);
                assert(b < j && is_contact_of(objects, colliders, row[k], i as int, b));
            } else {
                let b: int = j - 1;
                assert(b < j && is_contact_of(objects, colliders, row[k], i as int, b));
            }
        }
        assert forall|b: int|
            i < b < j && (#[trigger] contact_at(objects, colliders, i as int, b))
                is Some implies row.contains(contact_at(objects, colliders, i as int, b)->0) by {
            let c = contact_at(objects, colliders, i as int, b)->0;
            if b < j - 1 {
                assert(before.contains(c));
                let k = choose|k: int| 0 <= k < before.len() && before[k] == c;
                assert(row[k] == c);
            } else {
                assert(row[row.len() - 1] == c);
            }
        }
    }
}

/// Every contact of a collision pass is the contact of two different places
/// of the list of colliders, the earlier one first, and every two colliders
/// that overlap have their contact listed.
pub proof fn lemma_contacts_are_pairs(objects: Seq<ObjectView>, colliders: Seq<CompRc>, i: nat)
    requires
        i <= colliders.len(),
    ensures
        forall|k: int|
            0 <= k < contacts_upto(objects, colliders, i).len() ==> is_pair_contact(
                objects,
                colliders,
                #[trigger] contacts_upto(objects, colliders, i)[k],
                i as int,
            ),
        forall|a: int, b: int|
            0 <= a < i && a < b < colliders.len() && (#[trigger] contact_at(
                objects,
                colliders,
                a,
                b,
            )) is Some ==> contacts_upto(objects, colliders, i).contains(
                contact_at(objects, colliders, a, b)->0,
            ),
    decreases i,
{
    if i > 0 {
        lemma_contacts_are_pairs(objects, colliders, (i - 1) as nat);
        lemma_row_contacts(objects, colliders, (i - 1) as nat, colliders.len());
        let before = contacts_upto(objects, colliders, (i - 1) as nat);
        let row = contacts_in_row(objects, colliders, (i - 1) as nat, colliders.len());
        let all = contacts_upto(objects, colliders, i);
        assert forall|k: int| 0 <= k < all.len() implies is_pair_contact(
            objects,
            colliders,
            #[trigger] all[k],
            i as int,
        ) by {
            if k < before.len() {
                assert(is_pair_contact(objects, colliders, before[k], i - 1));
                let (a, b) = choose|a: int, b: int|
                    a < i - 1 && is_contact_of(objects, colliders, before[k], a, b);
                assert(a < i && is_contact_of(objects, colliders, all[k], a, b));
            } else {
                let c = row[k - before.len()];
                let a: int = i - 1;
                assert(is_row_contact(objects, colliders, c, a, colliders.len() as int));
                let b = choose|b: int|
                    b < colliders.len() && is_contact_of(objects, colliders, c, a, b);
                assert(a < i && is_contact_of(objects, colliders, all[k], a, b));
            }
        }
        assert forall|a: int, b: int|
            0 <= a < i && a < b < colliders.len() && (#[trigger] contact_at(
                objects,
                colliders,
                a,
                b,
            )) is Some implies all.contains(contact_at(objects, colliders, a, b)->0) by {
            let c = contact_at(objects, colliders, a, b)->0;
            if a < i - 1 {
                assert(before.contains(c));
                let k = choose|k: int| 0 <= k < before.len() && before[k] == c;
                assert(all[k] == c);
            } else {
                assert(row.contains(c));
                let k = choose|k: int| 0 <= k < row.len() && row[k] == c;
                assert(all[before.len() + k] == c);
            }
        }
    }
}

/// The world after a collision pass: the hitbox of every collider at and
/// below the root follows its owner, and the contacts between them are those
/// of every pair of colliders, each pair tested once.
pub open spec fn collision_pass_result(w: WorldView) -> WorldView {
    let colliders = handles_below(w.objects, w.root, ComponentKind::Collider);
    let objects = refreshed_all(w.objects, colliders, colliders.len());
    WorldView { objects, contacts: contacts_upto(objects, colliders, colliders.len()), ..w }
}

impl World {
    /// Runs the hook of the component that `rc` names in `phase`.
    pub fn run_hook(&mut self, rc: ComponentRef, phase: Phase, info: TickInfo)
        requires
            old(self).wf(),
            has_component_at(old(self)@.objects, rc),
        ensures
            final(self).wf(),
            final(self)@ == hook_result(old(self)@, rc, phase, info.delta_time as int),
            same_shape(old(self)@.objects, final(self)@.objects),
            same_frame(old(self)@, final(self)@),
    {
        match phase {
            Phase::Init => Component::init(self, rc),
            Phase::Update => Component::update(self, info, rc),
            Phase::FixedUpdate => Component::fixed_update(self, info, rc),
            Phase::Render => Component::render(self, info, rc),
        }
    }

    /// Runs the hooks of all components of object `id` in `phase`, in list
    /// order.
    pub fn run_object(&mut self, id: ObjectId, phase: Phase, info: TickInfo)
        requires
            old(self).wf(),
            id.index < old(self)@.objects.len(),
        ensures
            final(self).wf(),
            final(self)@ == object_run(old(self)@, id, phase, info.delta_time as int),
            same_shape(old(self)@.objects, final(self)@.objects),
            same_frame(old(self)@, final(self)@),
    {
        let ghost before = self@;
        let n = self.scene.get(id).component_count();
        let mut k: usize = 0;
        while k < n
            invariant
                k <= n,
                n == before.objects[id.index as int].components.len(),
                id.index < before.objects.len(),
                self.wf(),
                same_shape(before.objects, self@.objects),
                same_frame(before, self@),
                self@ == hooks_run(before, id, phase, info.delta_time as int, k as nat),
            decreases n - k,
        {
            let ghost now = self@;
            self.run_hook(ComponentRef { owner: id, index: k }, phase, info);
            proof {
                lemma_same_shape_trans(before.objects, now.objects, self@.objects);
            }
            k += 1;
        }
    }

    /// Runs one pass of `phase`: the hooks of every object, the root first,
    /// then everything below it breadth first, each object's components in
    /// list order.
    pub fn run_phase(&mut self, phase: Phase, info: TickInfo)
        requires
            old(self).wf(),
        ensures
            final(self).wf(),
            final(self)@ == phase_result(old(self)@, phase, info.delta_time as int),
            same_shape(old(self)@.objects, final(self)@.objects),
            same_frame(old(self)@, final(self)@),
    {
        let ghost before = self@;
        let root = self.root_object;
        let children = GameObject::get_all_children(&self.scene, root);
        let ghost order = seq![root] + children@;
        proof {
            let f = links_of(before.objects);
            lemma_breadth_first_unique(f, root, children@, breadth_first_order(f, root));
            assert(order == tick_order(before));
            assert forall|i: int| 0 <= i < children@.len() implies (#[trigger] children@[i]).index
                < before.objects.len() by {
                assert(children@.contains(children@[i]));
                lemma_descendant_in_forest(f, children@[i], root);
            }
        }
        self.run_object(root, phase, info);
        proof {
            assert(objects_run(before, order, phase, info.delta_time as int, 0) == before);
        }
        let mut i: usize = 0;
        while i < children.len()
            invariant
                i <= children@.len(),
                order == seq![root] + children@,
                forall|j: int| 0 <= j < children@.len() ==> (#[trigger] children@[j]).index
                    < before.objects.len(),
                self.wf(),
                same_shape(before.objects, self@.objects),
                same_frame(before, self@),
                self@ == objects_run(before, order, phase, info.delta_time as int, (i + 1) as nat),
            decreases children@.len() - i,
        {
            let ghost now = self@;
            proof {
                assert(order[i + 1] == children@[i as int]);
            }
            self.run_object(children[i], phase, info);
            proof {
                lemma_same_shape_trans(before.objects, now.objects, self@.objects);
            }
            i += 1;
        }
    }

    /// Runs a collision pass: collects every collider at and below the root,
    /// puts each hitbox around the position of its owner, and tests every
    /// pair of colliders once, the earlier of the two supplying the axes. The
    /// contacts found replace those of the last pass. Nothing is moved.
    pub fn collision_pass(&mut self)
        requires
            old(self).wf(),
        ensures
            final(self).wf(),
            final(self)@ == collision_pass_result(old(self)@),
            same_shape(old(self)@.objects, final(self)@.objects),
            forall|k: int|
                0 <= k < final(self)@.contacts.len() ==> (#[trigger] final(self)@.contacts[k]).first.rc
                    != final(self)@.contacts[k].second.rc,
    {
        let ghost before = self@;
        let root = self.root_object;
        let colliders = GameObject::get_components_in_children(
            &self.scene,
            root,
            ComponentKind::Collider,
        );
        let n = colliders.len();
        let mut k: usize = 0;
        while k < n
            invariant
                k <= n,
                n == colliders@.len(),
                colliders@ == handles_below(before.objects, before.root, ComponentKind::Collider),
                forall|i: int|
                    0 <= i < colliders@.len() ==> {
                        &&& has_component_at(before.objects, (#[trigger] colliders@[i]).rc)
                        &&& before.objects[colliders@[i].rc.owner.index as int].components[colliders@[i].rc.index as int].spec_kind()
                            == ComponentKind::Collider
                    },
                world_wf(before),
                same_shape(before.objects, self@.objects),
                self@ == (WorldView {
                    objects: refreshed_all(before.objects, colliders@, k as nat),
                    ..before
                }),
            decreases n - k,
        {
            let ghost now = self@;
            proof {
                assert(has_component_at(before.objects, colliders@[k as int].rc));
            }
            self.scene.refresh_collider(colliders[k].rc);
            proof {
                lemma_same_shape_trans(before.objects, now.objects, self@.objects);
            }
            k += 1;
        }
        let ghost ready = self@.objects;
        let mut contacts: Vec<Contact> = Vec::new();
        let mut i: usize = 0;
        while i < n
            invariant
                i <= n,
                n == colliders@.len(),
                forall|i: int|
                    0 <= i < colliders@.len() ==> {
                        &&& has_component_at(before.objects, (#[trigger] colliders@[i]).rc)
                        &&& before.objects[colliders@[i].rc.owner.index as int].components[colliders@[i].rc.index as int].spec_kind()
                            == ComponentKind::Collider
                    },
                same_shape(before.objects, ready),
                self@.objects == ready,
                self@ == (WorldView { objects: ready, ..before }),
                contacts@ == contacts_upto(ready, colliders@, i as nat),
            decreases n - i,
        {
            let first = colliders[i];
            let ghost row_start = contacts@;
            let mut j: usize = i + 1;
            proof {
                assert(has_component_at(before.objects, colliders@[i as int].rc));
                assert(contacts_in_row(ready, colliders@, i as nat, (i + 1) as nat)
                    =~= Seq::<Contact>::empty());
                assert(contacts@ =~= row_start + contacts_in_row(
                    ready,
                    colliders@,
                    i as nat,
                    (i + 1) as nat,
                ));
            }
            while j < n
                invariant
                    i < n,
                    i + 1 <= j <= n,
                    n == colliders@.len(),
                    first == colliders@[i as int],
                    forall|i: int|
                        0 <= i < colliders@.len() ==> {
                            &&& has_component_at(before.objects, (#[trigger] colliders@[i]).rc)
                            &&& before.objects[colliders@[i].rc.owner.index as int].components[colliders@[i].rc.index as int].spec_kind()
                                == ComponentKind::Collider
                        },
                    same_shape(before.objects, ready),
                    self@.objects == ready,
                    self@ == (WorldView { objects: ready, ..before }),
                    contacts@ == row_start + contacts_in_row(ready, colliders@, i as nat, j as nat),
                decreases n - j,
            {
                let second = colliders[j];
                proof {
                    assert(has_component_at(before.objects, colliders@[i as int].rc));
                    assert(has_component_at(before.objects, colliders@[j as int].rc));
                    assert(ready[first.rc.owner.index as int].components[first.rc.index as int].spec_kind()
                        == before.objects[first.rc.owner.index as int].components[first.rc.index as int].spec_kind());
                    assert(ready[second.rc.owner.index as int].components[second.rc.index as int].spec_kind()
                        == before.objects[second.rc.owner.index as int].components[second.rc.index as int].spec_kind());
                }
                match self.scene.hitbox(first.rc).collide(self.scene.hitbox(second.rc)) {
                    Some(push) => {
                        contacts.push(Contact { first, second, push });
                    },
                    None => {},
                }
                proof {
                    assert(contacts@ =~= row_start + contacts_in_row(
                        ready,
                        colliders@,
                        i as nat,
                        (j + 1) as nat,
                    ));
                }
                j += 1;
            }
            i += 1;
        }
        self.contacts = contacts;
        proof {
            lemma_same_shape_wf(before.objects, self@.objects);
            lemma_contacts_are_pairs(ready, colliders@, n as nat);
            assert forall|k: int| 0 <= k < self@.contacts.len() implies (#[trigger] self@.contacts[k]).first.rc
                != self@.contacts[k].second.rc by {
                let c = contacts_upto(ready, colliders@, n as nat)[k];
                assert(is_pair_contact(ready, colliders@, c, n as int));
                let (a, b) = choose|a: int, b: int|
                    a < n && is_contact_of(ready, colliders@, c, a, b);
                assert(colliders@[a] != colliders@[b]);
                assert(colliders@[a].kind == colliders@[b].kind);
            }
        }
    }

    /// The contacts that the last collision pass found.
    pub fn get_contacts(&self) -> (contacts: &Vec<Contact>)
        ensures
            contacts@ == self@.contacts,
    {
        &self.contacts
    }
}

} // verus!
