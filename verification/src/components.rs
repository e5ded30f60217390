//! The behaviour modules that objects own, and the handles by which they are
//! found again.

use vstd::prelude::*;
use crate::polygon::Polygon;
use crate::tree::ObjectId;

verus! {

/// Ticks of the engine clock in one second: the clock counts microseconds.
pub const TICKS_PER_SECOND: i64 = 1_000_000;

/// The concrete type of a component, by which lookups select.
#[derive(Clone, Copy, Debug, PartialEq, Eq, Structural)]
pub enum ComponentKind {
    Collider,
    Sprite,
    Test,
    Wasdy,
}

/// What the renderer needs to draw one sprite: the image to use, and the
/// centre and size of the quad in world coordinates.
#[derive(Clone, Copy, Debug, PartialEq, Eq, Structural)]
pub struct Sprite {
    pub sprite_id: i32,
    pub x: i32,
    pub y: i32,
    pub w: i32,
    pub h: i32,
}

/// A collision shape. The polygon is kept around the position of the owning
/// object; the owner is recorded when the component is initialised.
#[derive(Debug)]
pub struct Collider {
    pub owner: Option<ObjectId>,
    pub hitbox: Polygon,
}

/// Draws its owner: keeps one slot of the sprite table at the owner's
/// position.
#[derive(Clone, Copy, Debug, PartialEq, Eq, Structural)]
pub struct SpriteComponent {
    pub sprite: Sprite,
    pub index: usize,
}

/// Counts the passes it sees and measures their rate once a second.
#[derive(Clone, Copy, Debug, PartialEq, Eq, Structural)]
pub struct TestComponent {
    pub count: i64,
    pub fixed_count: i64,
    pub last_update: u64,
    pub last_fixed_update: u64,
}

/// Moves its owner with the keyboard and lets it fall and jump.
#[derive(Clone, Copy, Debug, PartialEq, Eq, Structural)]
pub struct WASDy {
    pub speed: i32,
    pub velocity: i32,
    pub acc: i32,
}

/// A behaviour module of one of the known kinds.
#[derive(Debug)]
pub enum Component {
    Collider(Collider),
    Sprite(SpriteComponent),
    Test(TestComponent),
    Wasdy(WASDy),
}

/// An untyped handle of a component: the owning object and the position in
/// the owner's component list. Components are never removed, so a handle
/// names the same component for as long as the scene lives.
#[derive(Clone, Copy, Debug, PartialEq, Eq, Structural)]
pub struct ComponentRef {
    pub owner: ObjectId,
    pub index: usize,
}

/// A handle of a component together with the kind it was found to have.
#[derive(Clone, Copy, Debug, PartialEq, Eq, Structural)]
pub struct CompRc {
    pub rc: ComponentRef,
    pub kind: ComponentKind,
}

impl Component {
    /// The kind of this component.
    pub open spec fn spec_kind(&self) -> ComponentKind {
        match self {
            Component::Collider(_) => ComponentKind::Collider,
            Component::Sprite(_) => ComponentKind::Sprite,
            Component::Test(_) => ComponentKind::Test,
            Component::Wasdy(_) => ComponentKind::Wasdy,
        }
    }

    /// The kind of this component.
    pub fn kind(&self) -> (k: ComponentKind)
        ensures
            k == self.spec_kind(),
    {
        match self {
            Component::Collider(_) => ComponentKind::Collider,
            Component::Sprite(_) => ComponentKind::Sprite,
            Component::Test(_) => ComponentKind::Test,
            Component::Wasdy(_) => ComponentKind::Wasdy,
        }
    }
}

impl Collider {
    /// A collider with the given shape that no object owns yet.
    pub fn new(hitbox: Polygon) -> (c: Collider)
        ensures
            c.owner is None,
            c.hitbox == hitbox,
    {
        Collider { owner: None, hitbox }
    }

    /// Whether the collider has been initialised with its owner.
    pub fn has_owner(&self) -> (b: bool)
        ensures
            b == self.owner is Some,
    {
        self.owner.is_some()
    }

    /// The object that owns the collider.
    pub fn get_owner(&self) -> (o: ObjectId)
        requires
            self.owner is Some,
        ensures
            Some(o) == self.owner,
    {
        match self.owner {
            Some(o) => o,
            None => vstd::pervasive::unreached(),
        }
    }
}

impl SpriteComponent {
    /// A component that draws image `sprite_id` into slot `sprite_number` of
    /// the sprite table, one world unit wide and high.
    pub fn new(sprite_number: usize, sprite_id: i32) -> (c: SpriteComponent)
        ensures
            c == (SpriteComponent {
                sprite: Sprite {
                    sprite_id,
                    x: 0,
                    y: 0,
                    w: crate::vectors::UNIT,
                    h: crate::vectors::UNIT,
                },
                index: sprite_number,
            }),
    {
        SpriteComponent {
            sprite: Sprite {
                sprite_id,
                x: 0,
                y: 0,
                w: crate::vectors::UNIT,
                h: crate::vectors::UNIT,
            },
            index: sprite_number,
        }
    }
}

impl Default for TestComponent {
    /// A counter that has seen no pass yet.
    fn default() -> (c: TestComponent)
        ensures
            c == (TestComponent { count: 0, fixed_count: 0, last_update: 0, last_fixed_update: 0 }),
    {
        TestComponent { count: 0, fixed_count: 0, last_update: 0, last_fixed_update: 0 }
    }
}

} // verus!
