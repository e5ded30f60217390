//! What the engine hands to a renderer, as plain data: the camera and the
//! table of sprites to draw. Drawing itself is left to the caller.

use vstd::prelude::*;
use crate::components::Sprite;
use crate::vectors::{Vector2, Vector3, UNIT};

verus! {

/// The number of slots in the sprite table.
pub const INSTANCES: usize = 500;

/// The view into the world: where the camera stands, how it is turned, and
/// the size and depth range of the box it sees.
#[derive(Clone, Copy, Debug, PartialEq, Eq, Structural)]
pub struct Camera {
    pub pos: Vector3,
    pub rot: Vector3,
    pub size: Vector2,
    pub near: i32,
    pub far: i32,
}

/// The camera of a new window: at the origin, unturned, one world unit wide
/// and high, seeing from a tenth of a unit to a thousand units deep.
pub open spec fn initial_camera() -> Camera {
    Camera {
        pos: Vector3 { x: 0, y: 0, z: 0 },
        rot: Vector3 { x: 0, y: 0, z: 0 },
        size: Vector2 { x: UNIT, y: UNIT },
        near: 102,
        far: 1_024_000,
    }
}

/// A slot of the sprite table in which nothing has been put yet.
pub open spec fn empty_slot() -> Sprite {
    Sprite { sprite_id: 0, x: 0, y: 0, w: 0, h: 0 }
}

/// The camera and the sprite table, as plain values.
pub struct GraphicsView {
    pub camera: Camera,
    pub sprites: Seq<Sprite>,
}

/// The camera and the sprite table.
pub struct Graphics {
    camera: Camera,
    sprites: Vec<Sprite>,
}

impl View for Graphics {
    type V = GraphicsView;

    closed spec fn view(&self) -> GraphicsView {
        GraphicsView { camera: self.camera, sprites: self.sprites@ }
    }
}

impl Graphics {
    /// The sprite table has its fixed number of slots.
    pub open spec fn wf(&self) -> bool {
        self@.sprites.len() == INSTANCES
    }

    /// The initial camera and a table of empty slots.
    pub fn new() -> (gfx: Graphics)
        ensures
            gfx.wf(),
            gfx@.camera == initial_camera(),
            forall|i: int| 0 <= i < INSTANCES ==> gfx@.sprites[i] == empty_slot(),
    {
        let mut sprites: Vec<Sprite> = Vec::new();
        let mut i: usize = 0;
        while i < INSTANCES
            invariant
                i <= INSTANCES,
                sprites@.len() == i,
                forall|j: int| 0 <= j < i ==> sprites@[j] == empty_slot(),
            decreases INSTANCES - i,
        {
            sprites.push(Sprite { sprite_id: 0, x: 0, y: 0, w: 0, h: 0 });
            i += 1;
        }
        Graphics {
            camera: Camera {
                pos: Vector3::zero(),
                rot: Vector3::zero(),
                size: Vector2::unit(),
                near: 102,
                far: 1_024_000,
            },
            sprites,
        }
    }

    /// Puts `sprite` into slot `idx` of the sprite table.
    pub fn update_sprite(&mut self, sprite: Sprite, idx: usize)
        requires
            old(self).wf(),
            idx < INSTANCES,
        ensures
            final(self).wf(),
            final(self)@ == (GraphicsView {
                sprites: old(self)@.sprites.update(idx as int, sprite),
                ..old(self)@
            }),
    {
        self.sprites[idx] = sprite;
    }

    /// The sprite in slot `idx`.
    pub fn get_sprite(&self, idx: usize) -> (sprite: Sprite)
        requires
            self.wf(),
            idx < INSTANCES,
        ensures
            sprite == self@.sprites[idx as int],
    {
        self.sprites[idx]
    }

    /// The camera.
    pub fn get_camera(&self) -> (camera: &Camera)
        ensures
            *camera == self@.camera,
    {
        &self.camera
    }

    /// The camera, for changing it.
    pub fn get_camera_mut(&mut self) -> (camera: &mut Camera)
        ensures
            *camera == old(self)@.camera,
            final(self)@ == (GraphicsView { camera: *final(camera), ..old(self)@ }),
    {
        &mut self.camera
    }
}

} // verus!
