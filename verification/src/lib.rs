//! Runtime core of a small real-time 2D engine: a scene graph of objects that
//! own behaviour components, a dual-rate tick scheduler and a convex-polygon
//! collision engine, with machine-checked contracts.
//!
//! The library computes with integers only. World coordinates are
//! fixed-point numbers with ten fractional bits ([`vectors::UNIT`] steps to
//! the world unit), and sums of coordinates saturate at the ends of their
//! range. Time is counted in ticks of a microsecond
//! ([`components::TICKS_PER_SECOND`]). Windows, drawing and the clock belong
//! to the caller: the engine is told what happened and when, and answers
//! with what to do next.
//!
//! - [`tree`]: the shape of a scene graph as mathematics.
//! - [`game_object`]: the scene, its objects, their components and the
//!   resolution of collisions.
//! - [`polygon`]: convex polygons and the separating-axis overlap test.
//! - [`components`]: the kinds of behaviour components.
//! - [`world`]: what components act on, and what each does in each phase.
//! - [`engine`]: the tick scheduler.
//! - [`graphics`]: the camera and the sprite table, as data for a renderer.
//! - [`shader`]: substitution of arguments in shader source.
//! - [`vectors`], [`n_array`], [`quadtree`], [`err`]: small building blocks.

pub mod components;
pub mod engine;
pub mod err;
pub mod game_object;
pub mod graphics;
pub mod n_array;
pub mod polygon;
pub mod quadtree;
pub mod shader;
pub mod tree;
pub mod vectors;
pub mod world;
