//! Per-camera visibility and draw ordering for an entity-component scene.
//!
//! For one camera at a time the engine keeps the drawables that are flagged
//! visible, gives each an order key, and lays them out for submission: the
//! opaque ones nearest first, then the transparent ones farthest first, ties
//! staying in the order in which the drawables were met.

pub mod order_key;
pub mod ordering;
pub mod visible_entities;
pub mod laws;

pub use order_key::OrderKey;

pub use visible_entities::{
    update, visible_entities_system, CameraView, Draw, Drawable, Placement, UpdateError,
    VisibleEntities, VisibleEntity,
};
