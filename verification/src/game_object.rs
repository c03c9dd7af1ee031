//! Identifiers shared by game objects and the renderer.
use vstd::prelude::*;

verus! {

/// Identifier of a game object (and of its render instance).
#[derive(PartialEq, Eq, Structural, Debug, Clone, Copy, Hash)]
pub struct GameObjectID(pub u32);

/// Returned by a game object's update: `true` when the object is to be
/// removed from the scene.
#[derive(PartialEq, Eq, Structural, Debug, Clone, Copy)]
pub struct EndOfLife(pub bool);

} // verus!
