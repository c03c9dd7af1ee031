//! Voxel materials.
use vstd::prelude::*;

verus! {

/// The material of a voxel.
#[derive(Clone, Copy, Debug, PartialEq, Eq, Structural)]
pub enum Material {
    Stone,
    Dirt,
    Grass,
    Snow,
    Sand,
}

impl Default for Material {
    /// Stone.
    fn default() -> (r: Self)
        ensures
            r == Material::Stone,
    {
        Material::Stone
    }
}

} // verus!
