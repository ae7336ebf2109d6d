//! Voxel payload: a small closed material tag and its predicates. The albedo
//! color policy is a rendering concern and lives with the renderer, not here.

use vstd::prelude::*;

verus! {

/// Material tag. `Error` is the default tag and doubles as "no voxel".
#[derive(Clone, Copy, Debug, Eq, Hash)]
pub enum Id {
    Error,
    Air,
    Grass,
    Water,
    Dirt,
}

impl PartialEq for Id {
    fn eq(&self, other: &Id) -> (r: bool) {
        match (self, other) {
            (Id::Error, Id::Error) => true,
            (Id::Air, Id::Air) => true,
            (Id::Grass, Id::Grass) => true,
            (Id::Water, Id::Water) => true,
            (Id::Dirt, Id::Dirt) => true,
            _ => false,
        }
    }
}

impl vstd::std_specs::cmp::PartialEqSpecImpl for Id {
    open spec fn obeys_eq_spec() -> bool {
        true
    }

    open spec fn eq_spec(&self, other: &Id) -> bool {
        *self == *other
    }
}

impl Default for Id {
    fn default() -> (r: Self)
        ensures
            r == Id::Error,
    {
        Id::Error
    }
}

/// One voxel: a wrapper around its material tag.
#[derive(Clone, Copy, Debug, Eq)]
pub struct Voxel {
    pub id: Id,
}

impl PartialEq for Voxel {
    fn eq(&self, other: &Voxel) -> (r: bool) {
        self.id == other.id
    }
}

impl vstd::std_specs::cmp::PartialEqSpecImpl for Voxel {
    open spec fn obeys_eq_spec() -> bool {
        true
    }

    open spec fn eq_spec(&self, other: &Voxel) -> bool {
        *self == *other
    }
}

impl Default for Voxel {
    fn default() -> (r: Self)
        ensures
            r == (Voxel { id: Id::Error }),
    {
        Voxel { id: Id::Error }
    }
}

impl Voxel {
    /// Only air lets light and sight pass through.
    pub fn is_transparent(&self) -> (r: bool)
        ensures
            r == (self.id == Id::Air),
    {
        match self.id {
            Id::Air => true,
            _ => false,
        }
    }
}

} // verus!
