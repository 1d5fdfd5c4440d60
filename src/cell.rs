//! A cell of a cellular simulation: its material, stored as a `u32` code so that
//! device buffers can hold it.
use vstd::prelude::*;
use crate::material::{material_code, Material};

verus! {

#[derive(Clone, Copy, Debug, PartialEq, Eq, Structural)]
pub struct Cell {
    material: u32,
}

impl Cell {
    pub closed spec fn code(self) -> u32 {
        self.material
    }

    pub fn new(material: Material) -> (r: Cell)
        ensures
            r.code() == material_code(material),
    {
        Cell { material: material.code() }
    }

    /// The cell's material, or `None` when its code names none.
    pub fn material(&self) -> (r: Option<Material>)
        ensures
            r is Some <==> self.code() < 4,
            r matches Some(m) ==> material_code(m) == self.code(),
    {
        Material::from_u32(self.material)
    }
}

} // verus!
