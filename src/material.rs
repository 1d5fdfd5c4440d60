//! Materials of a cell in a cellular simulation, with their `u32` codes.
use vstd::prelude::*;

verus! {

#[derive(Clone, Copy, Debug, PartialEq, Eq, Structural)]
pub enum Material {
    Air,
    Water,
    Sand,
    Soil,
}

/// The code of each material: 0 air, 1 water, 2 sand, 3 soil.
pub open spec fn material_code(m: Material) -> u32 {
    match m {
        Material::Air => 0,
        Material::Water => 1,
        Material::Sand => 2,
        Material::Soil => 3,
    }
}

impl Material {
    /// The material with code `value`, or `None` for a code above 3.
    pub fn from_u32(value: u32) -> (r: Option<Material>)
        ensures
            r is Some <==> value < 4,
            r matches Some(m) ==> material_code(m) == value,
    {
        match value {
            0 => Some(Material::Air),
            1 => Some(Material::Water),
            2 => Some(Material::Sand),
            3 => Some(Material::Soil),
            _ => None,
        }
    }

    pub fn code(&self) -> (r: u32)
        ensures
            r == material_code(*self),
    {
        match self {
            Material::Air => 0,
            Material::Water => 1,
            Material::Sand => 2,
            Material::Soil => 3,
        }
    }
}

} // verus!
