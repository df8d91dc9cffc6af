//! The material records whose behaviour is decided by texture indices: the
//! default material, diffuse (Lambertian) surfaces, diffuse lights and
//! isotropic volumes.

use vstd::prelude::*;

verus! {

/// The material that neither emits nor scatters light.
#[derive(Clone, Copy, Debug, PartialEq, Eq, Structural)]
pub struct DefaultMaterial {}

/// A diffuse surface whose albedo is read from a texture.
#[derive(Clone, Copy, Debug, PartialEq, Eq, Structural)]
pub struct Lambertian {
    pub albedo_texture_index: usize,
}

impl Lambertian {
    pub fn new(albedo_index: usize) -> (material: Lambertian)
        ensures
            material.albedo_texture_index == albedo_index,
    {
        Lambertian { albedo_texture_index: albedo_index }
    }
}

/// A light source whose emission is read from a texture.
#[derive(Clone, Copy, Debug, PartialEq, Eq, Structural)]
pub struct DiffuseLight {
    pub emission_texture_index: usize,
}

impl DiffuseLight {
    pub fn new(texture_index: usize) -> (light: DiffuseLight)
        ensures
            light.emission_texture_index == texture_index,
    {
        DiffuseLight { emission_texture_index: texture_index }
    }

    /// The texture that a hit on this light emits: its emission texture when
    /// the front face was hit, none (black) when the back face was.
    pub fn emitted_texture(&self, is_front_face: bool) -> (texture: Option<usize>)
        ensures
            is_front_face ==> texture == Some(self.emission_texture_index),
            !is_front_face ==> texture is None,
    {
        if is_front_face {
            Some(self.emission_texture_index)
        } else {
            None
        }
    }
}

/// A participating medium that scatters uniformly, with its albedo read from
/// a texture.
#[derive(Clone, Copy, Debug, PartialEq, Eq, Structural)]
pub struct Isotropic {
    pub albedo_texture_index: usize,
}

impl Isotropic {
    pub fn new(texture_index: usize) -> (material: Isotropic)
        ensures
            material.albedo_texture_index == texture_index,
    {
        Isotropic { albedo_texture_index: texture_index }
    }
}

} // verus!
