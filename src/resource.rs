//! Plain asset records: textures, materials and entity names.
use vstd::prelude::*;

verus! {

/// The use that a material makes of a texture.
#[derive(Clone, Copy, Debug, PartialEq, Eq, Structural)]
pub enum TextureType {
    Diffuse,
    Specular,
}

/// Decoded image data, row by row, with its width and height in pixels.
pub struct Texture {
    pub raw: Vec<u8>,
    pub size: [u32; 2],
}

impl Texture {
    pub fn new(raw: Vec<u8>, size: [u32; 2]) -> (t: Texture)
        ensures
            t.raw@ == raw@,
            t.size == size,
    {
        Texture { raw, size }
    }
}

/// A material, with the asset path of its texture if it has one.
pub struct Material {
    pub tex: Option<String>,
}

/// The name of an entity, as a component.
pub struct NameComponent(pub String);

} // verus!
