//! The shader-stage identifier the rendering front ends share.

use vstd::prelude::*;

verus! {

/// A type of shader that can be compiled.
#[derive(Clone, Copy, Debug, PartialEq, Eq, Structural)]
pub enum ShaderType {
    Vertex,
    Fragment,
}

impl ShaderType {
    /// The GL enumerant for this shader stage (`GL_VERTEX_SHADER` or
    /// `GL_FRAGMENT_SHADER`), as a rendering context expects it.
    pub fn gl_code(&self) -> (r: u32)
        ensures
            *self == ShaderType::Vertex ==> r == 0x8B31,
            *self == ShaderType::Fragment ==> r == 0x8B30,
    {
        match self {
            ShaderType::Vertex => 0x8B31,
            ShaderType::Fragment => 0x8B30,
        }
    }

    /// A lower-case label for this shader stage, for messages.
    pub fn label(&self) -> (r: &'static str)
        ensures
            *self == ShaderType::Vertex ==> r@ == "vertex"@,
            *self == ShaderType::Fragment ==> r@ == "fragment"@,
    {
        match self {
            ShaderType::Vertex => "vertex",
            ShaderType::Fragment => "fragment",
        }
    }
}

} // verus!
