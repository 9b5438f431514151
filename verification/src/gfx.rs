//! Plain handles to graphics-device objects. The device calls that create,
//! bind and destroy them live with the surrounding application; the handles
//! themselves are ordinary data that components and resources carry around.

use vstd::prelude::*;

verus! {

/// A handle to a linked shader program on the graphics device.
#[derive(Clone, Copy, PartialEq, Eq, Structural, Debug)]
pub struct Shader(pub u32);

/// A handle to a texture on the graphics device, together with the format it
/// was allocated with.
#[derive(Clone, Copy, PartialEq, Eq, Structural, Debug)]
pub struct Texture {
    pub id: u32,
    pub width: u32,
    pub height: u32,
    pub iformat: u32,
    pub format: u32,
    pub typ: u32,
}

/// A handle to a framebuffer and its optional depth renderbuffer; ids of zero
/// name the default framebuffer.
#[derive(Clone, Copy, PartialEq, Eq, Structural, Debug)]
pub struct Framebuffer {
    pub fb: u32,
    pub rb: u32,
}

impl Framebuffer {
    /// The default framebuffer of the device.
    pub fn default_target() -> (r: Framebuffer)
        ensures
            r.fb == 0,
            r.rb == 0,
    {
        Framebuffer { fb: 0, rb: 0 }
    }
}

/// A handle to a timer query object on the graphics device.
#[derive(Clone, Copy, PartialEq, Eq, Structural, Debug)]
pub struct Query(pub u32);

} // verus!
