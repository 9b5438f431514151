//! Spatial components: a transform built from position, rotation and scale,
//! and the material an entity is drawn with. The vector, quaternion and
//! matrix arithmetic itself is glam's; this module holds the values and keeps
//! the fields apart.

use vstd::prelude::*;
use crate::gfx::Shader;
use crate::gfx::Texture;

verus! {

/// glam's 3-component vector, carried through as an opaque value.
#[verifier::external_type_specification]
#[verifier::external_body]
pub struct ExVec3(glam::Vec3);

/// glam's rotation quaternion, carried through as an opaque value.
#[verifier::external_type_specification]
#[verifier::external_body]
pub struct ExQuat(glam::Quat);

/// glam's 4x4 matrix, carried through as an opaque value.
#[verifier::external_type_specification]
#[verifier::external_body]
pub struct ExMat4(glam::Mat4);

/// Relies on glam::Vec3::ZERO: the all-zero vector.
#[verifier::external_body]
fn vec3_zero() -> glam::Vec3 {
    glam::Vec3::ZERO
}

/// Relies on glam::Vec3::ONE: the all-one vector.
#[verifier::external_body]
fn vec3_one() -> glam::Vec3 {
    glam::Vec3::ONE
}

/// Relies on glam::Quat::IDENTITY: the rotation that leaves vectors as they
/// are.
#[verifier::external_body]
fn quat_identity() -> glam::Quat {
    glam::Quat::IDENTITY
}

/// Relies on glam::Quat::from_euler: the rotation given by the vector's
/// components read as intrinsic x-y-z Euler angles.
#[verifier::external_body]
fn quat_from_euler(v: &glam::Vec3) -> glam::Quat {
    glam::Quat::from_euler(glam::EulerRot::XYZ, v.x, v.y, v.z)
}

/// Relies on glam::Mat4::from_scale_rotation_translation: the affine matrix
/// that scales, then rotates, then translates.
#[verifier::external_body]
fn mat4_from_srt(scale: &glam::Vec3, rotation: &glam::Quat, translation: &glam::Vec3) -> glam::Mat4 {
    glam::Mat4::from_scale_rotation_translation(*scale, *rotation, *translation)
}

/// Where an entity stands, how it is turned, and how it is stretched.
pub struct Transform {
    pub position: glam::Vec3,
    pub rotation: glam::Quat,
    pub scale: glam::Vec3,
}

impl Transform {
    /// A transform that does nothing: zero position, identity rotation, unit
    /// scale.
    pub fn new() -> Self {
        Self { position: vec3_zero(), rotation: quat_identity(), scale: vec3_one() }
    }

    /// The same transform moved to `position`.
    pub fn pos(self, position: glam::Vec3) -> (r: Self)
        ensures
            r.position == position,
            r.rotation == self.rotation,
            r.scale == self.scale,
    {
        Self { position, rotation: self.rotation, scale: self.scale }
    }

    /// The same transform turned to `rotation`.
    pub fn rot_quat(self, rotation: glam::Quat) -> (r: Self)
        ensures
            r.rotation == rotation,
            r.position == self.position,
            r.scale == self.scale,
    {
        Self { position: self.position, rotation, scale: self.scale }
    }

    /// The same transform turned to the rotation that `rotation`'s components
    /// give as x-y-z Euler angles.
    pub fn rot_euler(self, rotation: glam::Vec3) -> (r: Self)
        ensures
            r.position == self.position,
            r.scale == self.scale,
    {
        let q = quat_from_euler(&rotation);
        Self { position: self.position, rotation: q, scale: self.scale }
    }

    /// The same transform stretched by `scale`.
    pub fn scale(self, scale: glam::Vec3) -> (r: Self)
        ensures
            r.scale == scale,
            r.position == self.position,
            r.rotation == self.rotation,
    {
        Self { position: self.position, rotation: self.rotation, scale }
    }

    /// The affine matrix of this transform: scale, then rotate, then
    /// translate.
    pub fn as_mat4(&self) -> glam::Mat4 {
        mat4_from_srt(&self.scale, &self.rotation, &self.position)
    }
}

/// How an entity's mesh is shaded: a texture, or a flat color.
pub enum Material {
    Textured(Texture),
    Color(glam::Vec3),
}

/// The shader a material selects: the texture program for textured
/// materials, the flat-color program otherwise — including for an entity
/// carrying no material at all, which is drawn in the default color.
pub fn shader_for(texture_shader: Shader, color_shader: Shader, m: Option<&Material>) -> (r:
    Shader)
    ensures
        (match m {
            Some(m0) => ((*m0) is Textured ==> r == texture_shader) && ((*m0) is Color ==> r
                == color_shader),
            None => r == color_shader,
        }),
{
    match m {
        Some(Material::Textured(_)) => texture_shader,
        Some(Material::Color(_)) => color_shader,
        None => color_shader,
    }
}

} // verus!
