//! Trusted boundary to the 3D math library.
//!
//! The vector, quaternion and matrix arithmetic is supplied by `glam` and is
//! out of scope for verification: its values are opaque here, and each wrapper
//! states nothing beyond what the call hands back.  The graph, dirty-flag and
//! caching logic built on top of these wrappers is what this crate verifies.

use vstd::prelude::*;

verus! {

#[verifier::external_type_specification]
#[verifier::external_body]
pub struct ExVec3(glam::Vec3);

#[verifier::external_type_specification]
#[verifier::external_body]
pub struct ExQuat(glam::Quat);

#[verifier::external_type_specification]
#[verifier::external_body]
pub struct ExMat4(glam::Mat4);

/// An IEEE-754 single-precision value carried by its bit pattern, so that
/// scalar distances and angles can cross the verified boundary as plain data.
#[derive(Clone, Copy, PartialEq, Eq, Structural)]
pub struct Scalar {
    pub bits: u32,
}

impl Scalar {
    /// The bit pattern of positive zero.
    pub fn zero() -> (r: Scalar)
        ensures
            r.bits == 0,
    {
        Scalar { bits: 0 }
    }

    /// Wraps a raw bit pattern.
    pub fn from_bits(bits: u32) -> (r: Scalar)
        ensures
            r.bits == bits,
    {
        Scalar { bits }
    }
}


// Names for what each wrapped call returns.  Each outside function here is a
// pure function of its arguments, so its result can be named and the callers'
// contracts can be exact; what a name denotes on given values is not stated.

pub uninterp spec fn scalar_neg_of(s: Scalar) -> Scalar;

pub uninterp spec fn vec3_const_of(k: int) -> glam::Vec3;

pub uninterp spec fn quat_const_of(k: int) -> glam::Quat;

pub uninterp spec fn mat_const_of(k: int) -> glam::Mat4;

pub uninterp spec fn vec3_add_of(a: glam::Vec3, b: glam::Vec3) -> glam::Vec3;

pub uninterp spec fn vec3_sub_of(a: glam::Vec3, b: glam::Vec3) -> glam::Vec3;

pub uninterp spec fn vec3_scale_of(v: glam::Vec3, s: Scalar) -> glam::Vec3;

pub uninterp spec fn vec3_cross_of(a: glam::Vec3, b: glam::Vec3) -> glam::Vec3;

pub uninterp spec fn vec3_to_radians_of(v: glam::Vec3) -> glam::Vec3;

pub uninterp spec fn vec3_transform_of(v: glam::Vec3, m: glam::Mat4) -> glam::Vec3;

pub uninterp spec fn quat_from_axis_angle_of(axis: glam::Vec3, angle: Scalar) -> glam::Quat;

pub uninterp spec fn quat_from_euler_of(v: glam::Vec3) -> glam::Quat;

pub uninterp spec fn quat_to_euler_of(q: glam::Quat) -> glam::Vec3;

pub uninterp spec fn quat_mul_of(a: glam::Quat, b: glam::Quat) -> glam::Quat;

pub uninterp spec fn quat_to_matrix_of(q: glam::Quat) -> glam::Mat4;

pub uninterp spec fn quat_from_matrix_of(m: glam::Mat4) -> glam::Quat;

pub uninterp spec fn mat_mul_of(a: glam::Mat4, b: glam::Mat4) -> glam::Mat4;

pub uninterp spec fn mat_inverse_of(m: glam::Mat4) -> glam::Mat4;

pub uninterp spec fn mat_transpose_of(m: glam::Mat4) -> glam::Mat4;

pub uninterp spec fn mat_translation_of(v: glam::Vec3) -> glam::Mat4;

pub uninterp spec fn mat_look_at_of(eye: glam::Vec3, target: glam::Vec3, up: glam::Vec3) -> glam::Mat4;

/// The named origin vector, `vec3_zero`'s result.
pub open spec fn vec3_zero_of() -> glam::Vec3 {
    vec3_const_of(0)
}

/// The named right-axis unit vector, `vec3_right`'s result.
pub open spec fn vec3_right_of() -> glam::Vec3 {
    vec3_const_of(1)
}

/// The named up unit vector, `vec3_up`'s result.
pub open spec fn vec3_up_of() -> glam::Vec3 {
    vec3_const_of(2)
}

/// The named forward unit vector, `vec3_forward`'s result.
pub open spec fn vec3_forward_of() -> glam::Vec3 {
    vec3_const_of(3)
}

/// The named identity rotation, `quat_identity`'s result.
pub open spec fn quat_identity_of() -> glam::Quat {
    quat_const_of(0)
}

/// The named all-zero matrix, `mat_zero`'s result.
pub open spec fn mat_zero_of() -> glam::Mat4 {
    mat_const_of(0)
}

/// The named identity matrix, `mat_identity`'s result.
pub open spec fn mat_identity_of() -> glam::Mat4 {
    mat_const_of(1)
}

/// Relies on the `Neg` impl of the scalar type: arithmetic negation.
#[verifier::external_body]
pub fn scalar_neg(s: Scalar) -> (r: Scalar)
    ensures
        r == scalar_neg_of(s),
{
    Scalar { bits: (-glam::Vec3::splat(bytemuck::cast(s.bits)).x).to_bits() }
}

/// Relies on glam's `Vec3::ZERO` constant: the origin vector.
#[verifier::external_body]
pub fn vec3_zero() -> (r: glam::Vec3)
    ensures
        r == vec3_const_of(0),
{
    glam::Vec3::ZERO
}

/// Relies on glam's `Vec3::Z` constant: the canonical forward unit vector.
#[verifier::external_body]
pub fn vec3_forward() -> (r: glam::Vec3)
    ensures
        r == vec3_const_of(3),
{
    glam::Vec3::Z
}

/// Relies on glam's `Vec3::Y` constant: the canonical up unit vector.
#[verifier::external_body]
pub fn vec3_up() -> (r: glam::Vec3)
    ensures
        r == vec3_const_of(2),
{
    glam::Vec3::Y
}

/// Relies on glam's `Vec3::X` constant: the canonical right-axis unit
/// vector, used to aim single-axis Euler rotations.
#[verifier::external_body]
pub fn vec3_right() -> (r: glam::Vec3)
    ensures
        r == vec3_const_of(1),
{
    glam::Vec3::X
}

/// Relies on the `Add` impl of `glam::Vec3`: component-wise vector addition.
#[verifier::external_body]
pub fn vec3_add(a: glam::Vec3, b: glam::Vec3) -> (r: glam::Vec3)
    ensures
        r == vec3_add_of(a, b),
{
    a + b
}

/// Relies on the `Sub` impl of `glam::Vec3`: component-wise vector
/// subtraction.
#[verifier::external_body]
pub fn vec3_sub(a: glam::Vec3, b: glam::Vec3) -> (r: glam::Vec3)
    ensures
        r == vec3_sub_of(a, b),
{
    a - b
}

/// Relies on the `Mul` impl of `glam::Vec3`: scales a vector by a scalar.
#[verifier::external_body]
pub fn vec3_scale(v: glam::Vec3, s: Scalar) -> (r: glam::Vec3)
    ensures
        r == vec3_scale_of(v, s),
{
    v * glam::Vec3::splat(bytemuck::cast(s.bits))
}

/// Relies on `glam::Vec3::cross`: the cross product of two vectors.
#[verifier::external_body]
pub fn vec3_cross(a: glam::Vec3, b: glam::Vec3) -> (r: glam::Vec3)
    ensures
        r == vec3_cross_of(a, b),
{
    a.cross(b)
}

/// Relies on `to_radians` of the scalar type: converts each component of a
/// vector of degrees to radians.
#[verifier::external_body]
pub fn vec3_to_radians(v: glam::Vec3) -> (r: glam::Vec3)
    ensures
        r == vec3_to_radians_of(v),
{
    glam::Vec3::new(v.x.to_radians(), v.y.to_radians(), v.z.to_radians())
}

/// Relies on `glam::Mat4::transform_point3`: applies an affine transform to a
/// point.
#[verifier::external_body]
pub fn vec3_transform(v: glam::Vec3, m: glam::Mat4) -> (r: glam::Vec3)
    ensures
        r == vec3_transform_of(v, m),
{
    m.transform_point3(v)
}

/// Relies on glam's `Quat::IDENTITY` constant: the identity rotation.
#[verifier::external_body]
pub fn quat_identity() -> (r: glam::Quat)
    ensures
        r == quat_const_of(0),
{
    glam::Quat::IDENTITY
}

/// Relies on `glam::Quat::from_axis_angle`: the rotation of the given angle
/// (radians) about the given axis.
#[verifier::external_body]
pub fn quat_from_axis_angle(axis: glam::Vec3, angle: Scalar) -> (r: glam::Quat)
    ensures
        r == quat_from_axis_angle_of(axis, angle),
{
    glam::Quat::from_axis_angle(axis, bytemuck::cast(angle.bits))
}

/// Relies on `glam::Quat::from_euler` with the intrinsic X,Y,Z convention:
/// the rotation given by a vector of three Euler angles in radians.
#[verifier::external_body]
pub fn quat_from_euler(v: glam::Vec3) -> (r: glam::Quat)
    ensures
        r == quat_from_euler_of(v),
{
    glam::Quat::from_euler(glam::EulerRot::XYZ, v.x, v.y, v.z)
}

/// Relies on `glam::Quat::to_euler` with the intrinsic X,Y,Z convention:
/// the Euler angles of a rotation, in radians.
#[verifier::external_body]
pub fn quat_to_euler(q: glam::Quat) -> (r: glam::Vec3)
    ensures
        r == quat_to_euler_of(q),
{
    let (x, y, z) = q.to_euler(glam::EulerRot::XYZ);
    glam::Vec3::new(x, y, z)
}

/// Relies on the `Mul` impl of `glam::Quat`: quaternion composition.
#[verifier::external_body]
pub fn quat_mul(a: glam::Quat, b: glam::Quat) -> (r: glam::Quat)
    ensures
        r == quat_mul_of(a, b),
{
    a * b
}

/// Relies on `glam::Mat4::from_quat`: the rotation matrix of a quaternion.
#[verifier::external_body]
pub fn quat_to_matrix(q: glam::Quat) -> (r: glam::Mat4)
    ensures
        r == quat_to_matrix_of(q),
{
    glam::Mat4::from_quat(q)
}

/// Relies on `glam::Quat::from_mat4`: the quaternion of a rotation matrix.
#[verifier::external_body]
pub fn quat_from_matrix(m: glam::Mat4) -> (r: glam::Quat)
    ensures
        r == quat_from_matrix_of(m),
{
    glam::Quat::from_mat4(&m)
}

/// Relies on glam's `Mat4::IDENTITY` constant: the identity matrix.
#[verifier::external_body]
pub fn mat_identity() -> (r: glam::Mat4)
    ensures
        r == mat_const_of(1),
{
    glam::Mat4::IDENTITY
}

/// Relies on glam's `Mat4::ZERO` constant: the all-zero matrix.
#[verifier::external_body]
pub fn mat_zero() -> (r: glam::Mat4)
    ensures
        r == mat_const_of(0),
{
    glam::Mat4::ZERO
}

/// Relies on the `Mul` impl of `glam::Mat4`: matrix multiplication.
#[verifier::external_body]
pub fn mat_mul(a: glam::Mat4, b: glam::Mat4) -> (r: glam::Mat4)
    ensures
        r == mat_mul_of(a, b),
{
    a * b
}

/// Relies on `glam::Mat4::inverse`: the matrix inverse.
#[verifier::external_body]
pub fn mat_inverse(m: glam::Mat4) -> (r: glam::Mat4)
    ensures
        r == mat_inverse_of(m),
{
    m.inverse()
}

/// Relies on `glam::Mat4::transpose`: the matrix transpose.
#[verifier::external_body]
pub fn mat_transpose(m: glam::Mat4) -> (r: glam::Mat4)
    ensures
        r == mat_transpose_of(m),
{
    m.transpose()
}

/// Relies on `glam::Mat4::from_translation`: the translation matrix of a
/// vector.
#[verifier::external_body]
pub fn mat_translation(v: glam::Vec3) -> (r: glam::Mat4)
    ensures
        r == mat_translation_of(v),
{
    glam::Mat4::from_translation(v)
}

/// Relies on glam's right-handed `look_at_mat4`: the view matrix built from
/// an eye point, a target point and an up vector.
#[verifier::external_body]
pub fn mat_look_at(eye: glam::Vec3, target: glam::Vec3, up: glam::Vec3) -> (r: glam::Mat4)
    ensures
        r == mat_look_at_of(eye, target, up),
{
    glam::camera::rh::view::look_at_mat4(eye, target, up)
}

} // verus!
