//! Scalar and vector geometry carried as IEEE-754 double-precision bit
//! patterns.
//!
//! The library never computes on floating-point numbers itself: every
//! coordinate, bond order, charge or angle is held as the `u64` bit pattern
//! of a double.  The arithmetic is done by the `glam` crate behind the
//! trusted wrappers below; `bytemuck::cast` reinterprets the bit patterns
//! both ways without changing them.  Each wrapper's result is given a name
//! (an uninterpreted spec function), so contracts can state exactly which
//! operation produced which value, while the numeric value itself stays
//! outside the proofs.  Each name is a function of the operand bit
//! patterns within a build: the basic operations and the square root are
//! IEEE-exact everywhere, while the arc cosine and the quaternion
//! constructors go through the platform's math library.

use vstd::prelude::*;

verus! {

/// A 3-component vector; each component is the bit pattern of a double.
#[derive(Debug, Clone, Copy, PartialEq, Eq, Structural)]
pub struct Vec3 {
    pub x: u64,
    pub y: u64,
    pub z: u64,
}

/// A rotation quaternion; each component is the bit pattern of a double.
#[derive(Debug, Clone, Copy, PartialEq, Eq, Structural)]
pub struct Quat {
    pub x: u64,
    pub y: u64,
    pub z: u64,
    pub w: u64,
}

impl View for Vec3 {
    type V = (u64, u64, u64);

    open spec fn view(&self) -> (u64, u64, u64) {
        (self.x, self.y, self.z)
    }
}

impl View for Quat {
    type V = (u64, u64, u64, u64);

    open spec fn view(&self) -> (u64, u64, u64, u64) {
        (self.x, self.y, self.z, self.w)
    }
}

/// Bit pattern of the double 0.0.
pub const ZERO_BITS: u64 = 0;

/// Bit pattern of the double 1.0.
pub const ONE_BITS: u64 = 0x3FF0_0000_0000_0000;

/// Bit pattern of the double 2.0.
pub const TWO_BITS: u64 = 0x4000_0000_0000_0000;

/// Bit pattern of the double -1.0.
pub const NEG_ONE_BITS: u64 = 0xBFF0_0000_0000_0000;

/// Bit pattern of the closest double to pi.
pub const PI_BITS: u64 = 0x4009_21FB_5444_2D18;

/// Bit pattern of the double 180.0.
pub const DEG_HALF_TURN_BITS: u64 = 0x4066_8000_0000_0000;

/// A double compares equal to 0.0 exactly when its bit pattern is one of
/// the two zeros (all bits clear, or only the sign bit set).
pub open spec fn is_zero_bits(b: u64) -> bool {
    b == 0 || b == 0x8000_0000_0000_0000u64
}

/// A double is a NaN exactly when its exponent bits are all set and its
/// mantissa is non-zero, i.e. when the bit pattern with the sign bit
/// cleared is above the pattern of positive infinity.
pub open spec fn is_nan_bits(b: u64) -> bool {
    (b & 0x7FFF_FFFF_FFFF_FFFFu64) > 0x7FF0_0000_0000_0000u64
}

/// The `Vec3` value holding the given component bit patterns.
pub open spec fn vec3_of(t: (u64, u64, u64)) -> Vec3 {
    Vec3 { x: t.0, y: t.1, z: t.2 }
}

/// The unit vector along +X, as bit patterns.
pub open spec fn vec3_unit_x() -> (u64, u64, u64) {
    (ONE_BITS, ZERO_BITS, ZERO_BITS)
}

/// The unit vector along +Y, as bit patterns.
pub open spec fn vec3_unit_y() -> (u64, u64, u64) {
    (ZERO_BITS, ONE_BITS, ZERO_BITS)
}

/// Exec test for `is_zero_bits`.
pub fn bits_are_zero(b: u64) -> (r: bool)
    ensures
        r == is_zero_bits(b),
{
    b == 0 || b == 0x8000_0000_0000_0000u64
}

/// Exec test for `is_nan_bits`.
pub fn bits_are_nan(b: u64) -> (r: bool)
    ensures
        r == is_nan_bits(b),
{
    (b & 0x7FFF_FFFF_FFFF_FFFFu64) > 0x7FF0_0000_0000_0000u64
}

pub uninterp spec fn add_v(a: (u64, u64, u64), b: (u64, u64, u64)) -> (u64, u64, u64);

pub uninterp spec fn sub_v(a: (u64, u64, u64), b: (u64, u64, u64)) -> (u64, u64, u64);

pub uninterp spec fn scale_v(v: (u64, u64, u64), s: u64) -> (u64, u64, u64);

pub uninterp spec fn dot_s(a: (u64, u64, u64), b: (u64, u64, u64)) -> u64;

pub uninterp spec fn cross_v(a: (u64, u64, u64), b: (u64, u64, u64)) -> (u64, u64, u64);

pub uninterp spec fn len_s(v: (u64, u64, u64)) -> u64;

pub uninterp spec fn norm_v(v: (u64, u64, u64)) -> (u64, u64, u64);

pub uninterp spec fn mul_s(a: u64, b: u64) -> u64;

pub uninterp spec fn div_s(a: u64, b: u64) -> u64;

pub uninterp spec fn acos_s(a: u64) -> u64;

pub uninterp spec fn quat_of(axis: (u64, u64, u64), angle: u64) -> (u64, u64, u64, u64);

pub uninterp spec fn rotate_v(q: (u64, u64, u64, u64), v: (u64, u64, u64)) -> (u64, u64, u64);

pub uninterp spec fn quat_scaled(v: (u64, u64, u64)) -> (u64, u64, u64, u64);

/// Relies on glam's `DVec3` addition: componentwise double addition,
/// a function of the operands' bit patterns alone.
#[verifier::external_body]
pub fn v_add(a: Vec3, b: Vec3) -> (r: Vec3)
    ensures
        r@ == add_v(a@, b@),
{
    let x: glam::DVec3 = bytemuck::cast([a.x, a.y, a.z]);
    let y: glam::DVec3 = bytemuck::cast([b.x, b.y, b.z]);
    let o: [u64; 3] = bytemuck::cast(x + y);
    Vec3 { x: o[0], y: o[1], z: o[2] }
}

/// Relies on glam's `DVec3` subtraction: componentwise double subtraction,
/// a function of the operands' bit patterns alone.
#[verifier::external_body]
pub fn v_sub(a: Vec3, b: Vec3) -> (r: Vec3)
    ensures
        r@ == sub_v(a@, b@),
{
    let x: glam::DVec3 = bytemuck::cast([a.x, a.y, a.z]);
    let y: glam::DVec3 = bytemuck::cast([b.x, b.y, b.z]);
    let o: [u64; 3] = bytemuck::cast(x - y);
    Vec3 { x: o[0], y: o[1], z: o[2] }
}

/// Relies on glam's scalar multiplication for `DVec3`: each component is
/// multiplied by the scalar, a function of the bit patterns alone.
#[verifier::external_body]
pub fn v_scale(v: Vec3, s: u64) -> (r: Vec3)
    ensures
        r@ == scale_v(v@, s),
{
    let x: glam::DVec3 = bytemuck::cast([v.x, v.y, v.z]);
    let sv: glam::DVec3 = bytemuck::cast([s, s, s]);
    let o: [u64; 3] = bytemuck::cast(x * sv.x);
    Vec3 { x: o[0], y: o[1], z: o[2] }
}

/// Relies on glam's `DVec3::dot`: the double dot product of the operands,
/// a function of their bit patterns alone.
#[verifier::external_body]
pub fn v_dot(a: Vec3, b: Vec3) -> (r: u64)
    ensures
        r == dot_s(a@, b@),
{
    let x: glam::DVec3 = bytemuck::cast([a.x, a.y, a.z]);
    let y: glam::DVec3 = bytemuck::cast([b.x, b.y, b.z]);
    let o: [u64; 3] = bytemuck::cast(glam::DVec3::splat(x.dot(y)));
    o[0]
}

/// Relies on glam's `DVec3::cross`: the double cross product of the
/// operands, a function of their bit patterns alone.
#[verifier::external_body]
pub fn v_cross(a: Vec3, b: Vec3) -> (r: Vec3)
    ensures
        r@ == cross_v(a@, b@),
{
    let x: glam::DVec3 = bytemuck::cast([a.x, a.y, a.z]);
    let y: glam::DVec3 = bytemuck::cast([b.x, b.y, b.z]);
    let o: [u64; 3] = bytemuck::cast(x.cross(y));
    Vec3 { x: o[0], y: o[1], z: o[2] }
}

/// Relies on glam's `DVec3::length`: the Euclidean norm, a function of the
/// operand's bit patterns alone.
#[verifier::external_body]
pub fn v_len(v: Vec3) -> (r: u64)
    ensures
        r == len_s(v@),
{
    let x: glam::DVec3 = bytemuck::cast([v.x, v.y, v.z]);
    let o: [u64; 3] = bytemuck::cast(glam::DVec3::splat(x.length()));
    o[0]
}

/// Relies on glam's `DVec3::normalize`: the operand scaled to unit
/// length (glam multiplies by the reciprocal of the length), a function
/// of the operand's bit patterns alone.
#[verifier::external_body]
pub fn v_norm(v: Vec3) -> (r: Vec3)
    ensures
        r@ == norm_v(v@),
{
    let x: glam::DVec3 = bytemuck::cast([v.x, v.y, v.z]);
    let o: [u64; 3] = bytemuck::cast(x.normalize());
    Vec3 { x: o[0], y: o[1], z: o[2] }
}

/// Relies on glam's scalar multiplication (via the x component of a
/// `DVec3` product): the double product of the operands.
#[verifier::external_body]
pub fn s_mul(a: u64, b: u64) -> (r: u64)
    ensures
        r == mul_s(a, b),
{
    let x: glam::DVec3 = bytemuck::cast([a, a, a]);
    let y: glam::DVec3 = bytemuck::cast([b, b, b]);
    let o: [u64; 3] = bytemuck::cast(x * y);
    o[0]
}

/// Relies on glam's division for `DVec3` (componentwise): the double
/// quotient of the operands.
#[verifier::external_body]
pub fn s_div(a: u64, b: u64) -> (r: u64)
    ensures
        r == div_s(a, b),
{
    let x: glam::DVec3 = bytemuck::cast([a, a, a]);
    let y: glam::DVec3 = bytemuck::cast([b, b, b]);
    let o: [u64; 3] = bytemuck::cast(x / y);
    o[0]
}

/// Relies on the standard library's arc cosine for doubles, applied to the
/// x component of a reinterpreted `DVec3`.
#[verifier::external_body]
pub fn s_acos(a: u64) -> (r: u64)
    ensures
        r == acos_s(a),
{
    let x: glam::DVec3 = bytemuck::cast([a, a, a]);
    let o: [u64; 3] = bytemuck::cast(glam::DVec3::splat(x.x.acos()));
    o[0]
}

/// The raw angle between `b` and `a`: the arc cosine of their dot product
/// divided by the product of their lengths, before the NaN fallback.
pub open spec fn raw_angle(a: (u64, u64, u64), b: (u64, u64, u64)) -> u64 {
    acos_s(div_s(dot_s(b, a), mul_s(len_s(a), len_s(b))))
}

/// The axis chosen to rotate `b` onto `a`: the normalized cross product,
/// falling back to a fixed axis when the cross product is zero (parallel,
/// antiparallel or zero-length input); +Y when `a` itself lies on the X
/// axis (or is zero), +X otherwise.
pub open spec fn chosen_axis(a: (u64, u64, u64), b: (u64, u64, u64)) -> (u64, u64, u64) {
    if !is_zero_bits(len_s(cross_v(b, a))) {
        norm_v(cross_v(b, a))
    } else if is_zero_bits(len_s(cross_v(a, vec3_unit_x()))) {
        vec3_unit_y()
    } else {
        vec3_unit_x()
    }
}

/// The angle chosen to rotate `b` onto `a`: the raw angle, or zero when
/// the raw computation yields NaN (zero-length input).
pub open spec fn chosen_angle(a: (u64, u64, u64), b: (u64, u64, u64)) -> u64 {
    if is_nan_bits(raw_angle(a, b)) {
        ZERO_BITS
    } else {
        raw_angle(a, b)
    }
}

/// The minimal axis-angle rotation taking direction `b` onto direction
/// `a`.  The fallback axis for degenerate inputs and the NaN-to-zero angle
/// clamp are deliberate, load-bearing policy: pipelines rely on the
/// default orientation when a reference vector is undefined.  The returned
/// angle is never a NaN.
pub fn axis_angle_for_b2a(a: Vec3, b: Vec3) -> (r: (Vec3, u64))
    ensures
        r.0@ == chosen_axis(a@, b@),
        r.1 == chosen_angle(a@, b@),
        !is_nan_bits(r.1),
{
    let cross = v_cross(b, a);
    let axis: Vec3 = if !bits_are_zero(v_len(cross)) {
        v_norm(cross)
    } else {
        let x_axis = Vec3 { x: ONE_BITS, y: ZERO_BITS, z: ZERO_BITS };
        if bits_are_zero(v_len(v_cross(a, x_axis))) {
            Vec3 { x: ZERO_BITS, y: ONE_BITS, z: ZERO_BITS }
        } else {
            x_axis
        }
    };
    let angle = s_acos(s_div(v_dot(b, a), s_mul(v_len(a), v_len(b))));
    let angle = if bits_are_nan(angle) {
        ZERO_BITS
    } else {
        angle
    };
    assert((0u64 & 0x7FFF_FFFF_FFFF_FFFFu64) == 0u64) by (bit_vector);
    (axis, angle)
}

/// An angle in degrees converted to radians: multiplied by pi first,
/// then divided by 180 - two rounding steps, in that order.
pub open spec fn deg_to_rad(a: u64) -> u64 {
    div_s(mul_s(a, PI_BITS), DEG_HALF_TURN_BITS)
}

/// Exec counterpart of `deg_to_rad`.
pub fn degrees_to_radians(a: u64) -> (r: u64)
    ensures
        r == deg_to_rad(a),
{
    s_div(s_mul(a, PI_BITS), DEG_HALF_TURN_BITS)
}

/// Relies on glam's `DQuat::from_axis_angle`: the rotation quaternion for
/// a unit axis and an angle in radians. The axis handed in must be of unit
/// length; the callers in this crate normalize it first.
#[verifier::external_body]
pub fn q_from_axis_angle(axis: Vec3, angle: u64) -> (r: Quat)
    ensures
        r@ == quat_of(axis@, angle),
{
    let x: glam::DVec3 = bytemuck::cast([axis.x, axis.y, axis.z]);
    let sv: glam::DVec3 = bytemuck::cast([angle, angle, angle]);
    let o: [u64; 4] = bytemuck::cast(glam::DQuat::from_axis_angle(x, sv.x));
    Quat { x: o[0], y: o[1], z: o[2], w: o[3] }
}

/// Relies on glam's `DQuat::from_scaled_axis`: the rotation by the
/// vector's length about its direction; the zero vector gives the
/// identity rotation.
#[verifier::external_body]
pub fn q_from_scaled_axis(v: Vec3) -> (r: Quat)
    ensures
        r@ == quat_scaled(v@),
{
    let x: glam::DVec3 = bytemuck::cast([v.x, v.y, v.z]);
    let o: [u64; 4] = bytemuck::cast(glam::DQuat::from_scaled_axis(x));
    Quat { x: o[0], y: o[1], z: o[2], w: o[3] }
}

/// Relies on glam's quaternion-vector multiplication: the operand rotated
/// by the quaternion, a function of the bit patterns alone.
#[verifier::external_body]
pub fn q_rotate(q: Quat, v: Vec3) -> (r: Vec3)
    ensures
        r@ == rotate_v(q@, v@),
{
    let qq: glam::DQuat = bytemuck::cast([q.x, q.y, q.z, q.w]);
    let x: glam::DVec3 = bytemuck::cast([v.x, v.y, v.z]);
    let o: [u64; 3] = bytemuck::cast(qq * x);
    Vec3 { x: o[0], y: o[1], z: o[2] }
}

} // verus!
