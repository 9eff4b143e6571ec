//! The group G1 of BLS12-381, as supplied by arkworks, and its arithmetic model.
//!
//! G1 is a cyclic group of prime order r generated by a fixed point G. Every
//! point P of it is k·G for exactly one k in [0, r): its discrete logarithm.
//! The contracts of this crate speak of points through that logarithm, so that
//! point addition is addition of logarithms modulo r, doubling is doubling
//! modulo r, and the identity has logarithm 0. Nothing ever computes a
//! logarithm; it only names what the arithmetic does.
use vstd::prelude::*;
use ark_bls12_381::{G1Affine, G1Projective};
use ark_ec::{AffineRepr, CurveGroup, Group, VariableBaseMSM};
use ark_ff::Zero;
use ark_serialize::{CanonicalDeserialize, CanonicalSerialize};
use vstd::arithmetic::power2::pow2;
use crate::model::msm_spec;
use crate::scalar::Scalar;

verus! {

/// 2^64, the radix of the 64-bit limbs below.
pub open spec fn limb_radix() -> int {
    0x1_0000_0000_0000_0000
}

/// The prime order r of G1,
/// 52435875175126190479447740508185965837690552500527637822603658699938581184513,
/// written from its 64-bit limbs, most significant first.
pub open spec fn group_order() -> int {
    ((0x73eda753299d7d48 * limb_radix() + 0x3339d80809a1d805) * limb_radix()
        + 0x53bda402fffe5bfe) * limb_radix() + 0xffffffff00000001
}

/// A point of G1 in affine form: the canonical form, used for storage,
/// hashing and equality. Only points of the prime-order subgroup are ever
/// held: they come from the group operations below or from validated decoding.
/// arkworks' point types are generic over a curve-configuration trait that
/// cannot be declared to the verifier, so the point sits in a private field of
/// an opaque struct, reached only through the functions below.
#[verifier::external_body]
#[derive(Copy, Debug, PartialEq, Eq)]
pub struct G1Point {
    inner: G1Affine,
}

/// A point of G1 in projective form: the accumulator form, cheap to add to.
#[verifier::external_body]
#[derive(Copy, Debug)]
pub struct G1Acc {
    inner: G1Projective,
}

/// The discrete logarithm of an affine point to the base G.
pub uninterp spec fn point_log(p: G1Point) -> int;

/// The discrete logarithm of a projective point to the base G.
pub uninterp spec fn acc_log(p: G1Acc) -> int;

/// Relies on ark_ec's `Zero::zero` for `Projective`: the point at infinity,
/// which is the identity of the group.
#[verifier::external_body]
fn acc_identity() -> (r: G1Acc)
    ensures
        acc_log(r) == 0,
{
    G1Acc { inner: G1Projective::zero() }
}

/// Relies on ark_ec's `Group::generator` for `Projective`: the fixed
/// generator G of G1.
#[verifier::external_body]
fn acc_generator() -> (r: G1Acc)
    ensures
        acc_log(r) == 1,
{
    G1Acc { inner: G1Projective::generator() }
}

/// Relies on ark_ec's `Add<&Projective>` for `Projective`: the group law.
#[verifier::external_body]
fn acc_add(a: &G1Acc, b: &G1Acc) -> (r: G1Acc)
    ensures
        acc_log(r) == (acc_log(*a) + acc_log(*b)) % group_order(),
{
    G1Acc { inner: a.inner + &b.inner }
}

/// Relies on ark_ec's `Add<&Affine>` for `Projective` (mixed addition): the
/// group law with an affine operand.
#[verifier::external_body]
fn acc_add_point(a: &G1Acc, b: &G1Point) -> (r: G1Acc)
    ensures
        acc_log(r) == (acc_log(*a) + point_log(*b)) % group_order(),
{
    G1Acc { inner: a.inner + &b.inner }
}

/// Relies on ark_ec's `Group::double` for `Projective`: P + P.
#[verifier::external_body]
fn acc_double(a: &G1Acc) -> (r: G1Acc)
    ensures
        acc_log(r) == (2 * acc_log(*a)) % group_order(),
{
    G1Acc { inner: a.inner.double() }
}

/// Relies on ark_ec's `AffineRepr::into_group`: the same point in projective
/// form.
#[verifier::external_body]
fn point_to_acc(p: &G1Point) -> (r: G1Acc)
    ensures
        acc_log(r) == point_log(*p),
{
    G1Acc { inner: p.inner.into_group() }
}

/// Relies on ark_ec's `CurveGroup::into_affine`: the same point in affine
/// form (one field inversion).
#[verifier::external_body]
fn acc_to_point(a: &G1Acc) -> (r: G1Point)
    ensures
        point_log(r) == acc_log(*a),
{
    G1Point { inner: a.inner.into_affine() }
}

/// Relies on ark_ec's `CurveGroup::normalize_batch`: the same points in
/// affine form, in the same order, computed with one shared field inversion
/// for the whole batch (Montgomery's trick).
#[verifier::external_body]
pub(crate) fn normalize_batch(v: &Vec<G1Acc>) -> (r: Vec<G1Point>)
    ensures
        r@.len() == v@.len(),
        forall|i: int| 0 <= i < v@.len() ==> point_log(#[trigger] r@[i]) == acc_log(v@[i]),
{
    let inner: Vec<G1Projective> = v.iter().map(|a| a.inner).collect();
    G1Projective::normalize_batch(&inner).into_iter().map(|p| G1Point { inner: p }).collect()
}

/// Relies on ark_ec's `VariableBaseMSM::msm_bigint` for `Projective`
/// (windowed non-adjacent form over the 255 bits of the scalar field's
/// modulus): Σ sᵢ·Pᵢ, for equally many points and scalars, each scalar below
/// 2^255.
#[verifier::external_body]
pub(crate) fn ark_msm(points: &[G1Point], scalars: &[Scalar]) -> (r: G1Acc)
    requires
        points@.len() == scalars@.len(),
        forall|i: int| 0 <= i < scalars@.len() ==> #[trigger] scalars@[i].value() < pow2(255),
    ensures
        acc_log(r) == msm_spec(points@, scalars@) % group_order(),
{
    let bases: Vec<G1Affine> = points.iter().map(|p| p.inner).collect();
    let bigints: Vec<ark_ff::BigInt<4>> = scalars.iter().map(|s| ark_ff::BigInt::new(s.limbs)).collect();
    G1Acc { inner: G1Projective::msm_bigint(&bases, &bigints) }
}

/// The 48-byte compressed encoding of a point: its x coordinate with the
/// flags for infinity and for the sign of y.
pub uninterp spec fn point_bytes(p: G1Point) -> [u8; 48];

/// Relies on ark_serialize's `CanonicalSerialize::serialize_compressed` for
/// ark-bls12-381's `G1Affine`, which writes exactly 48 bytes (the flagged x
/// coordinate), so the write into a 48-byte buffer always succeeds.
#[verifier::external_body]
pub(crate) fn encode_point(p: &G1Point) -> (r: Option<[u8; 48]>)
    ensures
        r == Some(point_bytes(*p)),
{
    let mut out = [0u8; 48];
    p.inner.serialize_compressed(&mut out[..]).ok().map(|_| out)
}

/// Relies on ark_serialize's `CanonicalDeserialize::deserialize_compressed`
/// for ark-bls12-381's `G1Affine`: it inverts `serialize_compressed` on every
/// point of the subgroup, and otherwise fails or returns a point of the
/// subgroup (it checks the flags, that x is a coordinate of a curve point, and
/// subgroup membership).
#[verifier::external_body]
pub(crate) fn decode_point(b: &[u8; 48]) -> (r: Option<G1Point>)
    ensures
        forall|p: G1Point| #[trigger] point_bytes(p)@ == b@ ==> r == Some(p),
{
    G1Affine::deserialize_compressed(&b[..]).ok().map(|a| G1Point { inner: a })
}

impl Clone for G1Point {
    /// Relies on `Copy` for ark_ec's `Affine`: a bitwise copy.
    #[verifier::external_body]
    fn clone(&self) -> (r: G1Point)
        ensures
            r == *self,
    {
        *self
    }
}

impl Clone for G1Acc {
    /// Relies on `Copy` for ark_ec's `Projective`: a bitwise copy.
    #[verifier::external_body]
    fn clone(&self) -> (r: G1Acc)
        ensures
            r == *self,
    {
        *self
    }
}

impl G1Acc {
    /// The identity of the group.
    pub fn identity() -> (r: G1Acc)
        ensures
            acc_log(r) == 0,
    {
        acc_identity()
    }

    /// The generator G of the group.
    pub fn generator() -> (r: G1Acc)
        ensures
            acc_log(r) == 1,
    {
        acc_generator()
    }

    /// The sum of two points.
    pub fn add(&self, o: &G1Acc) -> (r: G1Acc)
        ensures
            acc_log(r) == (acc_log(*self) + acc_log(*o)) % group_order(),
    {
        acc_add(self, o)
    }

    /// The sum of this point and an affine point.
    pub fn add_point(&self, o: &G1Point) -> (r: G1Acc)
        ensures
            acc_log(r) == (acc_log(*self) + point_log(*o)) % group_order(),
    {
        acc_add_point(self, o)
    }

    /// Twice this point.
    pub fn double(&self) -> (r: G1Acc)
        ensures
            acc_log(r) == (2 * acc_log(*self)) % group_order(),
    {
        acc_double(self)
    }

    /// This point in affine form.
    pub fn to_affine(&self) -> (r: G1Point)
        ensures
            point_log(r) == acc_log(*self),
    {
        acc_to_point(self)
    }
}

impl G1Point {
    /// This point in projective form.
    pub fn to_projective(&self) -> (r: G1Acc)
        ensures
            acc_log(r) == point_log(*self),
    {
        point_to_acc(self)
    }
}

} // verus!
