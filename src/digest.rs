//! Content digests of encoded vectors and instances, for telling whether two
//! runs or two implementations worked on the same input.
use vstd::prelude::*;
use crate::group::G1Point;
use crate::scalar::Scalar;
use crate::msm::Error;
use crate::codec::{
    point_vec_bytes, scalar_vec_bytes, le_bytes, encode_points, encode_scalars, write_u64_le,
};

verus! {

/// The BLAKE3 digest of a byte string.
pub uninterp spec fn blake3_digest(b: Seq<u8>) -> [u8; 32];

/// Relies on `blake3::hash`: the 32-byte BLAKE3 digest of the input, which
/// depends on the input bytes alone.
#[verifier::external_body]
fn blake3_hash(b: &[u8]) -> (r: [u8; 32])
    ensures
        r == blake3_digest(b@),
{
    *blake3::hash(b).as_bytes()
}

/// The instances, encoded one after another: their number, then for each its
/// point vector and its scalar vector.
pub open spec fn instances_bytes(ps: Seq<Seq<G1Point>>, ss: Seq<Seq<Scalar>>) -> Seq<u8> {
    le_bytes(ps.len(), 8) + instances_concat(ps, ss)
}

/// The instances' encodings, one after another.
pub open spec fn instances_concat(ps: Seq<Seq<G1Point>>, ss: Seq<Seq<Scalar>>) -> Seq<u8>
    decreases ps.len(),
{
    if ps.len() == 0 || ss.len() == 0 {
        Seq::empty()
    } else {
        instances_concat(ps.drop_last(), ss.drop_last()) + point_vec_bytes(ps.last())
            + scalar_vec_bytes(ss.last())
    }
}

/// The digest of a canonical byte buffer.
pub fn hash(bytes: &[u8]) -> (r: [u8; 32])
    ensures
        r == blake3_digest(bytes@),
{
    blake3_hash(bytes)
}

/// The digest of the encoding of a point vector.
pub fn hash_points(points: &[G1Point]) -> (r: [u8; 32])
    ensures
        r == blake3_digest(point_vec_bytes(points@)),
{
    let bytes = encode_points(points);
    blake3_hash(bytes.as_slice())
}

/// The digest of the encoding of a scalar vector.
pub fn hash_scalars(scalars: &[Scalar]) -> (r: [u8; 32])
    ensures
        r == blake3_digest(scalar_vec_bytes(scalars@)),
{
    let bytes = encode_scalars(scalars);
    blake3_hash(bytes.as_slice())
}

/// The digest of the encoding of a sequence of instances.
pub fn hash_instances(points: &[Vec<G1Point>], scalars: &[Vec<Scalar>]) -> (r: Result<[u8; 32], Error>)
    ensures
        points@.len() != scalars@.len() ==> r == Err::<[u8; 32], Error>(Error::InvalidInput),
        points@.len() == scalars@.len() ==> r == Ok::<[u8; 32], Error>(blake3_digest(instances_bytes(
            Seq::new(points@.len(), |i: int| points@[i]@), Seq::new(scalars@.len(), |i: int| scalars@[i]@)))),
{
    if points.len() != scalars.len() {
        return Err(Error::InvalidInput);
    }
    let ghost ps = Seq::new(points@.len(), |i: int| points@[i]@);
    let ghost ss = Seq::new(scalars@.len(), |i: int| scalars@[i]@);
    let mut out: Vec<u8> = Vec::new();
    write_u64_le(points.len() as u64, &mut out);
    let mut i: usize = 0;
    proof {
        assert(ps.subrange(0, 0).len() == 0);
        assert(out@ =~= le_bytes(ps.len(), 8) + instances_concat(ps.subrange(0, 0), ss.subrange(0, 0)));
    }
    while i < points.len()
        invariant
            i <= points@.len(),
            points@.len() == scalars@.len(),
            ps == Seq::new(points@.len(), |i: int| points@[i]@),
            ss == Seq::new(scalars@.len(), |i: int| scalars@[i]@),
            out@ == le_bytes(ps.len(), 8) + instances_concat(ps.subrange(0, i as int), ss.subrange(0, i as int)),
        decreases points@.len() - i,
    {
        let mut p = encode_points(points[i].as_slice());
        let mut s = encode_scalars(scalars[i].as_slice());
        out.append(&mut p);
        out.append(&mut s);
        proof {
            assert(ps.subrange(0, i + 1).drop_last() =~= ps.subrange(0, i as int));
            assert(ss.subrange(0, i + 1).drop_last() =~= ss.subrange(0, i as int));
            assert(out@ =~= le_bytes(ps.len(), 8) + instances_concat(ps.subrange(0, i + 1), ss.subrange(0, i + 1)));
        }
        i = i + 1;
    }
    proof {
        assert(ps.subrange(0, ps.len() as int) =~= ps);
        assert(ss.subrange(0, ss.len() as int) =~= ss);
    }
    Ok(blake3_hash(out.as_slice()))
}

} // verus!
