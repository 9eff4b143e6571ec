//! The canonical byte encoding of point and scalar vectors, record streams of
//! such vectors, and content digests.
//!
//! A vector is encoded as its length (8 bytes, little-endian) followed by its
//! elements: 48 bytes per point (compressed), 32 bytes per scalar (its four
//! limbs, each little-endian). A record stream is a plain concatenation of
//! encoded vectors.
use vstd::prelude::*;
use crate::group::{G1Point, point_bytes, encode_point, decode_point};
use crate::scalar::Scalar;
use crate::msm::Error;

verus! {

broadcast use vstd::array::group_array_axioms;

/// 256^n.
pub open spec fn byte_radix(n: nat) -> nat
    decreases n,
{
    if n == 0 { 1 } else { 256 * byte_radix((n - 1) as nat) }
}

/// The `n` low bytes of x, least significant first.
pub open spec fn le_bytes(x: nat, n: nat) -> Seq<u8>
    decreases n,
{
    if n == 0 {
        Seq::empty()
    } else {
        seq![(x % 256) as u8] + le_bytes(x / 256, (n - 1) as nat)
    }
}

/// The value of little-endian bytes.
pub open spec fn le_value(b: Seq<u8>) -> nat
    decreases b.len(),
{
    if b.len() == 0 { 0 } else { b[0] as nat + 256 * le_value(b.drop_first()) }
}

/// The 32 bytes of a scalar: its limbs, least significant first, each
/// little-endian.
pub open spec fn scalar_bytes(s: Scalar) -> Seq<u8> {
    le_bytes(s.limbs[0] as nat, 8) + le_bytes(s.limbs[1] as nat, 8) + le_bytes(s.limbs[2] as nat, 8)
        + le_bytes(s.limbs[3] as nat, 8)
}

/// The elements of a scalar vector, encoded one after another.
pub open spec fn scalars_concat(v: Seq<Scalar>) -> Seq<u8>
    decreases v.len(),
{
    if v.len() == 0 { Seq::empty() } else { scalars_concat(v.drop_last()) + scalar_bytes(v.last()) }
}

/// The elements of a point vector, encoded one after another.
pub open spec fn points_concat(v: Seq<G1Point>) -> Seq<u8>
    decreases v.len(),
{
    if v.len() == 0 { Seq::empty() } else { points_concat(v.drop_last()) + point_bytes(v.last())@ }
}

/// The encoding of a scalar vector.
pub open spec fn scalar_vec_bytes(v: Seq<Scalar>) -> Seq<u8> {
    le_bytes(v.len(), 8) + scalars_concat(v)
}

/// The encoding of a point vector.
pub open spec fn point_vec_bytes(v: Seq<G1Point>) -> Seq<u8> {
    le_bytes(v.len(), 8) + points_concat(v)
}

/// Whether `enc` stands in `bytes` from offset `at` on.
pub open spec fn stands_at(bytes: Seq<u8>, at: int, enc: Seq<u8>) -> bool {
    0 <= at && at + enc.len() <= bytes.len() && bytes.subrange(at, at + enc.len()) == enc
}

pub(crate) proof fn lemma_le_bytes_len(x: nat, n: nat)
    ensures
        le_bytes(x, n).len() == n,
    decreases n,
{
    if n > 0 {
        lemma_le_bytes_len(x / 256, (n - 1) as nat);
    }
}

proof fn lemma_le_value_bound(b: Seq<u8>)
    ensures
        le_value(b) < byte_radix(b.len()),
    decreases b.len(),
{
    if b.len() > 0 {
        lemma_le_value_bound(b.drop_first());
        let v = le_value(b.drop_first());
        let p = byte_radix((b.len() - 1) as nat);
        assert(b[0] as nat + 256 * v < 256 * p) by (nonlinear_arith)
            requires v < p, b[0] < 256;
    }
}

/// Reading back the bytes of a value that fits gives the value.
proof fn lemma_le_round_trip(x: nat, n: nat)
    requires
        x < byte_radix(n),
    ensures
        le_value(le_bytes(x, n)) == x,
    decreases n,
{
    if n > 0 {
        let p = byte_radix((n - 1) as nat);
        assert(x / 256 < p) by (nonlinear_arith)
            requires x < 256 * p;
        lemma_le_round_trip(x / 256, (n - 1) as nat);
        assert((seq![(x % 256) as u8] + le_bytes(x / 256, (n - 1) as nat)).drop_first()
            =~= le_bytes(x / 256, (n - 1) as nat));
    } else {
        assert(x == 0);
    }
}

/// Bytes are the bytes of their own value.
proof fn lemma_le_value_bytes(b: Seq<u8>)
    ensures
        le_bytes(le_value(b), b.len()) == b,
    decreases b.len(),
{
    if b.len() > 0 {
        lemma_le_value_bytes(b.drop_first());
        let x = le_value(b);
        let r = le_value(b.drop_first());
        let b0 = b[0] as nat;
        assert(x % 256 == b0 && x / 256 == r) by (nonlinear_arith)
            requires x == b0 + 256 * r, b0 < 256;
        assert(b =~= seq![b[0]] + b.drop_first());
        assert(seq![(x % 256) as u8] =~= seq![b[0]]);
    } else {
        assert(b =~= Seq::<u8>::empty());
    }
}

proof fn lemma_radix_8()
    ensures
        byte_radix(8) == 0x1_0000_0000_0000_0000,
{
    reveal_with_fuel(byte_radix, 9);
}

proof fn lemma_scalar_bytes_len(s: Scalar)
    ensures
        scalar_bytes(s).len() == 32,
{
    lemma_le_bytes_len(s.limbs[0] as nat, 8);
    lemma_le_bytes_len(s.limbs[1] as nat, 8);
    lemma_le_bytes_len(s.limbs[2] as nat, 8);
    lemma_le_bytes_len(s.limbs[3] as nat, 8);
}

pub(crate) proof fn lemma_scalars_concat_len(v: Seq<Scalar>)
    ensures
        scalars_concat(v).len() == 32 * v.len(),
    decreases v.len(),
{
    if v.len() > 0 {
        lemma_scalars_concat_len(v.drop_last());
        lemma_scalar_bytes_len(v.last());
    }
}

pub(crate) proof fn lemma_points_concat_len(v: Seq<G1Point>)
    ensures
        points_concat(v).len() == 48 * v.len(),
    decreases v.len(),
{
    if v.len() > 0 {
        lemma_points_concat_len(v.drop_last());
    }
}

/// The encoding of a concatenation is the concatenation of the encodings.
proof fn lemma_scalars_concat_append(a: Seq<Scalar>, b: Seq<Scalar>)
    ensures
        scalars_concat(a + b) == scalars_concat(a) + scalars_concat(b),
    decreases b.len(),
{
    if b.len() == 0 {
        assert(a + b =~= a);
        assert(scalars_concat(a) + Seq::<u8>::empty() =~= scalars_concat(a));
    } else {
        assert((a + b).drop_last() =~= a + b.drop_last());
        lemma_scalars_concat_append(a, b.drop_last());
        assert(scalars_concat(a) + scalars_concat(b.drop_last()) + scalar_bytes(b.last())
            =~= scalars_concat(a) + (scalars_concat(b.drop_last()) + scalar_bytes(b.last())));
    }
}

proof fn lemma_points_concat_append(a: Seq<G1Point>, b: Seq<G1Point>)
    ensures
        points_concat(a + b) == points_concat(a) + points_concat(b),
    decreases b.len(),
{
    if b.len() == 0 {
        assert(a + b =~= a);
        assert(points_concat(a) + Seq::<u8>::empty() =~= points_concat(a));
    } else {
        assert((a + b).drop_last() =~= a + b.drop_last());
        lemma_points_concat_append(a, b.drop_last());
        assert(points_concat(a) + points_concat(b.drop_last()) + point_bytes(b.last())@
            =~= points_concat(a) + (points_concat(b.drop_last()) + point_bytes(b.last())@));
    }
}

/// Element i of a vector is encoded at 32·i in the concatenation.
proof fn lemma_scalar_at(v: Seq<Scalar>, i: int)
    requires
        0 <= i < v.len(),
    ensures
        scalars_concat(v).subrange(32 * i, 32 * i + 32) == scalar_bytes(v[i]),
{
    let a = v.subrange(0, i);
    let b = v.subrange(i, v.len() as int);
    assert(v =~= a + b);
    lemma_scalars_concat_append(a, b);
    let b1 = seq![v[i]];
    let b2 = v.subrange(i + 1, v.len() as int);
    assert(b =~= b1 + b2);
    lemma_scalars_concat_append(b1, b2);
    assert(b1.drop_last() =~= Seq::<Scalar>::empty());
    assert(scalars_concat(b1) == scalars_concat(b1.drop_last()) + scalar_bytes(b1.last()));
    assert(scalars_concat(Seq::<Scalar>::empty()) == Seq::<u8>::empty());
    assert(scalars_concat(b1) =~= scalar_bytes(v[i]));
    lemma_scalars_concat_len(a);
    lemma_scalar_bytes_len(v[i]);
    assert(scalars_concat(v).subrange(32 * i, 32 * i + 32) =~= scalar_bytes(v[i]));
}

/// Element i of a vector is encoded at 48·i in the concatenation.
proof fn lemma_point_at(v: Seq<G1Point>, i: int)
    requires
        0 <= i < v.len(),
    ensures
        points_concat(v).subrange(48 * i, 48 * i + 48) == point_bytes(v[i])@,
{
    let a = v.subrange(0, i);
    let b = v.subrange(i, v.len() as int);
    assert(v =~= a + b);
    lemma_points_concat_append(a, b);
    let b1 = seq![v[i]];
    let b2 = v.subrange(i + 1, v.len() as int);
    assert(b =~= b1 + b2);
    lemma_points_concat_append(b1, b2);
    assert(b1.drop_last() =~= Seq::<G1Point>::empty());
    assert(points_concat(b1) == points_concat(b1.drop_last()) + point_bytes(b1.last())@);
    assert(points_concat(Seq::<G1Point>::empty()) == Seq::<u8>::empty());
    assert(points_concat(b1) =~= point_bytes(v[i])@);
    lemma_points_concat_len(a);
    assert(points_concat(v).subrange(48 * i, 48 * i + 48) =~= point_bytes(v[i])@);
}

/// Appends the 8 little-endian bytes of x.
pub(crate) fn write_u64_le(x: u64, out: &mut Vec<u8>)
    ensures
        final(out)@ == old(out)@ + le_bytes(x as nat, 8),
{
    let mut y: u64 = x;
    let mut i: usize = 0;
    while i < 8
        invariant
            i <= 8,
            out@ + le_bytes(y as nat, (8 - i) as nat) == old(out)@ + le_bytes(x as nat, 8),
        decreases 8 - i,
    {
        proof {
            assert(le_bytes(y as nat, (8 - i) as nat)
                == seq![(y % 256) as u8] + le_bytes((y / 256) as nat, (8 - i - 1) as nat));
            assert(out@.push((y % 256) as u8) + le_bytes((y / 256) as nat, (8 - i - 1) as nat)
                =~= out@ + (seq![(y % 256) as u8] + le_bytes((y / 256) as nat, (8 - i - 1) as nat)));
        }
        out.push((y % 256) as u8);
        y = y / 256;
        i = i + 1;
    }
    proof {
        assert(out@ + le_bytes(y as nat, 0) =~= out@);
    }
}

/// The value of the 8 little-endian bytes at `at`.
pub(crate) fn read_u64_le(bytes: &[u8], at: usize) -> (r: u64)
    requires
        at + 8 <= bytes@.len(),
    ensures
        r == le_value(bytes@.subrange(at as int, at + 8)),
        le_bytes(r as nat, 8) == bytes@.subrange(at as int, at + 8),
{
    let len = bytes.len();
    let mut v: u64 = 0;
    let mut i: usize = 8;
    proof {
        assert(bytes@.subrange(at + 8, at + 8) =~= Seq::<u8>::empty());
        lemma_radix_8();
    }
    while i > 0
        invariant
            i <= 8,
            at + 8 <= len,
            len == bytes@.len(),
            byte_radix(8) == 0x1_0000_0000_0000_0000,
            v == le_value(bytes@.subrange(at + i, at + 8)),
        decreases i,
    {
        i = i - 1;
        proof {
            let tail = bytes@.subrange(at + i, at + 8);
            assert(tail.drop_first() =~= bytes@.subrange(at + i + 1, at + 8));
            lemma_le_value_bound(tail);
            lemma_radix_monotone((8 - i) as nat, 8);
        }
        v = v * 256 + bytes[at + i] as u64;
    }
    proof {
        lemma_le_value_bytes(bytes@.subrange(at as int, at + 8));
    }
    v
}

proof fn lemma_radix_monotone(a: nat, b: nat)
    requires
        a <= b,
    ensures
        byte_radix(a) <= byte_radix(b),
    decreases b - a,
{
    if a < b {
        lemma_radix_monotone(a, (b - 1) as nat);
    }
}

/// Appends the 32 bytes of a scalar.
fn write_scalar(s: &Scalar, out: &mut Vec<u8>)
    ensures
        final(out)@ == old(out)@ + scalar_bytes(*s),
{
    write_u64_le(s.limbs[0], out);
    write_u64_le(s.limbs[1], out);
    write_u64_le(s.limbs[2], out);
    write_u64_le(s.limbs[3], out);
    proof {
        assert(out@ =~= old(out)@ + scalar_bytes(*s));
    }
}

/// The scalar whose 32 bytes stand at `at`.
fn read_scalar(bytes: &[u8], at: usize) -> (r: Scalar)
    requires
        at + 32 <= bytes@.len(),
    ensures
        scalar_bytes(r) == bytes@.subrange(at as int, at + 32),
        forall|s: Scalar| #[trigger] scalar_bytes(s) == bytes@.subrange(at as int, at + 32) ==> r == s,
{
    let len = bytes.len();
    assert(at + 32 <= len);
    let l0 = read_u64_le(bytes, at);
    let l1 = read_u64_le(bytes, at + 8);
    let l2 = read_u64_le(bytes, at + 16);
    let l3 = read_u64_le(bytes, at + 24);
    let r = Scalar { limbs: [l0, l1, l2, l3] };
    proof {
        assert(scalar_bytes(r) =~= bytes@.subrange(at as int, at + 32));
        assert forall|s: Scalar| #[trigger] scalar_bytes(s) == bytes@.subrange(at as int, at + 32) implies r == s by {
            lemma_radix_8();
            let w = bytes@.subrange(at as int, at + 32);
            lemma_le_bytes_len(s.limbs[0] as nat, 8);
            lemma_le_bytes_len(s.limbs[1] as nat, 8);
            lemma_le_bytes_len(s.limbs[2] as nat, 8);
            lemma_le_bytes_len(s.limbs[3] as nat, 8);
            assert(w.subrange(0, 8) =~= le_bytes(s.limbs[0] as nat, 8));
            assert(w.subrange(8, 16) =~= le_bytes(s.limbs[1] as nat, 8));
            assert(w.subrange(16, 24) =~= le_bytes(s.limbs[2] as nat, 8));
            assert(w.subrange(24, 32) =~= le_bytes(s.limbs[3] as nat, 8));
            assert(bytes@.subrange(at as int, at + 8) =~= w.subrange(0, 8));
            assert(bytes@.subrange(at + 8, at + 16) =~= w.subrange(8, 16));
            assert(bytes@.subrange(at + 16, at + 24) =~= w.subrange(16, 24));
            assert(bytes@.subrange(at + 24, at + 32) =~= w.subrange(24, 32));
            lemma_le_round_trip(s.limbs[0] as nat, 8);
            lemma_le_round_trip(s.limbs[1] as nat, 8);
            lemma_le_round_trip(s.limbs[2] as nat, 8);
            lemma_le_round_trip(s.limbs[3] as nat, 8);
            assert(r.limbs =~= s.limbs);
        }
    }
    r
}

/// The records of a point stream, encoded one after another.
pub open spec fn point_records_bytes(rs: Seq<Seq<G1Point>>) -> Seq<u8>
    decreases rs.len(),
{
    if rs.len() == 0 { Seq::empty() } else { point_records_bytes(rs.drop_last()) + point_vec_bytes(rs.last()) }
}

/// The records of a scalar stream, encoded one after another.
pub open spec fn scalar_records_bytes(rs: Seq<Seq<Scalar>>) -> Seq<u8>
    decreases rs.len(),
{
    if rs.len() == 0 { Seq::empty() } else { scalar_records_bytes(rs.drop_last()) + scalar_vec_bytes(rs.last()) }
}

/// The views of decoded point records.
pub open spec fn point_records_view(rs: Seq<Vec<G1Point>>) -> Seq<Seq<G1Point>> {
    Seq::new(rs.len(), |i: int| rs[i]@)
}

/// The views of decoded scalar records.
pub open spec fn scalar_records_view(rs: Seq<Vec<Scalar>>) -> Seq<Seq<Scalar>> {
    Seq::new(rs.len(), |i: int| rs[i]@)
}

proof fn lemma_stands_sub(bytes: Seq<u8>, at: int, enc: Seq<u8>, off: int, len: int)
    requires
        stands_at(bytes, at, enc),
        0 <= off,
        0 <= len,
        off + len <= enc.len(),
    ensures
        bytes.subrange(at + off, at + off + len) == enc.subrange(off, off + len),
{
    assert(bytes.subrange(at + off, at + off + len) =~= enc.subrange(off, off + len)) by {
        assert forall|j: int| 0 <= j < len implies #[trigger] bytes[at + off + j] == enc[off + j] by {
            assert(bytes.subrange(at, at + enc.len())[off + j] == bytes[at + off + j]);
        }
    }
}

/// A stored length is read back from the first 8 bytes of an encoding.
pub(crate) proof fn lemma_length_read(bytes: Seq<u8>, at: int, len: nat, enc: Seq<u8>)
    requires
        stands_at(bytes, at, le_bytes(len, 8) + enc),
        bytes.len() <= usize::MAX,
        len <= enc.len(),
    ensures
        at + 8 <= bytes.len(),
        le_value(bytes.subrange(at, at + 8)) == len,
{
    lemma_le_bytes_len(len, 8);
    lemma_stands_sub(bytes, at, le_bytes(len, 8) + enc, 0, 8);
    assert((le_bytes(len, 8) + enc).subrange(0, 8) =~= le_bytes(len, 8));
    lemma_radix_8();
    lemma_le_round_trip(len, 8);
}

/// Appends the encoding of a scalar vector.
pub fn encode_scalars(v: &[Scalar]) -> (r: Vec<u8>)
    ensures
        r@ == scalar_vec_bytes(v@),
{
    let mut out: Vec<u8> = Vec::new();
    write_u64_le(v.len() as u64, &mut out);
    let mut i: usize = 0;
    proof {
        assert(v@.subrange(0, 0) =~= Seq::<Scalar>::empty());
        assert(out@ =~= le_bytes(v@.len(), 8) + scalars_concat(v@.subrange(0, 0)));
    }
    while i < v.len()
        invariant
            i <= v@.len(),
            out@ == le_bytes(v@.len(), 8) + scalars_concat(v@.subrange(0, i as int)),
        decreases v@.len() - i,
    {
        write_scalar(&v[i], &mut out);
        proof {
            assert(v@.subrange(0, i + 1).drop_last() =~= v@.subrange(0, i as int));
            assert(out@ =~= le_bytes(v@.len(), 8) + scalars_concat(v@.subrange(0, i + 1)));
        }
        i = i + 1;
    }
    proof {
        assert(v@.subrange(0, v@.len() as int) =~= v@);
    }
    out
}

/// The encoding of a point vector.
pub fn encode_points(v: &[G1Point]) -> (r: Vec<u8>)
    ensures
        r@ == point_vec_bytes(v@),
{
    let mut out: Vec<u8> = Vec::new();
    write_u64_le(v.len() as u64, &mut out);
    let mut i: usize = 0;
    proof {
        assert(v@.subrange(0, 0) =~= Seq::<G1Point>::empty());
        assert(out@ =~= le_bytes(v@.len(), 8) + points_concat(v@.subrange(0, 0)));
    }
    while i < v.len()
        invariant
            i <= v@.len(),
            out@ == le_bytes(v@.len(), 8) + points_concat(v@.subrange(0, i as int)),
        decreases v@.len() - i,
    {
        let b = encode_point(&v[i]).unwrap();
        let ghost before = out@;
        let mut j: usize = 0;
        while j < 48
            invariant
                j <= 48,
                out@ == before + b@.subrange(0, j as int),
            decreases 48 - j,
        {
            out.push(b[j]);
            proof {
                assert(out@ =~= before + b@.subrange(0, j + 1));
            }
            j = j + 1;
        }
        proof {
            assert(b@.subrange(0, 48) =~= b@);
            assert(v@.subrange(0, i + 1).drop_last() =~= v@.subrange(0, i as int));
            assert(out@ =~= le_bytes(v@.len(), 8) + points_concat(v@.subrange(0, i + 1)));
        }
        i = i + 1;
    }
    proof {
        assert(v@.subrange(0, v@.len() as int) =~= v@);
    }
    out
}

/// Decodes the scalar vector whose encoding starts at `at`, and returns it
/// with the offset just past it. Wherever the encoding of a vector stands,
/// that vector is returned.
pub fn decode_scalars(bytes: &[u8], at: usize) -> (r: Option<(Vec<Scalar>, usize)>)
    requires
        at <= bytes@.len(),
    ensures
        r matches Some((v, end)) ==> at + 8 <= end <= bytes@.len(),
        r matches Some((v, end)) ==> stands_at(bytes@, at as int, scalar_vec_bytes(v@))
            && end == at + scalar_vec_bytes(v@).len(),
        forall|v: Seq<Scalar>| #[trigger] stands_at(bytes@, at as int, scalar_vec_bytes(v)) ==>
            (r matches Some((w, end)) && w@ == v && end == at + scalar_vec_bytes(v).len()),
{
    let n = bytes.len();
    if n - at < 8 {
        proof {
            assert forall|v: Seq<Scalar>| #[trigger] stands_at(bytes@, at as int, scalar_vec_bytes(v)) implies false by {
                lemma_scalars_concat_len(v);
                lemma_length_read(bytes@, at as int, v.len(), scalars_concat(v));
            }
        }
        return None;
    }
    let count = read_u64_le(bytes, at);
    proof {
        assert forall|v: Seq<Scalar>| #[trigger] stands_at(bytes@, at as int, scalar_vec_bytes(v)) implies v.len() == count by {
            lemma_scalars_concat_len(v);
                lemma_length_read(bytes@, at as int, v.len(), scalars_concat(v));
        }
    }
    let mut out: Vec<Scalar> = Vec::new();
    let mut pos: usize = at + 8;
    let mut i: u64 = 0;
    proof {
        assert(scalars_concat(out@) == Seq::<u8>::empty());
        assert(bytes@.subrange(at as int, pos as int) =~= le_bytes(count as nat, 8) + scalars_concat(out@));
    }
    while i < count
        invariant
            n == bytes@.len(),
            bytes@.subrange(at as int, pos as int) == le_bytes(count as nat, 8) + scalars_concat(out@),
            at + 8 + 32 * i == pos,
            pos <= n,
            i <= count,
            out@.len() == i,
            forall|v: Seq<Scalar>| #[trigger] stands_at(bytes@, at as int, scalar_vec_bytes(v)) ==>
                v.len() == count && out@ == v.subrange(0, i as int),
        decreases count - i,
    {
        if n - pos < 32 {
            proof {
                assert forall|v: Seq<Scalar>| #[trigger] stands_at(bytes@, at as int, scalar_vec_bytes(v)) implies false by {
                    lemma_le_bytes_len(v.len(), 8);
                    lemma_scalars_concat_len(v);
                    assert(32 * i + 32 <= 32 * v.len()) by (nonlinear_arith) requires i < v.len();
                }
            }
            return None;
        }
        let s = read_scalar(bytes, pos);
        proof {
            assert forall|v: Seq<Scalar>| #[trigger] stands_at(bytes@, at as int, scalar_vec_bytes(v)) implies
                out@.push(s) == v.subrange(0, i + 1) by {
                lemma_le_bytes_len(v.len(), 8);
                lemma_scalars_concat_len(v);
                assert(32 * i + 32 <= 32 * v.len()) by (nonlinear_arith) requires i < v.len();
                lemma_stands_sub(bytes@, at as int, scalar_vec_bytes(v), 8 + 32 * i, 32);
                lemma_scalar_at(v, i as int);
                assert(scalar_vec_bytes(v).subrange(8 + 32 * i, 8 + 32 * i + 32)
                    =~= scalars_concat(v).subrange(32 * i, 32 * i + 32));
                assert(scalar_bytes(v[i as int]) == bytes@.subrange(pos as int, pos + 32));
                assert(out@.push(s) =~= v.subrange(0, i + 1));
            }
        }
        let ghost before = out@;
        out.push(s);
        proof {
            assert(out@.drop_last() =~= before);
            assert(bytes@.subrange(at as int, pos + 32) =~= bytes@.subrange(at as int, pos as int)
                + bytes@.subrange(pos as int, pos + 32));
        }
        pos = pos + 32;
        i = i + 1;
    }
    proof {
        lemma_le_bytes_len(count as nat, 8);
        lemma_scalars_concat_len(out@);
        assert(bytes@.subrange(at as int, at + scalar_vec_bytes(out@).len())
            == bytes@.subrange(at as int, pos as int));
        assert forall|v: Seq<Scalar>| #[trigger] stands_at(bytes@, at as int, scalar_vec_bytes(v)) implies
            out@ == v && pos == at + scalar_vec_bytes(v).len() by {
            assert(v.subrange(0, v.len() as int) =~= v);
            lemma_le_bytes_len(v.len(), 8);
            lemma_scalars_concat_len(v);
        }
    }
    Some((out, pos))
}

/// Whether two 48-byte strings are equal.
fn same_bytes(a: &[u8; 48], b: &[u8; 48]) -> (r: bool)
    ensures
        r == (a@ == b@),
{
    let mut j: usize = 0;
    while j < 48
        invariant
            j <= 48,
            forall|k: int| 0 <= k < j ==> a@[k] == b@[k],
        decreases 48 - j,
    {
        if a[j] != b[j] {
            return false;
        }
        j = j + 1;
    }
    proof {
        assert(a@ =~= b@);
    }
    true
}

/// Decodes the point vector whose encoding starts at `at`, and returns it
/// with the offset just past it. A vector is returned exactly where its
/// encoding stands: points whose bytes are not the canonical encoding of a
/// point of the subgroup are refused.
pub fn decode_points(bytes: &[u8], at: usize) -> (r: Option<(Vec<G1Point>, usize)>)
    requires
        at <= bytes@.len(),
    ensures
        r matches Some((v, end)) ==> at + 8 <= end <= bytes@.len(),
        r matches Some((v, end)) ==> end == at + 8 + 48 * v@.len()
            && v@.len() == le_value(bytes@.subrange(at as int, at + 8)),
        r matches Some((v, end)) ==> stands_at(bytes@, at as int, point_vec_bytes(v@))
            && end == at + point_vec_bytes(v@).len(),
        forall|v: Seq<G1Point>| #[trigger] stands_at(bytes@, at as int, point_vec_bytes(v)) ==>
            (r matches Some((w, end)) && w@ == v && end == at + point_vec_bytes(v).len()),
{
    let n = bytes.len();
    if n - at < 8 {
        proof {
            assert forall|v: Seq<G1Point>| #[trigger] stands_at(bytes@, at as int, point_vec_bytes(v)) implies false by {
                lemma_points_concat_len(v);
                lemma_length_read(bytes@, at as int, v.len(), points_concat(v));
            }
        }
        return None;
    }
    let count = read_u64_le(bytes, at);
    proof {
        assert forall|v: Seq<G1Point>| #[trigger] stands_at(bytes@, at as int, point_vec_bytes(v)) implies v.len() == count by {
            lemma_points_concat_len(v);
                lemma_length_read(bytes@, at as int, v.len(), points_concat(v));
        }
    }
    let mut out: Vec<G1Point> = Vec::new();
    let mut pos: usize = at + 8;
    let mut i: u64 = 0;
    proof {
        assert(points_concat(out@) == Seq::<u8>::empty());
        assert(bytes@.subrange(at as int, pos as int) =~= le_bytes(count as nat, 8) + points_concat(out@));
    }
    while i < count
        invariant
            n == bytes@.len(),
            bytes@.subrange(at as int, pos as int) == le_bytes(count as nat, 8) + points_concat(out@),
            at + 8 + 48 * i == pos,
            pos <= n,
            i <= count,
            out@.len() == i,
            forall|v: Seq<G1Point>| #[trigger] stands_at(bytes@, at as int, point_vec_bytes(v)) ==>
                v.len() == count && out@ == v.subrange(0, i as int),
        decreases count - i,
    {
        if n - pos < 48 {
            proof {
                assert forall|v: Seq<G1Point>| #[trigger] stands_at(bytes@, at as int, point_vec_bytes(v)) implies false by {
                    lemma_le_bytes_len(v.len(), 8);
                    lemma_points_concat_len(v);
                    assert(48 * i + 48 <= 48 * v.len()) by (nonlinear_arith) requires i < v.len();
                }
            }
            return None;
        }
        let mut buf = [0u8; 48];
        let mut j: usize = 0;
        while j < 48
            invariant
                j <= 48,
                pos + 48 <= n,
                n == bytes@.len(),
                forall|k: int| 0 <= k < j ==> buf@[k] == bytes@[pos + k],
            decreases 48 - j,
        {
            buf[j] = bytes[pos + j];
            j = j + 1;
        }
        proof {
            assert(buf@ =~= bytes@.subrange(pos as int, pos + 48));
        }
        let p = match decode_point(&buf) {
            Some(p) => p,
            None => {
                proof {
                    assert forall|v: Seq<G1Point>| #[trigger] stands_at(bytes@, at as int, point_vec_bytes(v)) implies false by {
                        lemma_le_bytes_len(v.len(), 8);
                        lemma_points_concat_len(v);
                        assert(48 * i + 48 <= 48 * v.len()) by (nonlinear_arith) requires i < v.len();
                        lemma_stands_sub(bytes@, at as int, point_vec_bytes(v), 8 + 48 * i, 48);
                        lemma_point_at(v, i as int);
                        assert(point_vec_bytes(v).subrange(8 + 48 * i, 8 + 48 * i + 48)
                            =~= points_concat(v).subrange(48 * i, 48 * i + 48));
                        assert(point_bytes(v[i as int])@ == buf@);
                    }
                }
                return None;
            },
        };
        // Only the canonical encoding of a point is accepted.
        let again = encode_point(&p).unwrap();
        if !same_bytes(&again, &buf) {
            proof {
                assert forall|v: Seq<G1Point>| #[trigger] stands_at(bytes@, at as int, point_vec_bytes(v)) implies false by {
                    lemma_le_bytes_len(v.len(), 8);
                    lemma_points_concat_len(v);
                    assert(48 * i + 48 <= 48 * v.len()) by (nonlinear_arith) requires i < v.len();
                    lemma_stands_sub(bytes@, at as int, point_vec_bytes(v), 8 + 48 * i, 48);
                    lemma_point_at(v, i as int);
                    assert(point_vec_bytes(v).subrange(8 + 48 * i, 8 + 48 * i + 48)
                        =~= points_concat(v).subrange(48 * i, 48 * i + 48));
                    assert(point_bytes(v[i as int])@ == buf@);
                    assert(p == v[i as int]);
                }
            }
            return None;
        }
        proof {
            assert forall|v: Seq<G1Point>| #[trigger] stands_at(bytes@, at as int, point_vec_bytes(v)) implies
                out@.push(p) == v.subrange(0, i + 1) by {
                lemma_le_bytes_len(v.len(), 8);
                lemma_points_concat_len(v);
                assert(48 * i + 48 <= 48 * v.len()) by (nonlinear_arith) requires i < v.len();
                lemma_stands_sub(bytes@, at as int, point_vec_bytes(v), 8 + 48 * i, 48);
                lemma_point_at(v, i as int);
                assert(point_vec_bytes(v).subrange(8 + 48 * i, 8 + 48 * i + 48)
                    =~= points_concat(v).subrange(48 * i, 48 * i + 48));
                assert(point_bytes(v[i as int])@ == buf@);
                assert(out@.push(p) =~= v.subrange(0, i + 1));
            }
        }
        let ghost before = out@;
        out.push(p);
        proof {
            assert(out@.drop_last() =~= before);
            assert(bytes@.subrange(at as int, pos + 48) =~= bytes@.subrange(at as int, pos as int)
                + bytes@.subrange(pos as int, pos + 48));
        }
        pos = pos + 48;
        i = i + 1;
    }
    proof {
        lemma_le_bytes_len(count as nat, 8);
        lemma_points_concat_len(out@);
        assert(bytes@.subrange(at as int, at + point_vec_bytes(out@).len())
            == bytes@.subrange(at as int, pos as int));
        assert forall|v: Seq<G1Point>| #[trigger] stands_at(bytes@, at as int, point_vec_bytes(v)) implies
            out@ == v && pos == at + point_vec_bytes(v).len() by {
            assert(v.subrange(0, v.len() as int) =~= v);
            lemma_le_bytes_len(v.len(), 8);
            lemma_points_concat_len(v);
        }
    }
    Some((out, pos))
}

proof fn lemma_point_records_append(a: Seq<Seq<G1Point>>, b: Seq<Seq<G1Point>>)
    ensures
        point_records_bytes(a + b) == point_records_bytes(a) + point_records_bytes(b),
    decreases b.len(),
{
    if b.len() == 0 {
        assert(a + b =~= a);
        assert(point_records_bytes(a) + Seq::<u8>::empty() =~= point_records_bytes(a));
    } else {
        assert((a + b).drop_last() =~= a + b.drop_last());
        lemma_point_records_append(a, b.drop_last());
        assert(point_records_bytes(a) + point_records_bytes(b.drop_last()) + point_vec_bytes(b.last())
            =~= point_records_bytes(a) + (point_records_bytes(b.drop_last()) + point_vec_bytes(b.last())));
    }
}

proof fn lemma_scalar_records_append(a: Seq<Seq<Scalar>>, b: Seq<Seq<Scalar>>)
    ensures
        scalar_records_bytes(a + b) == scalar_records_bytes(a) + scalar_records_bytes(b),
    decreases b.len(),
{
    if b.len() == 0 {
        assert(a + b =~= a);
        assert(scalar_records_bytes(a) + Seq::<u8>::empty() =~= scalar_records_bytes(a));
    } else {
        assert((a + b).drop_last() =~= a + b.drop_last());
        lemma_scalar_records_append(a, b.drop_last());
        assert(scalar_records_bytes(a) + scalar_records_bytes(b.drop_last()) + scalar_vec_bytes(b.last())
            =~= scalar_records_bytes(a) + (scalar_records_bytes(b.drop_last()) + scalar_vec_bytes(b.last())));
    }
}

/// Record k of a point stream stands just after the records before it.
proof fn lemma_point_record_at(rs: Seq<Seq<G1Point>>, k: int)
    requires
        0 <= k < rs.len(),
    ensures
        stands_at(point_records_bytes(rs), point_records_bytes(rs.subrange(0, k)).len() as int,
            point_vec_bytes(rs[k])),
        point_records_bytes(rs.subrange(0, k + 1))
            == point_records_bytes(rs.subrange(0, k)) + point_vec_bytes(rs[k]),
{
    let a = rs.subrange(0, k + 1);
    let b = rs.subrange(k + 1, rs.len() as int);
    assert(rs =~= a + b);
    assert(a.drop_last() =~= rs.subrange(0, k));
    lemma_point_records_append(a, b);
    let whole = point_records_bytes(rs);
    let at = point_records_bytes(rs.subrange(0, k)).len() as int;
    let enc = point_vec_bytes(rs[k]);
    assert(whole.subrange(at, at + enc.len()) =~= enc);
}

/// Record k of a scalar stream stands just after the records before it.
proof fn lemma_scalar_record_at(rs: Seq<Seq<Scalar>>, k: int)
    requires
        0 <= k < rs.len(),
    ensures
        stands_at(scalar_records_bytes(rs), scalar_records_bytes(rs.subrange(0, k)).len() as int,
            scalar_vec_bytes(rs[k])),
        scalar_records_bytes(rs.subrange(0, k + 1))
            == scalar_records_bytes(rs.subrange(0, k)) + scalar_vec_bytes(rs[k]),
{
    let a = rs.subrange(0, k + 1);
    let b = rs.subrange(k + 1, rs.len() as int);
    assert(rs =~= a + b);
    assert(a.drop_last() =~= rs.subrange(0, k));
    lemma_scalar_records_append(a, b);
    let whole = scalar_records_bytes(rs);
    let at = scalar_records_bytes(rs.subrange(0, k)).len() as int;
    let enc = scalar_vec_bytes(rs[k]);
    assert(whole.subrange(at, at + enc.len()) =~= enc);
}

/// Whether the two streams hold, record by record, the point vectors `ps` and
/// the scalar vectors `ss`.
pub open spec fn streams_hold(point_stream: Seq<u8>, scalar_stream: Seq<u8>, ps: Seq<Seq<G1Point>>,
    ss: Seq<Seq<Scalar>>) -> bool {
    &&& ps.len() == ss.len()
    &&& point_stream == point_records_bytes(ps)
    &&& scalar_stream == scalar_records_bytes(ss)
}

/// The encodings of one instance: its point vector and its scalar vector, to be
/// appended to a point stream and a scalar stream.
pub fn encode_instance(points: &[G1Point], scalars: &[Scalar]) -> (r: (Vec<u8>, Vec<u8>))
    ensures
        r.0@ == point_vec_bytes(points@),
        r.1@ == scalar_vec_bytes(scalars@),
{
    let p = encode_points(points);
    let s = encode_scalars(scalars);
    (p, s)
}

/// Whether `s` begins with `pre`.
pub open spec fn starts_with(s: Seq<u8>, pre: Seq<u8>) -> bool {
    pre.len() <= s.len() && s.subrange(0, pre.len() as int) == pre
}

/// Whether the two streams begin, record by record, with the point vectors
/// `ps` and the scalar vectors `ss`, whatever follows them.
pub open spec fn streams_begin(point_stream: Seq<u8>, scalar_stream: Seq<u8>, ps: Seq<Seq<G1Point>>,
    ss: Seq<Seq<Scalar>>) -> bool {
    &&& ps.len() == ss.len()
    &&& starts_with(point_stream, point_records_bytes(ps))
    &&& starts_with(scalar_stream, scalar_records_bytes(ss))
}

proof fn lemma_stands_in_longer(big: Seq<u8>, small: Seq<u8>, at: int, enc: Seq<u8>)
    requires
        starts_with(big, small),
        stands_at(small, at, enc),
    ensures
        stands_at(big, at, enc),
{
    assert(big.subrange(at, at + enc.len()) =~= small.subrange(at, at + enc.len())) by {
        assert forall|j: int| 0 <= j < enc.len() implies
            #[trigger] big.subrange(at, at + enc.len())[j] == small.subrange(at, at + enc.len())[j] by {
            assert(big.subrange(0, small.len() as int)[at + j] == small[at + j]);
        }
    }
}

/// Reads the instances of a point stream and a scalar stream in lock step, in
/// the order written, and stops at the first record that either stream fails
/// to decode (its end, or a damaged record): the streams begin with exactly
/// the records returned, and after them the two streams do not both hold a
/// whole record. So streams that begin with k whole records each give back
/// those k records first, in order, and streams that hold exactly k whole
/// records each give back exactly those.
pub fn decode_instances(point_stream: &[u8], scalar_stream: &[u8]) -> (r: (Vec<Vec<G1Point>>, Vec<Vec<Scalar>>))
    ensures
        r.0@.len() == r.1@.len(),
        streams_begin(point_stream@, scalar_stream@, point_records_view(r.0@), scalar_records_view(r.1@)),
        forall|v: Seq<G1Point>, w: Seq<Scalar>|
            !(#[trigger] stands_at(point_stream@, point_records_bytes(point_records_view(r.0@)).len() as int,
                point_vec_bytes(v))
            && #[trigger] stands_at(scalar_stream@, scalar_records_bytes(scalar_records_view(r.1@)).len() as int,
                scalar_vec_bytes(w))),
        forall|ps: Seq<Seq<G1Point>>, ss: Seq<Seq<Scalar>>|
            #[trigger] streams_begin(point_stream@, scalar_stream@, ps, ss) ==> {
                &&& r.0@.len() >= ps.len()
                &&& point_records_view(r.0@).subrange(0, ps.len() as int) == ps
                &&& scalar_records_view(r.1@).subrange(0, ss.len() as int) == ss
            },
        forall|ps: Seq<Seq<G1Point>>, ss: Seq<Seq<Scalar>>|
            #[trigger] streams_hold(point_stream@, scalar_stream@, ps, ss) ==>
                point_records_view(r.0@) == ps && scalar_records_view(r.1@) == ss,
{
    let np = point_stream.len();
    let ns = scalar_stream.len();
    let mut points: Vec<Vec<G1Point>> = Vec::new();
    let mut scalars: Vec<Vec<Scalar>> = Vec::new();
    let mut pa: usize = 0;
    let mut sa: usize = 0;
    let mut done = false;
    proof {
        assert(point_records_view(points@) =~= Seq::<Seq<G1Point>>::empty());
        assert(scalar_records_view(scalars@) =~= Seq::<Seq<Scalar>>::empty());
        assert(point_stream@.subrange(0, 0) =~= Seq::<u8>::empty());
        assert(scalar_stream@.subrange(0, 0) =~= Seq::<u8>::empty());
        assert forall|ps: Seq<Seq<G1Point>>, ss: Seq<Seq<Scalar>>|
            #[trigger] streams_begin(point_stream@, scalar_stream@, ps, ss) implies
                point_records_bytes(ps.subrange(0, 0)).len() == 0
                && scalar_records_bytes(ss.subrange(0, 0)).len() == 0
                && point_records_view(points@) == ps.subrange(0, 0)
                && scalar_records_view(scalars@) == ss.subrange(0, 0) by {
            assert(ps.subrange(0, 0) =~= Seq::<Seq<G1Point>>::empty());
            assert(ss.subrange(0, 0) =~= Seq::<Seq<Scalar>>::empty());
            assert(point_records_view(points@) =~= ps.subrange(0, 0));
            assert(scalar_records_view(scalars@) =~= ss.subrange(0, 0));
        }
    }
    while !done
        invariant
            np == point_stream@.len(),
            ns == scalar_stream@.len(),
            pa <= np,
            sa <= ns,
            points@.len() == scalars@.len(),
            streams_begin(point_stream@, scalar_stream@, point_records_view(points@), scalar_records_view(scalars@)),
            pa == point_records_bytes(point_records_view(points@)).len(),
            sa == scalar_records_bytes(scalar_records_view(scalars@)).len(),
            done ==> forall|v: Seq<G1Point>, w: Seq<Scalar>|
                !(#[trigger] stands_at(point_stream@, pa as int, point_vec_bytes(v))
                && #[trigger] stands_at(scalar_stream@, sa as int, scalar_vec_bytes(w))),
            forall|ps: Seq<Seq<G1Point>>, ss: Seq<Seq<Scalar>>|
                #[trigger] streams_begin(point_stream@, scalar_stream@, ps, ss) ==> {
                    &&& points@.len() <= ps.len() ==> {
                        &&& pa == point_records_bytes(ps.subrange(0, points@.len() as int)).len()
                        &&& sa == scalar_records_bytes(ss.subrange(0, points@.len() as int)).len()
                        &&& point_records_view(points@) == ps.subrange(0, points@.len() as int)
                        &&& scalar_records_view(scalars@) == ss.subrange(0, points@.len() as int)
                    }
                    &&& points@.len() > ps.len() ==> {
                        &&& point_records_view(points@).subrange(0, ps.len() as int) == ps
                        &&& scalar_records_view(scalars@).subrange(0, ss.len() as int) == ss
                    }
                    &&& (done ==> points@.len() >= ps.len())
                },
            forall|ps: Seq<Seq<G1Point>>, ss: Seq<Seq<Scalar>>|
                #[trigger] streams_hold(point_stream@, scalar_stream@, ps, ss) ==> points@.len() <= ps.len(),
        decreases np - pa + if done { 0int } else { 1int },
    {
        let k = points.len();
        proof {
            assert forall|ps: Seq<Seq<G1Point>>, ss: Seq<Seq<Scalar>>|
                #[trigger] streams_begin(point_stream@, scalar_stream@, ps, ss) && k < ps.len() implies
                    stands_at(point_stream@, pa as int, point_vec_bytes(ps[k as int]))
                    && stands_at(scalar_stream@, sa as int, scalar_vec_bytes(ss[k as int])) by {
                lemma_point_record_at(ps, k as int);
                lemma_scalar_record_at(ss, k as int);
                lemma_stands_in_longer(point_stream@, point_records_bytes(ps), pa as int, point_vec_bytes(ps[k as int]));
                lemma_stands_in_longer(scalar_stream@, scalar_records_bytes(ss), sa as int, scalar_vec_bytes(ss[k as int]));
            }
        }
        let dp = decode_points(point_stream, pa);
        let ds = decode_scalars(scalar_stream, sa);
        match (dp, ds) {
            (Some((p, pe)), Some((s, se))) => {
                proof {
                    assert forall|ps: Seq<Seq<G1Point>>, ss: Seq<Seq<Scalar>>|
                        #[trigger] streams_begin(point_stream@, scalar_stream@, ps, ss) implies {
                            &&& k + 1 <= ps.len() ==> {
                                &&& pe == point_records_bytes(ps.subrange(0, k + 1)).len()
                                &&& se == scalar_records_bytes(ss.subrange(0, k + 1)).len()
                                &&& point_records_view(points@.push(p)) == ps.subrange(0, k + 1)
                                &&& scalar_records_view(scalars@.push(s)) == ss.subrange(0, k + 1)
                            }
                            &&& k + 1 > ps.len() ==> {
                                &&& point_records_view(points@.push(p)).subrange(0, ps.len() as int) == ps
                                &&& scalar_records_view(scalars@.push(s)).subrange(0, ss.len() as int) == ss
                            }
                        } by {
                        if k < ps.len() {
                            lemma_point_record_at(ps, k as int);
                            lemma_scalar_record_at(ss, k as int);
                            assert(point_records_view(points@.push(p)) =~= ps.subrange(0, k + 1));
                            assert(scalar_records_view(scalars@.push(s)) =~= ss.subrange(0, k + 1));
                            if k + 1 == ps.len() {
                                assert(ps.subrange(0, k + 1) =~= ps);
                                assert(ss.subrange(0, k + 1) =~= ss);
                                assert(point_records_view(points@.push(p)).subrange(0, ps.len() as int)
                                    =~= point_records_view(points@.push(p)));
                                assert(scalar_records_view(scalars@.push(s)).subrange(0, ss.len() as int)
                                    =~= scalar_records_view(scalars@.push(s)));
                            }
                        } else if k == ps.len() {
                            assert(point_records_view(points@.push(p)).subrange(0, ps.len() as int)
                                =~= point_records_view(points@));
                            assert(scalar_records_view(scalars@.push(s)).subrange(0, ss.len() as int)
                                =~= scalar_records_view(scalars@));
                            assert(ps.subrange(0, k as int) =~= ps);
                            assert(ss.subrange(0, k as int) =~= ss);
                        } else {
                            assert(point_records_view(points@.push(p)).subrange(0, ps.len() as int)
                                =~= point_records_view(points@).subrange(0, ps.len() as int));
                            assert(scalar_records_view(scalars@.push(s)).subrange(0, ss.len() as int)
                                =~= scalar_records_view(scalars@).subrange(0, ss.len() as int));
                        }
                    }
                    assert forall|ps: Seq<Seq<G1Point>>, ss: Seq<Seq<Scalar>>|
                        #[trigger] streams_hold(point_stream@, scalar_stream@, ps, ss) implies k + 1 <= ps.len() by {
                        assert(point_records_bytes(ps).subrange(0, point_records_bytes(ps).len() as int)
                            =~= point_records_bytes(ps));
                        assert(scalar_records_bytes(ss).subrange(0, scalar_records_bytes(ss).len() as int)
                            =~= scalar_records_bytes(ss));
                        assert(streams_begin(point_stream@, scalar_stream@, ps, ss));
                        if k == ps.len() {
                            assert(ps.subrange(0, k as int) =~= ps);
                            assert(pa == np);
                        }
                    }
                }
                proof {
                    let pv = point_records_view(points@);
                    let sv = scalar_records_view(scalars@);
                    assert(point_records_view(points@.push(p)) =~= pv.push(p@));
                    assert(scalar_records_view(scalars@.push(s)) =~= sv.push(s@));
                    assert(pv.push(p@).drop_last() =~= pv);
                    assert(sv.push(s@).drop_last() =~= sv);
                    let pb = point_records_bytes(pv.push(p@));
                    let sb = scalar_records_bytes(sv.push(s@));
                    assert(point_stream@.subrange(0, pb.len() as int) =~= point_stream@.subrange(0, pa as int)
                        + point_stream@.subrange(pa as int, pe as int));
                    assert(scalar_stream@.subrange(0, sb.len() as int) =~= scalar_stream@.subrange(0, sa as int)
                        + scalar_stream@.subrange(sa as int, se as int));
                }
                points.push(p);
                scalars.push(s);
                pa = pe;
                sa = se;
            },
            _ => {
                done = true;
            },
        }
    }
    proof {
        assert forall|ps: Seq<Seq<G1Point>>, ss: Seq<Seq<Scalar>>|
            #[trigger] streams_hold(point_stream@, scalar_stream@, ps, ss) implies
                point_records_view(points@) == ps && scalar_records_view(scalars@) == ss by {
            assert(point_records_bytes(ps).subrange(0, point_records_bytes(ps).len() as int)
                =~= point_records_bytes(ps));
            assert(scalar_records_bytes(ss).subrange(0, scalar_records_bytes(ss).len() as int)
                =~= scalar_records_bytes(ss));
            assert(streams_begin(point_stream@, scalar_stream@, ps, ss));
            assert(ps.subrange(0, ps.len() as int) =~= ps);
            assert(ss.subrange(0, ss.len() as int) =~= ss);
        }
        assert forall|ps: Seq<Seq<G1Point>>, ss: Seq<Seq<Scalar>>|
            #[trigger] streams_begin(point_stream@, scalar_stream@, ps, ss) implies {
                &&& points@.len() >= ps.len()
                &&& point_records_view(points@).subrange(0, ps.len() as int) == ps
                &&& scalar_records_view(scalars@).subrange(0, ss.len() as int) == ss
            } by {
            if points@.len() == ps.len() {
                assert(ps.subrange(0, ps.len() as int) =~= ps);
                assert(ss.subrange(0, ss.len() as int) =~= ss);
                assert(point_records_view(points@).subrange(0, ps.len() as int) =~= point_records_view(points@));
                assert(scalar_records_view(scalars@).subrange(0, ss.len() as int) =~= scalar_records_view(scalars@));
            }
        }
    }
    (points, scalars)
}

} // verus!
