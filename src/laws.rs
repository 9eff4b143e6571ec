//! Properties that relate several functions of the library.
use vstd::prelude::*;
use vstd::arithmetic::power2::pow2;
use crate::group::{G1Point, point_log};
use crate::scalar::Scalar;
use crate::model::{
    weighted_sum, point_logs, scalar_values, digit_coefs, high_coefs, msm_spec, lemma_weighted_linear,
    lemma_weighted_ext, lemma_weighted_zero, lemma_high_split, lemma_high_ends,
};
use crate::codec::{
    point_vec_bytes, scalar_vec_bytes, point_records_bytes, scalar_records_bytes, streams_hold, stands_at,
};
use crate::digest::blake3_digest;

verus! {

/// What Horner's rule over the windows of width `c` computes from window `w`
/// up: T_w + 2^c·(T_{w+1} + 2^c·(…)), where T_w = Σᵢ digit_w(sᵢ)·log Pᵢ is
/// the total of window w.
pub open spec fn windowed_from(points: Seq<G1Point>, scalars: Seq<Scalar>, c: nat, w: nat) -> int
    decreases 256 - w,
{
    if w >= 256 || c == 0 || w * c >= 256 {
        0
    } else {
        weighted_sum(point_logs(points), digit_coefs(scalars, (w * c) as int, c as int))
            + pow2(c) * windowed_from(points, scalars, c, w + 1)
    }
}

proof fn lemma_windowed_is_high(points: Seq<G1Point>, scalars: Seq<Scalar>, c: nat, w: nat)
    requires
        points.len() == scalars.len(),
        1 <= c,
    ensures
        windowed_from(points, scalars, c, w)
            == weighted_sum(point_logs(points), high_coefs(scalars, if w * c < 256 { (w * c) as int } else { 256 })),
    decreases 256 - w,
{
    let logs = point_logs(points);
    if w >= 256 || w * c >= 256 {
        if w >= 256 {
            assert(w * c >= 256) by (nonlinear_arith) requires w >= 256, c >= 1;
        }
        assert forall|i: int| 0 <= i < logs.len() implies high_coefs(scalars, 256)[i] == 0 by {
            lemma_high_ends(scalars[i]);
        }
        lemma_weighted_zero(logs, high_coefs(scalars, 256));
    } else {
        lemma_windowed_is_high(points, scalars, c, w + 1);
        let here = (w * c) as int;
        assert((w + 1) * c == here + c) by (nonlinear_arith) requires here == w * c;
        let next = if here + c < 256 { here + c } else { 256 };
        assert forall|i: int| 0 <= i < logs.len() implies high_coefs(scalars, here)[i]
            == digit_coefs(scalars, here, c as int)[i] + pow2(c) * high_coefs(scalars, next)[i] by {
            lemma_high_split(scalars[i], here, c as int);
        }
        lemma_weighted_linear(logs, high_coefs(scalars, here), digit_coefs(scalars, here, c as int),
            high_coefs(scalars, next), pow2(c) as int);
    }
}

/// The bucket method agrees with the baseline, and its result does not depend
/// on the window width: for every width c ≥ 1, the
/// window totals combined by Horner's rule (what `pippenger_msm` and
/// `ChunkedPippenger::finalize` compute) equal Σ sᵢ·Pᵢ (what
/// `compute_msm_baseline` computes), as logarithms before reduction modulo r.
pub proof fn bucket_method_matches_baseline(points: Seq<G1Point>, scalars: Seq<Scalar>, c: nat)
    requires
        points.len() == scalars.len(),
        1 <= c,
    ensures
        windowed_from(points, scalars, c, 0) == msm_spec(points, scalars),
{
    lemma_windowed_is_high(points, scalars, c, 0);
    assert forall|i: int| 0 <= i < points.len() implies high_coefs(scalars, 0)[i] == scalar_values(scalars)[i] by {
        lemma_high_ends(scalars[i]);
    }
    lemma_weighted_ext(point_logs(points), high_coefs(scalars, 0), scalar_values(scalars));
}

/// The result of the bucket method does not depend on the window width.
pub proof fn window_width_does_not_matter(points: Seq<G1Point>, scalars: Seq<Scalar>, c1: nat, c2: nat)
    requires
        points.len() == scalars.len(),
        1 <= c1,
        1 <= c2,
    ensures
        windowed_from(points, scalars, c1, 0) == windowed_from(points, scalars, c2, 0),
{
    bucket_method_matches_baseline(points, scalars, c1);
    bucket_method_matches_baseline(points, scalars, c2);
}

/// The empty instance sums to the identity.
pub proof fn empty_instance_is_identity()
    ensures
        msm_spec(Seq::empty(), Seq::empty()) == 0,
{
}

/// One point with scalar 1 sums to that point.
pub proof fn unit_scalar_keeps_point(p: G1Point, s: Scalar)
    requires
        s.value() == 1,
    ensures
        msm_spec(seq![p], seq![s]) == point_log(p),
{
    assert(1 * point_log(p) == point_log(p));
    let logs = point_logs(seq![p]);
    let vals = scalar_values(seq![s]);
    assert(logs.drop_last() =~= Seq::<int>::empty());
    assert(vals.drop_last() =~= Seq::<int>::empty());
    assert(weighted_sum(Seq::<int>::empty(), Seq::<int>::empty()) == 0);
    assert(weighted_sum(logs, vals) == vals[0] * logs[0]);
    assert(logs[0] == point_log(p));
    assert(vals[0] == s.value());
    assert(msm_spec(seq![p], seq![s]) == weighted_sum(logs, vals));
    assert(vals[0] * logs[0] == s.value() * point_log(p));
}

/// One point with scalar 0 sums to the identity.
pub proof fn zero_scalar_gives_identity(p: G1Point, s: Scalar)
    requires
        s.value() == 0,
    ensures
        msm_spec(seq![p], seq![s]) == 0,
{
    assert(0 * point_log(p) == 0);
    let logs = point_logs(seq![p]);
    let vals = scalar_values(seq![s]);
    assert(logs.drop_last() =~= Seq::<int>::empty());
    assert(vals.drop_last() =~= Seq::<int>::empty());
    assert(weighted_sum(Seq::<int>::empty(), Seq::<int>::empty()) == 0);
    assert(weighted_sum(logs, vals) == vals[0] * logs[0]);
    assert(logs[0] == point_log(p));
    assert(vals[0] == s.value());
    assert(msm_spec(seq![p], seq![s]) == weighted_sum(logs, vals));
    assert(vals[0] * logs[0] == s.value() * point_log(p));
}

/// Cutting an instance into two contiguous chunks splits its sum: fed chunk
/// by chunk, in order, to `ChunkedPippenger`, an instance gives the sum of
/// the whole, whatever the cut.
pub proof fn chunks_add_up(points: Seq<G1Point>, scalars: Seq<Scalar>, k: int)
    requires
        points.len() == scalars.len(),
        0 <= k <= points.len(),
    ensures
        msm_spec(points, scalars) == msm_spec(points.subrange(0, k), scalars.subrange(0, k))
            + msm_spec(points.subrange(k, points.len() as int), scalars.subrange(k, scalars.len() as int)),
        points.subrange(0, k) + points.subrange(k, points.len() as int) == points,
        scalars.subrange(0, k) + scalars.subrange(k, scalars.len() as int) == scalars,
    decreases points.len() - k,
{
    assert(points.subrange(0, k) + points.subrange(k, points.len() as int) =~= points);
    assert(scalars.subrange(0, k) + scalars.subrange(k, scalars.len() as int) =~= scalars);
    let n = points.len() as int;
    if k == n {
        assert(point_logs(points.subrange(n, n)).len() == 0);
        assert(points.subrange(0, n) =~= points);
        assert(scalars.subrange(0, n) =~= scalars);
    } else {
        let pd = points.drop_last();
        let sd = scalars.drop_last();
        chunks_add_up(pd, sd, k);
        let tail_p = points.subrange(k, n);
        let tail_s = scalars.subrange(k, n);
        assert(point_logs(points).drop_last() =~= point_logs(pd));
        assert(scalar_values(scalars).drop_last() =~= scalar_values(sd));
        assert(point_logs(tail_p).drop_last() =~= point_logs(pd.subrange(k, n - 1)));
        assert(scalar_values(tail_s).drop_last() =~= scalar_values(sd.subrange(k, n - 1)));
        assert(pd.subrange(0, k) =~= points.subrange(0, k));
        assert(sd.subrange(0, k) =~= scalars.subrange(0, k));
    }
}

/// The pieces of `s` between consecutive offsets of `cuts`, joined in order.
pub open spec fn joined_pieces<A>(s: Seq<A>, cuts: Seq<int>) -> Seq<A>
    decreases cuts.len(),
{
    if cuts.len() < 2 {
        Seq::empty()
    } else {
        joined_pieces(s, cuts.drop_last()) + s.subrange(cuts[cuts.len() - 2], cuts[cuts.len() - 1])
    }
}

/// Σ over the pieces between consecutive offsets of `cuts` of each piece's
/// multi-scalar sum.
pub open spec fn pieces_sum(points: Seq<G1Point>, scalars: Seq<Scalar>, cuts: Seq<int>) -> int
    decreases cuts.len(),
{
    if cuts.len() < 2 {
        0
    } else {
        pieces_sum(points, scalars, cuts.drop_last()) + msm_spec(
            points.subrange(cuts[cuts.len() - 2], cuts[cuts.len() - 1]),
            scalars.subrange(cuts[cuts.len() - 2], cuts[cuts.len() - 1]),
        )
    }
}

/// Whether `cuts` runs from 0 up to n without going down.
pub open spec fn is_partition(cuts: Seq<int>, n: int) -> bool {
    &&& cuts.len() >= 1
    &&& cuts[0] == 0
    &&& cuts[cuts.len() - 1] == n
    &&& forall|i: int, j: int| 0 <= i <= j < cuts.len() ==> cuts[i] <= cuts[j]
}

proof fn lemma_pieces_of_prefix<A>(s: Seq<A>, cuts: Seq<int>, m: int)
    requires
        is_partition(cuts, m),
        m <= s.len(),
    ensures
        joined_pieces(s, cuts) == joined_pieces(s.subrange(0, m), cuts),
    decreases cuts.len(),
{
    if cuts.len() >= 2 {
        let k = cuts.len() - 2;
        lemma_pieces_of_prefix(s, cuts.drop_last(), cuts[k]);
        lemma_pieces_of_prefix(s.subrange(0, m), cuts.drop_last(), cuts[k]);
        assert(s.subrange(0, m).subrange(0, cuts[k]) =~= s.subrange(0, cuts[k]));
        assert(s.subrange(0, m).subrange(cuts[k], m) =~= s.subrange(cuts[k], m));
    }
}

proof fn lemma_pieces_sum_of_prefix(points: Seq<G1Point>, scalars: Seq<Scalar>, cuts: Seq<int>, m: int)
    requires
        is_partition(cuts, m),
        m <= points.len(),
        m <= scalars.len(),
    ensures
        pieces_sum(points, scalars, cuts) == pieces_sum(points.subrange(0, m), scalars.subrange(0, m), cuts),
    decreases cuts.len(),
{
    if cuts.len() >= 2 {
        let k = cuts.len() - 2;
        lemma_pieces_sum_of_prefix(points, scalars, cuts.drop_last(), cuts[k]);
        lemma_pieces_sum_of_prefix(points.subrange(0, m), scalars.subrange(0, m), cuts.drop_last(), cuts[k]);
        assert(points.subrange(0, m).subrange(0, cuts[k]) =~= points.subrange(0, cuts[k]));
        assert(scalars.subrange(0, m).subrange(0, cuts[k]) =~= scalars.subrange(0, cuts[k]));
        assert(points.subrange(0, m).subrange(cuts[k], m) =~= points.subrange(cuts[k], m));
        assert(scalars.subrange(0, m).subrange(cuts[k], m) =~= scalars.subrange(cuts[k], m));
    }
}

/// Feeding an instance to `ChunkedPippenger` in contiguous chunks, in
/// order, for any partition: the chunks join back into the instance (so the
/// accumulator ends up holding the whole instance), and the chunks' sums add
/// up to the sum of the whole.
pub proof fn any_partition_adds_up(points: Seq<G1Point>, scalars: Seq<Scalar>, cuts: Seq<int>)
    requires
        points.len() == scalars.len(),
        is_partition(cuts, points.len() as int),
    ensures
        joined_pieces(points, cuts) == points,
        joined_pieces(scalars, cuts) == scalars,
        pieces_sum(points, scalars, cuts) == msm_spec(points, scalars),
    decreases cuts.len(),
{
    let n = points.len() as int;
    if cuts.len() == 1 {
        assert(points.len() == 0);
        assert(points =~= Seq::<G1Point>::empty());
        assert(scalars =~= Seq::<Scalar>::empty());
    } else {
        let m = cuts[cuts.len() - 2];
        let pre = cuts.drop_last();
        let pp = points.subrange(0, m);
        let sp = scalars.subrange(0, m);
        any_partition_adds_up(pp, sp, pre);
        lemma_pieces_of_prefix(points, pre, m);
        lemma_pieces_of_prefix(scalars, pre, m);
        lemma_pieces_sum_of_prefix(points, scalars, pre, m);
        chunks_add_up(points, scalars, m);
    }
}

/// A vector's encoding, read on its own, stands at offset 0: `decode_points`
/// and `decode_scalars` at 0 give back the vector encoded.
pub proof fn encoding_round_trips(points: Seq<G1Point>, scalars: Seq<Scalar>)
    ensures
        stands_at(point_vec_bytes(points), 0, point_vec_bytes(points)),
        stands_at(scalar_vec_bytes(scalars), 0, scalar_vec_bytes(scalars)),
{
    assert(point_vec_bytes(points).subrange(0, point_vec_bytes(points).len() as int) =~= point_vec_bytes(points));
    assert(scalar_vec_bytes(scalars).subrange(0, scalar_vec_bytes(scalars).len() as int)
        =~= scalar_vec_bytes(scalars));
}

/// Appending one more instance to a pair of streams appends its encodings,
/// and streams written this way hold exactly the instances appended, in order:
/// `decode_instances` reads back k records of the lengths written.
pub proof fn appended_instances_read_back(ps: Seq<Seq<G1Point>>, ss: Seq<Seq<Scalar>>, p: Seq<G1Point>,
    s: Seq<Scalar>)
    requires
        ps.len() == ss.len(),
    ensures
        point_records_bytes(ps.push(p)) == point_records_bytes(ps) + point_vec_bytes(p),
        scalar_records_bytes(ss.push(s)) == scalar_records_bytes(ss) + scalar_vec_bytes(s),
        streams_hold(point_records_bytes(ps.push(p)), scalar_records_bytes(ss.push(s)), ps.push(p), ss.push(s)),
{
    assert(ps.push(p).drop_last() =~= ps);
    assert(ss.push(s).drop_last() =~= ss);
}

/// The digest of a vector depends on its content alone.
pub proof fn digest_is_deterministic(a: Seq<G1Point>, b: Seq<G1Point>, x: Seq<Scalar>, y: Seq<Scalar>)
    requires
        a == b,
        x == y,
    ensures
        blake3_digest(point_vec_bytes(a)) == blake3_digest(point_vec_bytes(b)),
        blake3_digest(scalar_vec_bytes(x)) == blake3_digest(scalar_vec_bytes(y)),
{
}

} // verus!
