//! Instances as handed to an embedding host: owned point and scalar vectors,
//! single instances and sequences of them, and the entry points that build,
//! decode and evaluate them.
use vstd::prelude::*;
use ark_std::rand::rngs::StdRng;
use crate::group::{G1Point, G1Acc, point_log, acc_log, group_order};
use crate::scalar::Scalar;
use crate::model::msm_spec;
use crate::msm::{Error, compute_msm_opt};
use crate::codec::{
    point_vec_bytes, scalar_vec_bytes, le_bytes, stands_at, decode_points, decode_scalars, read_u64_le,
    le_value, starts_with, lemma_le_bytes_len, lemma_length_read, lemma_points_concat_len, lemma_scalars_concat_len,
};
use crate::digest::{instances_bytes, instances_concat};
use crate::generator;

verus! {

/// A vector of points.
pub struct PointVectorInput {
    point_vec: Vec<G1Point>,
}

/// A vector of scalars.
pub struct ScalarVectorInput {
    scalar_vec: Vec<Scalar>,
}

/// One instance: points and scalars, equally many.
pub struct InstanceObject {
    points: Vec<G1Point>,
    scalars: Vec<Scalar>,
}

/// A sequence of instances.
pub struct InstanceObjectVector {
    instances: Vec<InstanceObject>,
}

impl View for PointVectorInput {
    type V = Seq<G1Point>;

    closed spec fn view(&self) -> Seq<G1Point> {
        self.point_vec@
    }
}

impl View for ScalarVectorInput {
    type V = Seq<Scalar>;

    closed spec fn view(&self) -> Seq<Scalar> {
        self.scalar_vec@
    }
}

impl View for InstanceObject {
    type V = (Seq<G1Point>, Seq<Scalar>);

    closed spec fn view(&self) -> (Seq<G1Point>, Seq<Scalar>) {
        (self.points@, self.scalars@)
    }
}

impl View for InstanceObjectVector {
    type V = Seq<(Seq<G1Point>, Seq<Scalar>)>;

    closed spec fn view(&self) -> Seq<(Seq<G1Point>, Seq<Scalar>)> {
        Seq::new(self.instances@.len(), |i: int| self.instances@[i]@)
    }
}

fn clone_points(v: &Vec<G1Point>) -> (r: Vec<G1Point>)
    ensures
        r@ == v@,
{
    let r = v.clone();
    proof {
        assert(r@ =~= v@);
    }
    r
}

fn clone_scalars(v: &Vec<Scalar>) -> (r: Vec<Scalar>)
    ensures
        r@ == v@,
{
    let mut r: Vec<Scalar> = Vec::new();
    let mut i: usize = 0;
    while i < v.len()
        invariant
            i <= v@.len(),
            r@ == v@.subrange(0, i as int),
        decreases v@.len() - i,
    {
        r.push(v[i]);
        proof {
            assert(r@ =~= v@.subrange(0, i + 1));
        }
        i = i + 1;
    }
    proof {
        assert(v@.subrange(0, v@.len() as int) =~= v@);
    }
    r
}

impl PointVectorInput {
    /// `size` random points, drawn as the points of a generated instance.
    pub fn new(size: usize, rng: &mut StdRng) -> (r: PointVectorInput)
        ensures
            r@.len() == size,
            forall|i: int| 0 <= i < size ==> 0 <= #[trigger] point_log(r@[i]) < group_order(),
    {
        let (point_vec, _) = generator::generate_msm_inputs(size, rng);
        PointVectorInput { point_vec }
    }
}

impl PointVectorInput {
    /// A copy of the points.
    pub fn to_vec(&self) -> (r: Vec<G1Point>)
        ensures
            r@ == self@,
    {
        clone_points(&self.point_vec)
    }
}

impl ScalarVectorInput {
    /// A copy of the scalars.
    pub fn to_vec(&self) -> (r: Vec<Scalar>)
        ensures
            r@ == self@,
    {
        clone_scalars(&self.scalar_vec)
    }
}

impl ScalarVectorInput {
    /// `size` random scalars, drawn as the scalars of a generated instance.
    pub fn new(size: usize, rng: &mut StdRng) -> (r: ScalarVectorInput)
        ensures
            r@.len() == size,
            forall|i: int| 0 <= i < size ==> (#[trigger] r@[i]).value() < group_order(),
    {
        let (_, scalar_vec) = generator::generate_msm_inputs(size, rng);
        ScalarVectorInput { scalar_vec }
    }
}

impl InstanceObject {
    /// The number of points.
    pub fn length(&self) -> (r: usize)
        ensures
            r == self@.0.len(),
    {
        self.points.len()
    }

    /// A copy of the points.
    pub fn points(&self) -> (r: PointVectorInput)
        ensures
            r@ == self@.0,
    {
        PointVectorInput { point_vec: clone_points(&self.points) }
    }

    /// A copy of the scalars.
    pub fn scalars(&self) -> (r: ScalarVectorInput)
        ensures
            r@ == self@.1,
    {
        ScalarVectorInput { scalar_vec: clone_scalars(&self.scalars) }
    }
}

impl InstanceObjectVector {
    /// The number of instances.
    pub fn length(&self) -> (r: usize)
        ensures
            r == self@.len(),
    {
        self.instances.len()
    }

    /// A copy of instance `i`.
    pub fn at(&self, i: usize) -> (r: InstanceObject)
        requires
            i < self@.len(),
        ensures
            r@ == self@[i as int],
    {
        InstanceObject {
            points: clone_points(&self.instances[i].points),
            scalars: clone_scalars(&self.instances[i].scalars),
        }
    }
}

proof fn lemma_instances_concat_step(ps: Seq<Seq<G1Point>>, ss: Seq<Seq<Scalar>>, k: int)
    requires
        ps.len() == ss.len(),
        0 <= k < ps.len(),
    ensures
        instances_concat(ps.subrange(0, k + 1), ss.subrange(0, k + 1))
            == instances_concat(ps.subrange(0, k), ss.subrange(0, k)) + point_vec_bytes(ps[k])
                + scalar_vec_bytes(ss[k]),
{
    assert(ps.subrange(0, k + 1).drop_last() =~= ps.subrange(0, k));
    assert(ss.subrange(0, k + 1).drop_last() =~= ss.subrange(0, k));
}

proof fn lemma_instances_concat_long(ps: Seq<Seq<G1Point>>, ss: Seq<Seq<Scalar>>)
    requires
        ps.len() == ss.len(),
    ensures
        instances_concat(ps, ss).len() >= ps.len(),
    decreases ps.len(),
{
    if ps.len() > 0 {
        lemma_instances_concat_long(ps.drop_last(), ss.drop_last());
        lemma_le_bytes_len(ps.last().len(), 8);
    }
}

/// The instances' encodings grow with each instance: a prefix of the
/// instances is encoded as a prefix of the bytes.
proof fn lemma_instances_prefix(ps: Seq<Seq<G1Point>>, ss: Seq<Seq<Scalar>>, k: int, j: int)
    requires
        ps.len() == ss.len(),
        0 <= k <= j <= ps.len(),
    ensures
        instances_concat(ps.subrange(0, j), ss.subrange(0, j)).subrange(0,
            instances_concat(ps.subrange(0, k), ss.subrange(0, k)).len() as int)
            == instances_concat(ps.subrange(0, k), ss.subrange(0, k)),
        instances_concat(ps.subrange(0, k), ss.subrange(0, k)).len()
            <= instances_concat(ps.subrange(0, j), ss.subrange(0, j)).len(),
    decreases j - k,
{
    let a = instances_concat(ps.subrange(0, k), ss.subrange(0, k));
    if k == j {
        assert(a.subrange(0, a.len() as int) =~= a);
    } else {
        lemma_instances_prefix(ps, ss, k, j - 1);
        lemma_instances_concat_step(ps, ss, j - 1);
        let b = instances_concat(ps.subrange(0, j - 1), ss.subrange(0, j - 1));
        let c = instances_concat(ps.subrange(0, j), ss.subrange(0, j));
        assert(c.subrange(0, a.len() as int) =~= b.subrange(0, a.len() as int));
    }
}

/// Whether `data` is the encoding of the instances whose points are `ps` and
/// whose scalars are `ss`, each instance with equally many of both.
pub open spec fn encodes_instances(data: Seq<u8>, ps: Seq<Seq<G1Point>>, ss: Seq<Seq<Scalar>>) -> bool {
    &&& ps.len() == ss.len()
    &&& forall|i: int| 0 <= i < ps.len() ==> (#[trigger] ps[i]).len() == ss[i].len()
    &&& data == instances_bytes(ps, ss)
}

/// The point vectors of a sequence of instances.
pub open spec fn points_of(v: Seq<(Seq<G1Point>, Seq<Scalar>)>) -> Seq<Seq<G1Point>> {
    Seq::new(v.len(), |i: int| v[i].0)
}

/// The scalar vectors of a sequence of instances.
pub open spec fn scalars_of(v: Seq<(Seq<G1Point>, Seq<Scalar>)>) -> Seq<Seq<Scalar>> {
    Seq::new(v.len(), |i: int| v[i].1)
}

spec fn instance_views(v: Seq<InstanceObject>) -> Seq<(Seq<G1Point>, Seq<Scalar>)> {
    Seq::new(v.len(), |i: int| v[i]@)
}

/// Decodes a sequence of instances: their number (8 bytes, little-endian),
/// then each instance's point vector and scalar vector. It succeeds exactly on
/// data that begins with the encoding of instances whose two vectors have
/// equal length, and returns those instances.
pub fn deserialize_msm_inputs(data: &[u8]) -> (r: Result<InstanceObjectVector, Error>)
    ensures
        r matches Err(e) ==> e == Error::SerializationError,
        r matches Ok(v) ==> starts_with(data@, instances_bytes(points_of(v@), scalars_of(v@)))
            && forall|i: int| 0 <= i < v@.len() ==> (#[trigger] v@[i]).0.len() == v@[i].1.len(),
        forall|ps: Seq<Seq<G1Point>>, ss: Seq<Seq<Scalar>>|
            #[trigger] encodes_instances(data@, ps, ss) ==>
                (r matches Ok(v) && v@ == Seq::new(ps.len(), |i: int| (ps[i], ss[i]))),
{
    let n = data.len();
    if n < 8 {
        proof {
            assert forall|ps: Seq<Seq<G1Point>>, ss: Seq<Seq<Scalar>>|
                #[trigger] encodes_instances(data@, ps, ss) implies false by {
                lemma_le_bytes_len(ps.len(), 8);
            }
        }
        return Err(Error::SerializationError);
    }
    let count = read_u64_le(data, 0);
    let mut instances: Vec<InstanceObject> = Vec::new();
    let mut at: usize = 8;
    let mut k: u64 = 0;
    proof {
        assert(points_of(instance_views(instances@)) =~= Seq::<Seq<G1Point>>::empty());
        assert(instances_concat(points_of(instance_views(instances@)), scalars_of(instance_views(instances@)))
            == Seq::<u8>::empty());
        assert(data@.subrange(0, 8) =~= le_bytes(count as nat, 8) + instances_concat(
            points_of(instance_views(instances@)), scalars_of(instance_views(instances@))));
        assert forall|ps: Seq<Seq<G1Point>>, ss: Seq<Seq<Scalar>>|
            #[trigger] encodes_instances(data@, ps, ss) implies
                ps.len() == count && instances_concat(ps.subrange(0, 0), ss.subrange(0, 0)).len() == 0 by {
            lemma_instances_prefix(ps, ss, 0, ps.len() as int);
            assert(ps.subrange(0, ps.len() as int) =~= ps);
            assert(ss.subrange(0, ss.len() as int) =~= ss);
            assert(ps.subrange(0, 0) =~= Seq::<Seq<G1Point>>::empty());
            assert(data@.subrange(0, data@.len() as int) =~= data@);
            lemma_instances_concat_long(ps, ss);
            lemma_length_read(data@, 0, ps.len(), instances_concat(ps, ss));
        }
    }
    while k < count
        invariant
            n == data@.len(),
            8 <= at <= n,
            k <= count,
            instances@.len() == k,
            data@.subrange(0, at as int) == le_bytes(count as nat, 8) + instances_concat(
                points_of(instance_views(instances@)), scalars_of(instance_views(instances@))),
            forall|i: int| 0 <= i < k ==> (#[trigger] instances@[i])@.0.len() == instances@[i]@.1.len(),
            forall|ps: Seq<Seq<G1Point>>, ss: Seq<Seq<Scalar>>|
                #[trigger] encodes_instances(data@, ps, ss) ==> {
                    &&& ps.len() == count
                    &&& at == 8 + instances_concat(ps.subrange(0, k as int), ss.subrange(0, k as int)).len()
                    &&& forall|i: int| 0 <= i < k ==> (#[trigger] instances@[i])@ == (ps[i], ss[i])
                },
        decreases count - k,
    {
        proof {
            assert forall|ps: Seq<Seq<G1Point>>, ss: Seq<Seq<Scalar>>|
                #[trigger] encodes_instances(data@, ps, ss) implies
                    stands_at(data@, at as int, point_vec_bytes(ps[k as int]))
                    && stands_at(data@, at + point_vec_bytes(ps[k as int]).len(), scalar_vec_bytes(ss[k as int])) by {
                lemma_instances_concat_step(ps, ss, k as int);
                lemma_instances_prefix(ps, ss, k + 1, ps.len() as int);
                assert(ps.subrange(0, ps.len() as int) =~= ps);
                assert(ss.subrange(0, ss.len() as int) =~= ss);
                lemma_le_bytes_len(ps.len(), 8);
                let pre = instances_concat(ps.subrange(0, k as int), ss.subrange(0, k as int));
                let pb = point_vec_bytes(ps[k as int]);
                let sb = scalar_vec_bytes(ss[k as int]);
                let upto = instances_concat(ps.subrange(0, k + 1), ss.subrange(0, k + 1));
                assert(upto == pre + pb + sb);
                assert(data@.subrange(at as int, at + pb.len()) =~= pb) by {
                    assert forall|j: int| 0 <= j < pb.len() implies
                        #[trigger] data@.subrange(at as int, at + pb.len())[j] == pb[j] by {
                        assert(data@[at + j] == instances_concat(ps, ss)[pre.len() + j]);
                        assert(instances_concat(ps, ss)[pre.len() + j] == upto[pre.len() + j]);
                    }
                }
                assert(data@.subrange(at + pb.len(), at + pb.len() + sb.len()) =~= sb) by {
                    assert forall|j: int| 0 <= j < sb.len() implies
                        #[trigger] data@.subrange(at + pb.len(), at + pb.len() + sb.len())[j] == sb[j] by {
                        assert(data@[at + pb.len() + j] == instances_concat(ps, ss)[pre.len() + pb.len() + j]);
                        assert(instances_concat(ps, ss)[pre.len() + pb.len() + j] == upto[pre.len() + pb.len() + j]);
                    }
                }
            }
        }
        let (points, pe) = match decode_points(data, at) {
            Some(x) => x,
            None => { return Err(Error::SerializationError); },
        };
        let (scalars, se) = match decode_scalars(data, pe) {
            Some(x) => x,
            None => { return Err(Error::SerializationError); },
        };
        if points.len() != scalars.len() {
            proof {
                assert forall|ps: Seq<Seq<G1Point>>, ss: Seq<Seq<Scalar>>|
                    #[trigger] encodes_instances(data@, ps, ss) implies false by {
                    assert(ps[k as int].len() == ss[k as int].len());
                }
            }
            return Err(Error::SerializationError);
        }
        let ghost before = instance_views(instances@);
        let inst = InstanceObject { points, scalars };
        proof {
            let pv = points_of(before);
            let sv = scalars_of(before);
            assert(points_of(before.push(inst@)).drop_last() =~= pv);
            assert(scalars_of(before.push(inst@)).drop_last() =~= sv);
            assert(points_of(before.push(inst@)).len() > 0);
            assert(data@.subrange(0, se as int) =~= data@.subrange(0, at as int)
                + data@.subrange(at as int, pe as int) + data@.subrange(pe as int, se as int));
            assert(instance_views(instances@.push(inst)) =~= before.push(inst@));
            assert forall|ps: Seq<Seq<G1Point>>, ss: Seq<Seq<Scalar>>|
                #[trigger] encodes_instances(data@, ps, ss) implies
                    se == 8 + instances_concat(ps.subrange(0, k + 1), ss.subrange(0, k + 1)).len()
                    && inst@ == (ps[k as int], ss[k as int]) by {
                lemma_instances_concat_step(ps, ss, k as int);
            }
        }
        instances.push(inst);
        at = se;
        k = k + 1;
    }
    let r = InstanceObjectVector { instances };
    proof {
        assert(r@ =~= instance_views(instances@));
        lemma_le_bytes_len(count as nat, 8);
        assert(points_of(r@).len() == count);
        assert forall|ps: Seq<Seq<G1Point>>, ss: Seq<Seq<Scalar>>|
            #[trigger] encodes_instances(data@, ps, ss) implies
                r@ == Seq::new(ps.len(), |i: int| (ps[i], ss[i])) by {
            assert(r@ =~= Seq::new(ps.len(), |i: int| (ps[i], ss[i])));
        }
    }
    Ok(r)
}

/// A random instance of `size` pairs.
pub fn generate_msm_inputs(size: usize, rng: &mut StdRng) -> (r: InstanceObject)
    ensures
        r@.0.len() == size,
        r@.1.len() == size,
        forall|i: int| 0 <= i < size ==> (#[trigger] r@.1[i]).value() < group_order(),
        forall|i: int| 0 <= i < size ==> 0 <= #[trigger] point_log(r@.0[i]) < group_order(),
{
    let (points, scalars) = generator::generate_msm_inputs(size, rng);
    InstanceObject { points, scalars }
}

/// Σ sᵢ·Pᵢ by the baseline evaluator.
pub fn compute_msm_baseline(point_vec: &PointVectorInput, scalar_vec: &ScalarVectorInput) -> (r: Result<G1Acc, Error>)
    ensures
        r is Err <==> point_vec@.len() != scalar_vec@.len(),
        r matches Err(e) ==> e == Error::InvalidInput,
        r matches Ok(v) ==> acc_log(v) == msm_spec(point_vec@, scalar_vec@) % group_order(),
{
    crate::msm::compute_msm_baseline(point_vec.point_vec.as_slice(), scalar_vec.scalar_vec.as_slice())
}

/// Σ sᵢ·Pᵢ by the bucket method.
pub fn compute_msm(point_vec: &PointVectorInput, scalar_vec: &ScalarVectorInput) -> (r: Result<G1Acc, Error>)
    ensures
        r is Err <==> point_vec@.len() != scalar_vec@.len(),
        r matches Err(e) ==> e == Error::InvalidInput,
        r matches Ok(v) ==> acc_log(v) == msm_spec(point_vec@, scalar_vec@) % group_order(),
{
    compute_msm_opt(point_vec.point_vec.as_slice(), scalar_vec.scalar_vec.as_slice())
}

} // verus!
