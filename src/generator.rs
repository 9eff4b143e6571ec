//! Instance generation: random scalars, and random points formed as multiples
//! of the generator through one shared table of its doublings.
use vstd::prelude::*;
use vstd::arithmetic::div_mod::lemma_add_mod_noop;
use vstd::arithmetic::power2::{pow2, lemma_pow2_unfold};
use ark_bls12_381::Fr;
use ark_ff::{PrimeField, UniformRand};
use ark_std::rand::rngs::StdRng;
use crate::group::{G1Point, G1Acc, point_log, acc_log, group_order, normalize_batch};
use crate::scalar::{Scalar, SCALAR_BITS, bits_value, lemma_bits_value_concat};
use crate::model::lemma_mod_mul_right;

verus! {

#[verifier::external_type_specification]
#[verifier::external_body]
pub struct ExStdRng(StdRng);

/// Relies on ark_ff's `UniformRand::rand` for the scalar field `Fr` and on
/// `PrimeField::into_bigint`: a uniformly drawn field element, as its
/// canonical representative, which lies below the modulus r.
#[verifier::external_body]
fn random_scalar(rng: &mut StdRng) -> (r: Scalar)
    ensures
        r.value() < group_order(),
{
    Scalar { limbs: Fr::rand(rng).into_bigint().0 }
}

/// The table {G, 2G, 4G, …, 2^255·G} of doublings of the generator, in
/// affine form.
pub fn doubling_table() -> (r: Vec<G1Point>)
    ensures
        r@.len() == SCALAR_BITS,
        forall|i: int| 0 <= i < SCALAR_BITS ==> point_log(#[trigger] r@[i]) == (pow2(i as nat) as int) % group_order(),
{
    let mut x = G1Acc::generator();
    let mut multiples: Vec<G1Acc> = Vec::new();
    proof {
        vstd::arithmetic::power2::lemma2_to64();
        vstd::arithmetic::div_mod::lemma_small_mod(1, group_order() as nat);
    }
    multiples.push(x);
    let mut i: usize = 1;
    while i < SCALAR_BITS
        invariant
            1 <= i <= SCALAR_BITS,
            multiples@.len() == i,
            acc_log(x) == (pow2((i - 1) as nat) as int) % group_order(),
            forall|j: int| 0 <= j < i ==> acc_log(#[trigger] multiples@[j]) == (pow2(j as nat) as int) % group_order(),
        decreases SCALAR_BITS - i,
    {
        proof {
            lemma_pow2_unfold(i as nat);
            lemma_mod_mul_right(2, pow2((i - 1) as nat) as int);
        }
        x = x.double();
        multiples.push(x);
        i = i + 1;
    }
    normalize_batch(&multiples)
}

/// factor·G, summed from the table of doublings over the set bits of factor.
fn point_from_table(table: &Vec<G1Point>, factor: &Scalar) -> (r: G1Acc)
    requires
        table@.len() == SCALAR_BITS,
        forall|i: int| 0 <= i < SCALAR_BITS ==> point_log(#[trigger] table@[i]) == (pow2(i as nat) as int) % group_order(),
    ensures
        acc_log(r) == (factor.value() as int) % group_order(),
{
    let ghost bits = factor.bits();
    let mut p = G1Acc::identity();
    let mut i: usize = 0;
    proof {
        assert(bits.subrange(0, 0) =~= Seq::<bool>::empty());
        assert(bits_value(Seq::<bool>::empty()) == 0);
        assert(0int % group_order() == 0);
    }
    while i < SCALAR_BITS
        invariant
            i <= SCALAR_BITS,
            bits == factor.bits(),
            table@.len() == SCALAR_BITS,
            forall|j: int| 0 <= j < SCALAR_BITS ==> point_log(#[trigger] table@[j]) == (pow2(j as nat) as int) % group_order(),
            acc_log(p) == (bits_value(bits.subrange(0, i as int)) as int) % group_order(),
        decreases SCALAR_BITS - i,
    {
        let ghost v = bits_value(bits.subrange(0, i as int)) as int;
        proof {
            assert(bits.subrange(0, i + 1) =~= bits.subrange(0, i as int) + seq![bits[i as int]]);
            lemma_bits_value_concat(bits.subrange(0, i as int), seq![bits[i as int]]);
            assert(seq![bits[i as int]].drop_first() =~= Seq::<bool>::empty());
            assert(bits_value(Seq::<bool>::empty()) == 0);
            let bv = bits_value(seq![bits[i as int]]);
            assert(bv == if bits[i as int] { 1nat } else { 0nat });
            assert(pow2(i as nat) * bv == if bits[i as int] { pow2(i as nat) } else { 0nat }) by (nonlinear_arith)
                requires bv == if bits[i as int] { 1nat } else { 0nat };
        }
        if factor.bit_at(i) {
            proof {
                lemma_add_mod_noop(v, pow2(i as nat) as int, group_order());
                vstd::arithmetic::div_mod::lemma_mod_twice(v, group_order());
            }
            p = p.add_point(&table[i]);
        }
        i = i + 1;
    }
    proof {
        assert(bits.subrange(0, SCALAR_BITS as int) =~= bits);
    }
    p
}

/// The points factorᵢ·G, in affine form.
pub fn points_from_factors(factors: &[Scalar]) -> (r: Vec<G1Point>)
    ensures
        r@.len() == factors@.len(),
        forall|i: int| 0 <= i < factors@.len() ==> point_log(#[trigger] r@[i]) == (factors@[i].value() as int) % group_order(),
{
    let table = doubling_table();
    let mut points: Vec<G1Acc> = Vec::new();
    let mut i: usize = 0;
    while i < factors.len()
        invariant
            i <= factors@.len(),
            points@.len() == i,
            table@.len() == SCALAR_BITS,
            forall|j: int| 0 <= j < SCALAR_BITS ==> point_log(#[trigger] table@[j]) == (pow2(j as nat) as int) % group_order(),
            forall|j: int| 0 <= j < i ==> acc_log(#[trigger] points@[j]) == (factors@[j].value() as int) % group_order(),
        decreases factors@.len() - i,
    {
        points.push(point_from_table(&table, &factors[i]));
        i = i + 1;
    }
    normalize_batch(&points)
}

/// `n` scalars drawn from `rng`.
pub fn random_scalars(n: usize, rng: &mut StdRng) -> (r: Vec<Scalar>)
    ensures
        r@.len() == n,
        forall|i: int| 0 <= i < n ==> (#[trigger] r@[i]).value() < group_order(),
{
    let mut r: Vec<Scalar> = Vec::new();
    let mut i: usize = 0;
    while i < n
        invariant
            i <= n,
            r@.len() == i,
            forall|j: int| 0 <= j < i ==> (#[trigger] r@[j]).value() < group_order(),
        decreases n - i,
    {
        r.push(random_scalar(rng));
        i = i + 1;
    }
    r
}

/// An instance of `size` random points and `size` random scalars: the
/// scalars are drawn first, then one random factor per point, each point
/// being its factor times the generator: k·G for some k in [0, r).
pub fn generate_msm_inputs(size: usize, rng: &mut StdRng) -> (r: (Vec<G1Point>, Vec<Scalar>))
    ensures
        r.0@.len() == size,
        r.1@.len() == size,
        forall|i: int| 0 <= i < size ==> (#[trigger] r.1@[i]).value() < group_order(),
        forall|i: int| 0 <= i < size ==> 0 <= #[trigger] point_log(r.0@[i]) < group_order(),
{
    let scalars = random_scalars(size, rng);
    let factors = random_scalars(size, rng);
    let points = points_from_factors(&factors);
    proof {
        assert forall|i: int| 0 <= i < size implies 0 <= #[trigger] point_log(points@[i]) < group_order() by {
            vstd::arithmetic::div_mod::lemma_mod_bound(factors@[i].value() as int, group_order());
        }
    }
    (points, scalars)
}

} // verus!
