//! The multi-scalar multiplication evaluators: the double-and-add baseline,
//! Pippenger's bucket method, and arkworks' own implementation.
use vstd::prelude::*;
use vstd::arithmetic::power2::pow2;
use crate::group::{G1Point, G1Acc, point_log, acc_log, group_order, ark_msm};
use crate::scalar::{Scalar, SCALAR_BITS, MAX_WINDOW_BITS};
use crate::pippenger::pippenger_msm;

pub use crate::generator::generate_msm_inputs;
pub use crate::digest::hash;
use crate::model::{
    weighted_sum, point_logs, scalar_values, msm_spec, lemma_mod_add_left, lemma_mod_mul_right,
    lemma_weighted_prefix, lemma_high_ends, lemma_high_step,
};

verus! {

/// What can go wrong.
#[derive(Clone, Copy, Debug, PartialEq, Eq, Structural)]
pub enum Error {
    /// The points and the scalars differ in number.
    InvalidInput,
    /// A vector could not be encoded or decoded.
    SerializationError,
    /// A file could not be created, opened, read or written.
    FileOpenError,
}

/// k·P by double-and-add over the 256 bits of k, most significant first.
pub fn scalar_mul(p: &G1Point, k: &Scalar) -> (r: G1Acc)
    ensures
        acc_log(r) == (k.value() * point_log(*p)) % group_order(),
{
    let ghost l = point_log(*p);
    let mut acc = G1Acc::identity();
    let mut j: usize = SCALAR_BITS;
    proof {
        lemma_high_ends(*k);
    }
    while j > 0
        invariant
            j <= SCALAR_BITS,
            l == point_log(*p),
            acc_log(acc) == (k.high(j as int) * l) % group_order(),
        decreases j,
    {
        j = j - 1;
        let ghost h = k.high(j + 1) as int;
        proof {
            lemma_high_step(*k, j as int);
            lemma_mod_mul_right(2, h * l);
            assert(2 * (h * l) == (2 * h) * l) by (nonlinear_arith);
        }
        acc = acc.double();
        if k.bit_at(j) {
            proof {
                lemma_mod_add_left((2 * h) * l, l);
                assert((2 * h) * l + l == (1 + 2 * h) * l) by (nonlinear_arith);
            }
            acc = acc.add_point(p);
            assert(k.high(j as int) == 1 + 2 * h);
        } else {
            assert(k.high(j as int) == 2 * h);
        }
    }
    acc
}

/// Σ sᵢ·Pᵢ, each term by double-and-add: the reference evaluator.
pub fn compute_msm_baseline(points: &[G1Point], scalars: &[Scalar]) -> (r: Result<G1Acc, Error>)
    ensures
        r is Err <==> points@.len() != scalars@.len(),
        r matches Err(e) ==> e == Error::InvalidInput,
        r matches Ok(v) ==> acc_log(v) == msm_spec(points@, scalars@) % group_order(),
{
    if points.len() != scalars.len() {
        return Err(Error::InvalidInput);
    }
    let ghost logs = point_logs(points@);
    let ghost vals = scalar_values(scalars@);
    let mut total = G1Acc::identity();
    let mut i: usize = 0;
    proof {
        assert(weighted_sum(logs.subrange(0, 0), vals.subrange(0, 0)) == 0);
        assert(0int % group_order() == 0);
    }
    while i < points.len()
        invariant
            i <= points@.len(),
            points@.len() == scalars@.len(),
            logs == point_logs(points@),
            vals == scalar_values(scalars@),
            acc_log(total) == weighted_sum(logs.subrange(0, i as int), vals.subrange(0, i as int))
                % group_order(),
        decreases points@.len() - i,
    {
        let t = scalar_mul(&points[i], &scalars[i]);
        proof {
            let w = weighted_sum(logs.subrange(0, i as int), vals.subrange(0, i as int));
            let x = vals[i as int] * logs[i as int];
            lemma_weighted_prefix(logs, vals, i as int);
            vstd::arithmetic::div_mod::lemma_add_mod_noop(w, x, group_order());
        }
        total = total.add(&t);
        i = i + 1;
    }
    proof {
        assert(logs.subrange(0, points@.len() as int) =~= logs);
        assert(vals.subrange(0, points@.len() as int) =~= vals);
    }
    Ok(total)
}

/// Σ sᵢ·Pᵢ by arkworks' multi-scalar multiplication.
pub fn compute_msm(points: &[G1Point], scalars: &[Scalar]) -> (r: Result<G1Acc, Error>)
    requires
        forall|i: int| 0 <= i < scalars@.len() ==> #[trigger] scalars@[i].value() < pow2(255),
    ensures
        r is Err <==> points@.len() != scalars@.len(),
        r matches Err(e) ==> e == Error::InvalidInput,
        r matches Ok(v) ==> acc_log(v) == msm_spec(points@, scalars@) % group_order(),
{
    if points.len() != scalars.len() {
        return Err(Error::InvalidInput);
    }
    Ok(ark_msm(points, scalars))
}

/// The window width that the bucket method uses for `n` pairs: ⌊log2(n)⌋ − 3,
/// kept between 2 and 16. Narrower than log2(n), so that the 2^c buckets of a
/// window cost well under the n additions that fill them.
pub fn default_window_bits(n: usize) -> (c: usize)
    ensures
        2 <= c <= 16,
        c <= MAX_WINDOW_BITS,
        c > 2 ==> pow2((c + 3) as nat) <= n,
        c < 16 ==> n < pow2((c + 4) as nat),
{
    let mut c: usize = 2;
    let mut m: usize = n / 32;
    proof {
        vstd::arithmetic::power2::lemma2_to64();
    }
    while m > 1 && c < 16
        invariant
            2 <= c <= 16,
            m == n as int / pow2((c + 3) as nat) as int,
            c > 2 ==> pow2((c + 3) as nat) <= n,
        decreases m,
    {
        proof {
            let p = pow2((c + 3) as nat) as int;
            vstd::arithmetic::power2::lemma_pow2_pos((c + 3) as nat);
            vstd::arithmetic::power2::lemma_pow2_unfold((c + 4) as nat);
            vstd::arithmetic::div_mod::lemma_fundamental_div_mod(n as int, p);
            vstd::arithmetic::div_mod::lemma_mod_bound(n as int, p);
            assert(n >= 2 * p) by (nonlinear_arith)
                requires n == p * (n as int / p) + n as int % p, n as int / p >= 2, n as int % p >= 0, p > 0;
            vstd::arithmetic::div_mod::lemma_div_denominator(n as int, p, 2);
        }
        m = m / 2;
        c = c + 1;
    }
    proof {
        if c < 16 {
            let p = pow2((c + 3) as nat) as int;
            vstd::arithmetic::power2::lemma_pow2_pos((c + 3) as nat);
            vstd::arithmetic::power2::lemma_pow2_unfold((c + 4) as nat);
            vstd::arithmetic::div_mod::lemma_fundamental_div_mod(n as int, p);
            vstd::arithmetic::div_mod::lemma_mod_bound(n as int, p);
            assert(n < 2 * p) by (nonlinear_arith)
                requires n == p * (n as int / p) + n as int % p, n as int / p <= 1, n as int % p < p, p > 0;
        }
    }
    c
}

/// Σ sᵢ·Pᵢ by the bucket method, with the window width of
/// `default_window_bits`.
pub fn compute_msm_opt(points: &[G1Point], scalars: &[Scalar]) -> (r: Result<G1Acc, Error>)
    ensures
        r is Err <==> points@.len() != scalars@.len(),
        r matches Err(e) ==> e == Error::InvalidInput,
        r matches Ok(v) ==> acc_log(v) == msm_spec(points@, scalars@) % group_order(),
{
    pippenger_msm(points, scalars, default_window_bits(points.len()))
}

} // verus!
