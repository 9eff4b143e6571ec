//! Pippenger's bucket method: scalars are cut into windows of c bits; in each
//! window every point goes to the bucket of its digit, the buckets are brought
//! to affine form with one shared inversion and combined by a running sum of
//! running sums, and the window totals are combined by Horner's rule from the
//! most significant window down.
use vstd::prelude::*;
use vstd::arithmetic::div_mod::lemma_add_mod_noop;
use vstd::arithmetic::power2::{pow2, lemma_pow2_unfold};
use crate::group::{G1Point, G1Acc, point_log, acc_log, group_order, normalize_batch};
use crate::scalar::{Scalar, SCALAR_BITS, MAX_WINDOW_BITS};
use crate::model::{
    weighted_sum, point_logs, digit_coefs, high_coefs, scalar_values, msm_spec, tail_sum,
    tail_weighted, lemma_mod_add_left, lemma_mod_mul_right, lemma_weighted_prefix,
    lemma_weighted_linear, lemma_weighted_ext, lemma_high_split, lemma_high_ends, lemma_tail_zero,
    lemma_tail_update,
};
use crate::msm::Error;

verus! {

/// 2^c as a machine integer.
pub fn pow2_usize(c: usize) -> (r: usize)
    requires
        c <= MAX_WINDOW_BITS,
    ensures
        r == pow2(c as nat),
{
    let mut r: usize = 1;
    let mut j: usize = 0;
    proof {
        vstd::arithmetic::power2::lemma2_to64();
    }
    while j < c
        invariant
            j <= c <= MAX_WINDOW_BITS,
            r == pow2(j as nat),
        decreases c - j,
    {
        proof {
            lemma_pow2_unfold((j + 1) as nat);
            crate::scalar::lemma_pow2_monotone(j as nat, 23);
            vstd::arithmetic::power2::lemma2_to64();
        }
        r = r * 2;
        j = j + 1;
    }
    r
}

/// A table of `n` identities.
pub fn identity_table(n: usize) -> (r: Vec<G1Acc>)
    ensures
        r@.len() == n,
        forall|k: int| 0 <= k < n ==> acc_log(#[trigger] r@[k]) == 0,
{
    let mut r: Vec<G1Acc> = Vec::new();
    let mut k: usize = 0;
    while k < n
        invariant
            k <= n,
            r@.len() == k,
            forall|j: int| 0 <= j < k ==> acc_log(#[trigger] r@[j]) == 0,
        decreases n - k,
    {
        r.push(G1Acc::identity());
        k = k + 1;
    }
    r
}

/// Σ_d d·buckets[d − 1]: the buckets are brought to affine form in one batch,
/// then summed from the highest digit down by a running sum of running sums,
/// so that bucket d is counted d times without a multiplication.
pub(crate) fn reduce_buckets(buckets: &Vec<G1Acc>, Ghost(b): Ghost<Seq<int>>) -> (r: G1Acc)
    requires
        buckets@.len() == b.len(),
        forall|k: int| 0 <= k < b.len() ==> acc_log(#[trigger] buckets@[k]) == b[k] % group_order(),
    ensures
        acc_log(r) == tail_weighted(b, 0) % group_order(),
{
    let affine = normalize_batch(buckets);
    let mut running = G1Acc::identity();
    let mut total = G1Acc::identity();
    let mut k: usize = buckets.len();
    while k > 0
        invariant
            k <= b.len(),
            affine@.len() == b.len(),
            forall|j: int| 0 <= j < b.len() ==> point_log(#[trigger] affine@[j]) == b[j] % group_order(),
            acc_log(running) == tail_sum(b, k as int) % group_order(),
            acc_log(total) == tail_weighted(b, k as int) % group_order(),
        decreases k,
    {
        k = k - 1;
        proof {
            lemma_add_mod_noop(tail_sum(b, k + 1), b[k as int], group_order());
            lemma_add_mod_noop(tail_weighted(b, k + 1), tail_sum(b, k as int), group_order());
        }
        running = running.add_point(&affine[k]);
        total = total.add(&running);
    }
    total
}

/// The total of one window: Σᵢ digit(sᵢ)·Pᵢ, where digit(sᵢ) is the window of
/// `c` bits of sᵢ that starts at bit `start`.
pub fn window_total(points: &[G1Point], scalars: &[Scalar], start: usize, c: usize) -> (r: G1Acc)
    requires
        points@.len() == scalars@.len(),
        start < SCALAR_BITS,
        1 <= c <= MAX_WINDOW_BITS,
    ensures
        acc_log(r) == weighted_sum(point_logs(points@), digit_coefs(scalars@, start as int, c as int))
            % group_order(),
{
    let ghost logs = point_logs(points@);
    let ghost digits = digit_coefs(scalars@, start as int, c as int);
    let full = pow2_usize(c);
    proof {
        vstd::arithmetic::power2::lemma_pow2_pos(c as nat);
    }
    let n_buckets = full - 1;
    let mut buckets = identity_table(n_buckets);
    let ghost mut b: Seq<int> = Seq::new(n_buckets as nat, |k: int| 0int);
    proof {
        lemma_tail_zero(b, 0);
        assert(weighted_sum(logs.subrange(0, 0), digits.subrange(0, 0)) == 0);
        assert forall|k: int| 0 <= k < b.len() implies acc_log(#[trigger] buckets@[k]) == b[k] % group_order() by {
            assert(0int % group_order() == 0);
        }
    }
    let mut i: usize = 0;
    while i < points.len()
        invariant
            i <= points@.len(),
            points@.len() == scalars@.len(),
            start < SCALAR_BITS,
            1 <= c <= MAX_WINDOW_BITS,
            logs == point_logs(points@),
            digits == digit_coefs(scalars@, start as int, c as int),
            n_buckets + 1 == pow2(c as nat),
            buckets@.len() == n_buckets,
            b.len() == n_buckets,
            forall|k: int| 0 <= k < b.len() ==> acc_log(#[trigger] buckets@[k]) == b[k] % group_order(),
            tail_weighted(b, 0) == weighted_sum(logs.subrange(0, i as int), digits.subrange(0, i as int)),
        decreases points@.len() - i,
    {
        let d = scalars[i].window_digit(start, c);
        proof {
            lemma_weighted_prefix(logs, digits, i as int);
        }
        if d != 0 {
            let nb = buckets[d - 1].add_point(&points[i]);
            proof {
                lemma_mod_add_left(b[d - 1], logs[i as int]);
                lemma_tail_update(b, d - 1, logs[i as int], 0);
                assert((d - 1 - 0 + 1) * logs[i as int] == d * logs[i as int]);
            }
            buckets.set(d - 1, nb);
            proof {
                b = b.update(d - 1, b[d - 1] + logs[i as int]);
            }
        } else {
            assert(digits[i as int] == d as int);
            assert(digits[i as int] * logs[i as int] == 0) by (nonlinear_arith)
                requires digits[i as int] == 0;
        }
        i = i + 1;
    }
    proof {
        assert(logs.subrange(0, points@.len() as int) =~= logs);
        assert(digits.subrange(0, points@.len() as int) =~= digits);
    }
    reduce_buckets(&buckets, Ghost(b))
}

/// Horner's rule over the window totals, most significant window first:
/// starting from the top window's total, each lower window doubles the running
/// total c times and adds its own total. With window w's total equal to
/// Σᵢ digit_w(sᵢ)·Pᵢ, the result is Σᵢ sᵢ·Pᵢ.
pub(crate) fn combine_windows(totals: &Vec<G1Acc>, c: usize, Ghost(points): Ghost<Seq<G1Point>>,
    Ghost(scalars): Ghost<Seq<Scalar>>) -> (r: G1Acc)
    requires
        1 <= c <= MAX_WINDOW_BITS,
        points.len() == scalars.len(),
        totals@.len() >= 1,
        totals@.len() * c >= SCALAR_BITS,
        forall|w: int| 0 <= w < totals@.len() ==> #[trigger] (w * c) < SCALAR_BITS,
        forall|w: int| 0 <= w < totals@.len() ==> acc_log(#[trigger] totals@[w])
            == weighted_sum(point_logs(points), digit_coefs(scalars, w * c, c as int)) % group_order(),
    ensures
        acc_log(r) == msm_spec(points, scalars) % group_order(),
{
    let n_windows = totals.len();
    let ghost logs = point_logs(points);
    // Horner's rule over the window totals, most significant first.
    let mut w: usize = n_windows - 1;
    let mut total = totals[w];
    proof {
        let top = (w * c) as int;
        assert(top < SCALAR_BITS);
        assert(top + c >= SCALAR_BITS) by (nonlinear_arith)
            requires top == w * c, w + 1 == n_windows, n_windows * c >= SCALAR_BITS;
        assert forall|i: int| 0 <= i < points.len() implies
            high_coefs(scalars, top)[i] == digit_coefs(scalars, top, c as int)[i] by {
            lemma_high_split(scalars[i], top, c as int);
            lemma_high_ends(scalars[i]);
        }
        lemma_weighted_ext(logs, high_coefs(scalars, top), digit_coefs(scalars, top, c as int));
    }
    while w > 0
        invariant
            w < n_windows,
            n_windows == totals@.len(),
            points.len() == scalars.len(),
            1 <= c <= MAX_WINDOW_BITS,
            logs == point_logs(points),
            forall|v: int| 0 <= v < totals@.len() ==> #[trigger] (v * c) < SCALAR_BITS,
            forall|v: int| 0 <= v < totals@.len() ==> acc_log(#[trigger] totals@[v])
                == weighted_sum(logs, digit_coefs(scalars, v * c, c as int)) % group_order(),
            acc_log(total) == weighted_sum(logs, high_coefs(scalars, w * c)) % group_order(),
        decreases w,
    {
        let ghost upper = weighted_sum(logs, high_coefs(scalars, w * c));
        w = w - 1;
        let mut j: usize = 0;
        proof {
            vstd::arithmetic::power2::lemma2_to64();
        }
        while j < c
            invariant
                j <= c,
                acc_log(total) == (pow2(j as nat) * upper) % group_order(),
            decreases c - j,
        {
            proof {
                lemma_pow2_unfold((j + 1) as nat);
                lemma_mod_mul_right(2, pow2(j as nat) * upper);
                assert(2 * (pow2(j as nat) * upper) == (2 * pow2(j as nat)) * upper) by (nonlinear_arith);
            }
            total = total.double();
            j = j + 1;
        }
        proof {
            let here = (w * c) as int;
            let next = ((w + 1) * c) as int;
            assert(next == here + c) by (nonlinear_arith) requires next == (w + 1) * c, here == w * c;
            assert(#[trigger] ((w + 1) * c) < SCALAR_BITS);
            assert forall|i: int| 0 <= i < points.len() implies
                high_coefs(scalars, here)[i] == digit_coefs(scalars, here, c as int)[i]
                    + pow2(c as nat) * high_coefs(scalars, next)[i] by {
                lemma_high_split(scalars[i], here, c as int);
            }
            lemma_weighted_linear(logs, high_coefs(scalars, here), digit_coefs(scalars, here, c as int),
                high_coefs(scalars, next), pow2(c as nat) as int);
            lemma_add_mod_noop(pow2(c as nat) * upper,
                weighted_sum(logs, digit_coefs(scalars, here, c as int)), group_order());
        }
        total = total.add(&totals[w]);
    }
    proof {
        assert forall|i: int| 0 <= i < points.len() implies
            high_coefs(scalars, 0)[i] == scalar_values(scalars)[i] by {
            lemma_high_ends(scalars[i]);
        }
        lemma_weighted_ext(logs, high_coefs(scalars, 0), scalar_values(scalars));
    }
    total
}

/// Σ sᵢ·Pᵢ by Pippenger's method with windows of `c` bits.
pub fn pippenger_msm(points: &[G1Point], scalars: &[Scalar], c: usize) -> (r: Result<G1Acc, Error>)
    requires
        1 <= c <= MAX_WINDOW_BITS,
    ensures
        r is Err <==> points@.len() != scalars@.len(),
        r matches Err(e) ==> e == Error::InvalidInput,
        r matches Ok(v) ==> acc_log(v) == msm_spec(points@, scalars@) % group_order(),
{
    if points.len() != scalars.len() {
        return Err(Error::InvalidInput);
    }
    let ghost logs = point_logs(points@);
    // One total per window, least significant window first.
    let mut totals: Vec<G1Acc> = Vec::new();
    let mut start: usize = 0;
    while start < SCALAR_BITS
        invariant
            points@.len() == scalars@.len(),
            1 <= c <= MAX_WINDOW_BITS,
            logs == point_logs(points@),
            start == totals@.len() * c,
            start < SCALAR_BITS + c,
            forall|w: int| 0 <= w < totals@.len() ==> #[trigger] (w * c) < SCALAR_BITS,
            forall|w: int| 0 <= w < totals@.len() ==> acc_log(#[trigger] totals@[w])
                == weighted_sum(logs, digit_coefs(scalars@, w * c, c as int)) % group_order(),
        decreases SCALAR_BITS + c - start,
    {
        let t = window_total(points, scalars, start, c);
        proof {
            assert((totals@.len() as int) * c == start);
        }
        totals.push(t);
        start = start + c;
        proof {
            assert(start == totals@.len() * c) by (nonlinear_arith)
                requires start == (totals@.len() - 1) * c + c;
        }
    }
    proof {
        assert(totals@.len() >= 1) by (nonlinear_arith)
            requires start == totals@.len() * c, start >= SCALAR_BITS;
    }
    Ok(combine_windows(&totals, c, Ghost(points@), Ghost(scalars@)))
}

} // verus!
