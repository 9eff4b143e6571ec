//! The arithmetic that the evaluators are specified by: multi-scalar sums over
//! the logarithms of points, window decompositions of scalars, and bucket
//! tables.
use vstd::prelude::*;
use vstd::arithmetic::div_mod::{lemma_add_mod_noop, lemma_mod_twice, lemma_mul_mod_noop_right};
use vstd::arithmetic::power2::pow2;
use crate::group::{G1Point, point_log, group_order};
use crate::scalar::{Scalar, bits_value, lemma_bits_value_concat};

verus! {

/// Σ coefs[i]·logs[i].
pub open spec fn weighted_sum(logs: Seq<int>, coefs: Seq<int>) -> int
    decreases logs.len(),
{
    if logs.len() == 0 {
        0
    } else {
        weighted_sum(logs.drop_last(), coefs.drop_last()) + coefs[logs.len() - 1] * logs[logs.len() - 1]
    }
}

/// The logarithms of a sequence of points.
pub open spec fn point_logs(points: Seq<G1Point>) -> Seq<int> {
    Seq::new(points.len(), |i: int| point_log(points[i]))
}

/// The values of a sequence of scalars.
pub open spec fn scalar_values(scalars: Seq<Scalar>) -> Seq<int> {
    Seq::new(scalars.len(), |i: int| scalars[i].value() as int)
}

/// The window digits of a sequence of scalars.
pub open spec fn digit_coefs(scalars: Seq<Scalar>, start: int, c: int) -> Seq<int> {
    Seq::new(scalars.len(), |i: int| scalars[i].digit(start, c) as int)
}

/// The high parts of a sequence of scalars, from bit `start` upwards.
pub open spec fn high_coefs(scalars: Seq<Scalar>, start: int) -> Seq<int> {
    Seq::new(scalars.len(), |i: int| scalars[i].high(start) as int)
}

/// The logarithm of Σ sᵢ·Pᵢ, before reduction modulo r.
pub open spec fn msm_spec(points: Seq<G1Point>, scalars: Seq<Scalar>) -> int {
    weighted_sum(point_logs(points), scalar_values(scalars))
}

/// The first window that starts at or past the top bit: windows of width c
/// cover the 256 bits of a scalar in ⌈256/c⌉ windows.
pub open spec fn window_count(c: int) -> int {
    (256 + c - 1) / c
}

/// The bit at which window `w` of width `c` starts, clipped at the top.
pub open spec fn window_start(w: int, c: int) -> int {
    if w * c < 256 { w * c } else { 256 }
}

/// Σ_{k' ≥ k} b[k'].
pub open spec fn tail_sum(b: Seq<int>, k: int) -> int
    decreases b.len() - k,
{
    if 0 <= k < b.len() {
        b[k] + tail_sum(b, k + 1)
    } else {
        0
    }
}

/// Σ_{k' ≥ k} (k' − k + 1)·b[k']: what a running sum of running sums from
/// the top of `b` down to `k` accumulates.
pub open spec fn tail_weighted(b: Seq<int>, k: int) -> int
    decreases b.len() - k,
{
    if 0 <= k < b.len() {
        tail_sum(b, k) + tail_weighted(b, k + 1)
    } else {
        0
    }
}

/// Reducing the left operand of a sum first does not change the sum modulo r.
pub proof fn lemma_mod_add_left(x: int, y: int)
    ensures
        ((x % group_order()) + y) % group_order() == (x + y) % group_order(),
{
    let m = group_order();
    lemma_add_mod_noop(x, y, m);
    lemma_add_mod_noop(x % m, y, m);
    lemma_mod_twice(x, m);
}

/// Reducing the right operand of a product first does not change the product
/// modulo r.
pub proof fn lemma_mod_mul_right(k: int, x: int)
    ensures
        (k * (x % group_order())) % group_order() == (k * x) % group_order(),
{
    lemma_mul_mod_noop_right(k, x, group_order());
}

/// One more term of a weighted sum over prefixes.
pub proof fn lemma_weighted_prefix(logs: Seq<int>, coefs: Seq<int>, i: int)
    requires
        0 <= i < logs.len(),
        logs.len() == coefs.len(),
    ensures
        weighted_sum(logs.subrange(0, i + 1), coefs.subrange(0, i + 1))
            == weighted_sum(logs.subrange(0, i), coefs.subrange(0, i)) + coefs[i] * logs[i],
{
    assert(logs.subrange(0, i + 1).drop_last() =~= logs.subrange(0, i));
    assert(coefs.subrange(0, i + 1).drop_last() =~= coefs.subrange(0, i));
}

/// A weighted sum is linear in its coefficients.
pub proof fn lemma_weighted_linear(logs: Seq<int>, a: Seq<int>, b: Seq<int>, c: Seq<int>, k: int)
    requires
        a.len() == logs.len(),
        b.len() == logs.len(),
        c.len() == logs.len(),
        forall|i: int| 0 <= i < logs.len() ==> a[i] == b[i] + k * c[i],
    ensures
        weighted_sum(logs, a) == weighted_sum(logs, b) + k * weighted_sum(logs, c),
    decreases logs.len(),
{
    if logs.len() > 0 {
        let n = logs.len() - 1;
        lemma_weighted_linear(logs.drop_last(), a.drop_last(), b.drop_last(), c.drop_last(), k);
        let (wb, wc, bn, cn, l) = (weighted_sum(logs.drop_last(), b.drop_last()),
            weighted_sum(logs.drop_last(), c.drop_last()), b[n], c[n], logs[n]);
        assert((bn + k * cn) * l + (wb + k * wc) == (wb + bn * l) + k * (wc + cn * l)) by (nonlinear_arith);
    }
}

/// A weighted sum depends only on the coefficients' values.
pub proof fn lemma_weighted_ext(logs: Seq<int>, a: Seq<int>, b: Seq<int>)
    requires
        a.len() == logs.len(),
        b.len() == logs.len(),
        forall|i: int| 0 <= i < logs.len() ==> a[i] == b[i],
    ensures
        weighted_sum(logs, a) == weighted_sum(logs, b),
{
    assert(a =~= b);
}

/// All-zero coefficients give zero.
pub proof fn lemma_weighted_zero(logs: Seq<int>, a: Seq<int>)
    requires
        a.len() == logs.len(),
        forall|i: int| 0 <= i < logs.len() ==> a[i] == 0,
    ensures
        weighted_sum(logs, a) == 0,
    decreases logs.len(),
{
    if logs.len() > 0 {
        lemma_weighted_zero(logs.drop_last(), a.drop_last());
    }
}

/// The high part from bit `start` is the digit there plus 2^c times the high
/// part from the next window.
pub proof fn lemma_high_split(s: Scalar, start: int, c: int)
    requires
        0 <= start <= 256,
        c >= 1,
    ensures
        s.high(start) == s.digit(start, c)
            + pow2(c as nat) * s.high(if start + c < 256 { start + c } else { 256 }),
{
    let e = if start + c < 256 { start + c } else { 256 };
    let bits = s.bits();
    assert(bits.subrange(start, 256) =~= bits.subrange(start, e) + bits.subrange(e, 256));
    lemma_bits_value_concat(bits.subrange(start, e), bits.subrange(e, 256));
    if e == 256 {
        assert(bits.subrange(256, 256) =~= Seq::<bool>::empty());
        assert(s.high(256) == 0);
    }
}

/// The high part from bit 0 is the whole value; past the top it is zero.
pub proof fn lemma_high_ends(s: Scalar)
    ensures
        s.high(0) == s.value(),
        s.high(256) == 0,
{
    assert(s.bits().subrange(0, 256) =~= s.bits());
    assert(s.bits().subrange(256, 256) =~= Seq::<bool>::empty());
}

/// Doubling-and-adding one bit: the high part from `j` is bit j plus twice
/// the high part from j + 1.
pub proof fn lemma_high_step(s: Scalar, j: int)
    requires
        0 <= j < 256,
    ensures
        s.high(j) == (if s.bit(j) { 1int } else { 0int }) + 2 * s.high(j + 1),
{
    assert(s.bits().subrange(j, 256).drop_first() =~= s.bits().subrange(j + 1, 256));
}

/// An all-zero table has a zero running sum of running sums.
pub proof fn lemma_tail_zero(b: Seq<int>, k: int)
    requires
        0 <= k <= b.len(),
        forall|i: int| 0 <= i < b.len() ==> b[i] == 0,
    ensures
        tail_sum(b, k) == 0,
        tail_weighted(b, k) == 0,
    decreases b.len() - k,
{
    if k < b.len() {
        lemma_tail_zero(b, k + 1);
    }
}

/// Adding x to entry j adds x to every tail sum that covers j, and
/// (j − k + 1)·x to the running sum of running sums from k.
pub proof fn lemma_tail_update(b: Seq<int>, j: int, x: int, k: int)
    requires
        0 <= j < b.len(),
        0 <= k <= b.len(),
    ensures
        tail_sum(b.update(j, b[j] + x), k) == tail_sum(b, k) + (if k <= j { x } else { 0 }),
        tail_weighted(b.update(j, b[j] + x), k)
            == tail_weighted(b, k) + (if k <= j { (j - k + 1) * x } else { 0 }),
    decreases b.len() - k,
{
    if k < b.len() {
        lemma_tail_update(b, j, x, k + 1);
        if k <= j {
            assert((j - k + 1) * x == x + (j - (k + 1) + 1) * x) by (nonlinear_arith);
        }
    }
}

} // verus!
