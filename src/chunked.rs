//! The incremental form of the bucket method: pairs are added one at a time
//! into per-window bucket tables of fixed size, and the result is formed when
//! the accumulator is finalized. Memory stays at 2^c − 1 buckets per window
//! however many pairs are added.
use vstd::prelude::*;
use vstd::arithmetic::power2::pow2;
use crate::group::{G1Point, G1Acc, acc_log, point_log, group_order};
use crate::scalar::{Scalar, SCALAR_BITS, MAX_WINDOW_BITS};
use crate::model::{
    weighted_sum, point_logs, digit_coefs, msm_spec, tail_weighted, lemma_mod_add_left,
    lemma_tail_zero, lemma_tail_update,
};
use crate::pippenger::{pow2_usize, identity_table, reduce_buckets, combine_windows};
use crate::msm::{Error, default_window_bits};

verus! {

/// The number of windows of width `c` that cover the bits of a scalar.
pub fn window_count(c: usize) -> (n: usize)
    requires
        1 <= c <= MAX_WINDOW_BITS,
    ensures
        1 <= n <= SCALAR_BITS,
        n * c >= SCALAR_BITS,
        forall|w: int| 0 <= w < n ==> #[trigger] (w * c) < SCALAR_BITS,
{
    let mut n: usize = 0;
    let mut start: usize = 0;
    while start < SCALAR_BITS
        invariant
            1 <= c <= MAX_WINDOW_BITS,
            start == n * c,
            n <= start,
            start < SCALAR_BITS + c,
            forall|w: int| 0 <= w < n ==> #[trigger] (w * c) < SCALAR_BITS,
        decreases SCALAR_BITS + c - start,
    {
        proof {
            assert((n as int) * c == start);
        }
        n = n + 1;
        start = start + c;
        proof {
            assert(start == n * c) by (nonlinear_arith)
                requires start == (n - 1) * c + c;
        }
    }
    proof {
        assert(n >= 1) by (nonlinear_arith)
            requires start == n * c, start >= SCALAR_BITS;
        assert(n <= SCALAR_BITS) by (nonlinear_arith)
            requires start == n * c, start < SCALAR_BITS + c, c >= 1;
    }
    n
}

/// An incremental multi-scalar multiplication with windows of a fixed width.
pub struct ChunkedPippenger {
    c: usize,
    n_windows: usize,
    /// `buckets[w][k]` holds the sum of the added points whose digit in window
    /// `w` is k + 1.
    buckets: Vec<Vec<G1Acc>>,
    points: Ghost<Seq<G1Point>>,
    scalars: Ghost<Seq<Scalar>>,
    /// The logarithms that the buckets hold, before reduction modulo r.
    tables: Ghost<Seq<Seq<int>>>,
}

impl ChunkedPippenger {
    /// The points added so far, in order.
    pub closed spec fn added_points(&self) -> Seq<G1Point> {
        self.points@
    }

    /// The scalars added so far, in order.
    pub closed spec fn added_scalars(&self) -> Seq<Scalar> {
        self.scalars@
    }

    /// The window width.
    pub closed spec fn window_bits(&self) -> nat {
        self.c as nat
    }

    /// The buckets of every window hold the sums of the added points by digit.
    pub closed spec fn wf(&self) -> bool {
        &&& 1 <= self.c <= MAX_WINDOW_BITS
        &&& 1 <= self.n_windows <= SCALAR_BITS
        &&& self.n_windows * self.c >= SCALAR_BITS
        &&& forall|w: int| 0 <= w < self.n_windows ==> #[trigger] (w * self.c) < SCALAR_BITS
        &&& self.buckets@.len() == self.n_windows
        &&& self.tables@.len() == self.n_windows
        &&& self.points@.len() == self.scalars@.len()
        &&& forall|w: int| 0 <= w < self.n_windows ==> {
            &&& (#[trigger] self.buckets@[w])@.len() + 1 == pow2(self.c as nat)
            &&& self.tables@[w].len() == self.buckets@[w]@.len()
            &&& forall|k: int| 0 <= k < self.tables@[w].len() ==>
                acc_log(#[trigger] self.buckets@[w]@[k]) == self.tables@[w][k] % group_order()
            &&& tail_weighted(self.tables@[w], 0) == weighted_sum(point_logs(self.points@),
                digit_coefs(self.scalars@, w * self.c, self.c as int))
        }
    }

    /// An empty accumulator whose bucket tables suit a budget of about
    /// `budget` resident points: windows of about log2(budget) bits.
    pub fn new(budget: usize) -> (r: ChunkedPippenger)
        ensures
            r.wf(),
            r.added_points().len() == 0,
            r.added_scalars().len() == 0,
    {
        let c = default_window_bits(budget);
        let n_windows = window_count(c);
        let full = pow2_usize(c);
        proof {
            vstd::arithmetic::power2::lemma_pow2_pos(c as nat);
        }
        let n_buckets = full - 1;
        let mut buckets: Vec<Vec<G1Acc>> = Vec::new();
        let ghost zeros: Seq<int> = Seq::new(n_buckets as nat, |k: int| 0int);
        proof {
            lemma_tail_zero(zeros, 0);
            assert(0int % group_order() == 0);
            assert(weighted_sum(point_logs(Seq::<G1Point>::empty()), Seq::<int>::empty()) == 0);
        }
        let mut w: usize = 0;
        while w < n_windows
            invariant
                w <= n_windows,
                buckets@.len() == w,
                n_buckets + 1 == pow2(c as nat),
                zeros == Seq::new(n_buckets as nat, |k: int| 0int),
                forall|v: int| 0 <= v < w ==> {
                    &&& (#[trigger] buckets@[v])@.len() == n_buckets
                    &&& forall|k: int| 0 <= k < n_buckets ==> acc_log(#[trigger] buckets@[v]@[k]) == 0
                },
            decreases n_windows - w,
        {
            buckets.push(identity_table(n_buckets));
            w = w + 1;
        }
        let r = ChunkedPippenger {
            c,
            n_windows,
            buckets,
            points: Ghost(Seq::empty()),
            scalars: Ghost(Seq::empty()),
            tables: Ghost(Seq::new(n_windows as nat, |w: int| zeros)),
        };
        proof {
            assert forall|v: int| 0 <= v < n_windows implies tail_weighted(r.tables@[v], 0)
                == weighted_sum(point_logs(r.points@), digit_coefs(r.scalars@, v * c, c as int)) by {
                assert(point_logs(r.points@).len() == 0);
            }
        }
        r
    }

    /// Adds the pair (point, scalar): in every window, the point goes into the
    /// bucket of the scalar's digit there.
    pub fn add(&mut self, point: G1Point, scalar: &Scalar)
        requires
            old(self).wf(),
        ensures
            final(self).wf(),
            final(self).added_points() == old(self).added_points().push(point),
            final(self).added_scalars() == old(self).added_scalars().push(*scalar),
            final(self).window_bits() == old(self).window_bits(),
    {
        let ghost old_points = self.points@;
        let ghost old_scalars = self.scalars@;
        let ghost new_points = old_points.push(point);
        let ghost new_scalars = old_scalars.push(*scalar);
        let ghost l = point_log(point);
        let c = self.c;
        proof {
            assert(point_logs(new_points).drop_last() =~= point_logs(old_points));
            assert(self.wf());
            assert forall|v: int| 0 <= v < self.n_windows implies tail_weighted(#[trigger] self.tables@[v], 0)
                == weighted_sum(point_logs(old_points), digit_coefs(old_scalars, v * c, c as int)) by {
                assert(self.buckets@[v]@.len() + 1 == pow2(c as nat));
            }
        }
        let mut w: usize = 0;
        while w < self.n_windows
            invariant
                w <= self.n_windows,
                self.c == c,
                1 <= c <= MAX_WINDOW_BITS,
                1 <= self.n_windows <= SCALAR_BITS,
                self.n_windows * c >= SCALAR_BITS,
                forall|v: int| 0 <= v < self.n_windows ==> #[trigger] (v * c) < SCALAR_BITS,
                self.buckets@.len() == self.n_windows,
                self.tables@.len() == self.n_windows,
                self.points@ == old_points,
                self.scalars@ == old_scalars,
                old_points.len() == old_scalars.len(),
                new_points == old_points.push(point),
                new_scalars == old_scalars.push(*scalar),
                l == point_log(point),
                point_logs(new_points).drop_last() == point_logs(old_points),
                forall|v: int| 0 <= v < self.n_windows ==> {
                    &&& (#[trigger] self.buckets@[v])@.len() + 1 == pow2(c as nat)
                    &&& self.tables@[v].len() == self.buckets@[v]@.len()
                    &&& forall|k: int| 0 <= k < self.tables@[v].len() ==>
                        acc_log(#[trigger] self.buckets@[v]@[k]) == self.tables@[v][k] % group_order()
                },
                forall|v: int| w <= v < self.n_windows ==> tail_weighted(#[trigger] self.tables@[v], 0)
                    == weighted_sum(point_logs(old_points), digit_coefs(old_scalars, v * c, c as int)),
                forall|v: int| 0 <= v < w ==> tail_weighted(#[trigger] self.tables@[v], 0)
                    == weighted_sum(point_logs(new_points), digit_coefs(new_scalars, v * c, c as int)),
            decreases self.n_windows - w,
        {
            let start = w * c;
            assert(start < SCALAR_BITS) by {
                assert(#[trigger] ((w as int) * c) < SCALAR_BITS);
            }
            let d = scalar.window_digit(start, c);
            let ghost t = self.tables@[w as int];
            proof {
                assert(digit_coefs(new_scalars, start as int, c as int).drop_last()
                    =~= digit_coefs(old_scalars, start as int, c as int));
                assert(digit_coefs(new_scalars, start as int, c as int)[old_points.len() as int] == d);
                assert(point_logs(new_points)[old_points.len() as int] == l);
            }
            if d != 0 {
                let nb = self.buckets[w][d - 1].add_point(&point);
                proof {
                    lemma_mod_add_left(t[d - 1], l);
                    lemma_tail_update(t, d - 1, l, 0);
                    assert((d - 1 - 0 + 1) * l == d * l);
                }
                self.buckets[w].set(d - 1, nb);
                proof {
                    self.tables@ = self.tables@.update(w as int, t.update(d - 1, t[d - 1] + l));
                }
            } else {
                assert(0 * l == 0);
            }
            w = w + 1;
        }
        proof {
            self.points@ = new_points;
            self.scalars@ = new_scalars;
        }
    }

    /// Adds the pairs of a chunk, in order.
    pub fn add_chunk(&mut self, points: &[G1Point], scalars: &[Scalar]) -> (r: Result<(), Error>)
        requires
            old(self).wf(),
        ensures
            final(self).wf(),
            final(self).window_bits() == old(self).window_bits(),
            r is Err <==> points@.len() != scalars@.len(),
            r matches Err(e) ==> e == Error::InvalidInput && *final(self) == *old(self),
            r is Ok ==> final(self).added_points() == old(self).added_points() + points@,
            r is Ok ==> final(self).added_scalars() == old(self).added_scalars() + scalars@,
    {
        if points.len() != scalars.len() {
            return Err(Error::InvalidInput);
        }
        let mut i: usize = 0;
        while i < points.len()
            invariant
                i <= points@.len(),
                points@.len() == scalars@.len(),
                self.wf(),
                self.window_bits() == old(self).window_bits(),
                self.added_points() == old(self).added_points() + points@.subrange(0, i as int),
                self.added_scalars() == old(self).added_scalars() + scalars@.subrange(0, i as int),
            decreases points@.len() - i,
        {
            self.add(points[i], &scalars[i]);
            proof {
                assert(old(self).added_points() + points@.subrange(0, i + 1)
                    =~= (old(self).added_points() + points@.subrange(0, i as int)).push(points@[i as int]));
                assert(old(self).added_scalars() + scalars@.subrange(0, i + 1)
                    =~= (old(self).added_scalars() + scalars@.subrange(0, i as int)).push(scalars@[i as int]));
            }
            i = i + 1;
        }
        proof {
            assert(points@.subrange(0, points@.len() as int) =~= points@);
            assert(scalars@.subrange(0, scalars@.len() as int) =~= scalars@);
        }
        Ok(())
    }

    /// Σ sᵢ·Pᵢ over the pairs added: each window's buckets are brought to
    /// affine form in one batch and combined, and the window totals are
    /// combined by Horner's rule. Consumes the accumulator.
    pub fn finalize(self) -> (r: G1Acc)
        requires
            self.wf(),
        ensures
            acc_log(r) == msm_spec(self.added_points(), self.added_scalars()) % group_order(),
    {
        let c = self.c;
        let mut totals: Vec<G1Acc> = Vec::new();
        let mut w: usize = 0;
        while w < self.n_windows
            invariant
                self.wf(),
                self.c == c,
                w <= self.n_windows,
                totals@.len() == w,
                forall|v: int| 0 <= v < w ==> acc_log(#[trigger] totals@[v])
                    == weighted_sum(point_logs(self.points@), digit_coefs(self.scalars@, v * c, c as int))
                        % group_order(),
            decreases self.n_windows - w,
        {
            assert(self.tables@[w as int].len() == self.buckets@[w as int]@.len());
            let t = reduce_buckets(&self.buckets[w], Ghost(self.tables@[w as int]));
            totals.push(t);
            w = w + 1;
        }
        combine_windows(&totals, c, Ghost(self.points@), Ghost(self.scalars@))
    }
}

} // verus!
