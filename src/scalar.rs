//! Scalars: 256-bit unsigned integers held as four little-endian 64-bit limbs,
//! with indexed access to their bits and to their window digits.
use vstd::prelude::*;
use vstd::arithmetic::power2::{pow2, lemma_pow2_unfold, lemma_pow2_pos, lemma_pow2_adds};

verus! {

/// The bit width of a scalar.
pub const SCALAR_BITS: usize = 256;

/// The widest window (in bits) that the bucket method accepts: a window of
/// width c keeps a table of 2^c − 1 buckets.
pub const MAX_WINDOW_BITS: usize = 24;

/// A scalar: the canonical integer representative of an element of the scalar
/// field, or any other integer below 2^256.
#[derive(Clone, Copy, Debug, PartialEq, Eq)]
pub struct Scalar {
    /// The 64-bit limbs, least significant first.
    pub limbs: [u64; 4],
}

/// The value of a little-endian sequence of bits.
pub open spec fn bits_value(b: Seq<bool>) -> nat
    decreases b.len(),
{
    if b.len() == 0 {
        0
    } else {
        (if b[0] { 1nat } else { 0nat }) + 2 * bits_value(b.drop_first())
    }
}

/// A value of `b` bits stays below 2^|b|.
pub proof fn lemma_bits_value_bound(b: Seq<bool>)
    ensures
        bits_value(b) < pow2(b.len()),
    decreases b.len(),
{
    if b.len() == 0 {
        assert(pow2(0) == 1) by { vstd::arithmetic::power2::lemma2_to64(); }
    } else {
        lemma_bits_value_bound(b.drop_first());
        lemma_pow2_unfold(b.len());
    }
}

/// The value of a concatenation: the high part is shifted by the low part's
/// width.
pub proof fn lemma_bits_value_concat(a: Seq<bool>, b: Seq<bool>)
    ensures
        bits_value(a + b) == bits_value(a) + pow2(a.len()) * bits_value(b),
    decreases a.len(),
{
    if a.len() == 0 {
        assert(a + b =~= b);
        assert(pow2(0) == 1) by { vstd::arithmetic::power2::lemma2_to64(); }
    } else {
        assert((a + b).drop_first() =~= a.drop_first() + b);
        lemma_bits_value_concat(a.drop_first(), b);
        lemma_pow2_unfold(a.len());
        let p = pow2((a.len() - 1) as nat);
        let v = bits_value(b);
        assert(2 * (p * v) == (2 * p) * v) by (nonlinear_arith);
    }
}

impl Scalar {
    /// Bit `k` of the scalar, counted from the least significant bit.
    pub open spec fn bit(self, k: int) -> bool {
        (self.limbs@[k / 64] >> ((k % 64) as u64)) & 1u64 == 1u64
    }

    /// The 256 bits of the scalar, least significant first.
    pub open spec fn bits(self) -> Seq<bool> {
        Seq::new(256, |k: int| self.bit(k))
    }

    /// The integer value of the scalar.
    pub open spec fn value(self) -> nat {
        bits_value(self.bits())
    }

    /// The digit of width `c` that starts at bit `start`: the bits
    /// [start, start + c), those past the top counting as zero.
    pub open spec fn digit(self, start: int, c: int) -> nat {
        bits_value(self.bits().subrange(start, if start + c < 256 { start + c } else { 256 }))
    }

    /// The value of the bits from `start` upwards: the scalar shifted right by
    /// `start`.
    pub open spec fn high(self, start: int) -> nat {
        bits_value(self.bits().subrange(start, 256))
    }

    /// The scalar whose value is `v`.
    pub fn from_u64(v: u64) -> (r: Scalar)
        ensures
            r.limbs@ == seq![v, 0u64, 0u64, 0u64],
            r.value() == v,
    {
        let r = Scalar { limbs: [v, 0, 0, 0] };
        proof {
            lemma_value_of_limbs(r);
            assert(r.limbs[0] == v && r.limbs[1] == 0 && r.limbs[2] == 0 && r.limbs[3] == 0);
            let b = pow2(64) as int;
            assert(b * (0 + b * (0 + b * 0)) == 0) by (nonlinear_arith);
        }
        r
    }

    /// Bit `k` of the scalar.
    pub fn bit_at(&self, k: usize) -> (r: bool)
        requires
            k < SCALAR_BITS,
        ensures
            r == self.bit(k as int),
    {
        (self.limbs[k / 64] >> ((k % 64) as u64)) & 1u64 == 1u64
    }

    /// The digit of width `c` that starts at bit `start`.
    pub fn window_digit(&self, start: usize, c: usize) -> (r: usize)
        requires
            start < SCALAR_BITS,
            1 <= c <= MAX_WINDOW_BITS,
        ensures
            r == self.digit(start as int, c as int),
            r < pow2(c as nat),
    {
        let end: usize = if start + c < SCALAR_BITS { start + c } else { SCALAR_BITS };
        let ghost bits = self.bits();
        let mut d: usize = 0;
        let mut j: usize = end;
        proof {
            assert(bits.subrange(end as int, end as int) =~= Seq::<bool>::empty());
            lemma_pow2_pos(0);
        }
        while j > start
            invariant
                start <= j <= end,
                end <= SCALAR_BITS,
                end - start <= c,
                c <= MAX_WINDOW_BITS,
                bits == self.bits(),
                d == bits_value(bits.subrange(j as int, end as int)),
            decreases j,
        {
            proof {
                lemma_bits_value_bound(bits.subrange(j as int, end as int));
                lemma_pow2_monotone((end - j) as nat, 23);
                lemma_pow2_23();
            }
            j = j - 1;
            let b = self.bit_at(j);
            proof {
                assert(bits.subrange(j as int, end as int).drop_first()
                    =~= bits.subrange(j + 1, end as int));
            }
            d = 2 * d + if b { 1usize } else { 0usize };
        }
        proof {
            assert(bits.subrange(start as int, end as int).len() == end - start);
            lemma_bits_value_bound(bits.subrange(start as int, end as int));
            lemma_pow2_monotone((end - start) as nat, c as nat);
        }
        d
    }
}

/// The low `k` bits of a 64-bit word, least significant first.
pub open spec fn word_bits(x: u64, k: nat) -> Seq<bool> {
    Seq::new(k, |i: int| (x >> (i as u64)) & 1u64 == 1u64)
}

proof fn lemma_word_bits_value(x: u64, k: nat)
    requires
        k <= 64,
    ensures
        bits_value(word_bits(x, k)) == x as nat % pow2(k),
    decreases k,
{
    vstd::arithmetic::power2::lemma2_to64();
    if k == 0 {
        assert(word_bits(x, 0) =~= Seq::<bool>::empty());
        assert(x as nat % 1 == 0);
    } else {
        let j = (k - 1) as nat;
        lemma_word_bits_value(x, j);
        let b = (x >> (j as u64)) & 1u64 == 1u64;
        assert(word_bits(x, k) =~= word_bits(x, j) + seq![b]);
        lemma_bits_value_concat(word_bits(x, j), seq![b]);
        assert(seq![b].drop_first() =~= Seq::<bool>::empty());
        let y = x >> (j as u64);
        vstd::bits::lemma_u64_shr_is_div(x, j as u64);
        assert(y & 1u64 == y % 2) by (bit_vector);
        lemma_pow2_pos(j);
        lemma_pow2_unfold(k);
        vstd::arithmetic::div_mod::lemma_mod_breakdown(x as int, pow2(j) as int, 2);
        assert(pow2(j) * 2 == pow2(k));
        let bv = bits_value(seq![b]);
        assert(bits_value(Seq::<bool>::empty()) == 0);
        assert(bits_value(seq![b].drop_first()) == 0);
        assert(bv == if b { 1nat } else { 0nat });
        assert(y as int == x as int / pow2(j) as int);
        assert(bv as int == (x as int / pow2(j) as int) % 2);
        assert(bits_value(word_bits(x, k)) == x as nat % pow2(j) + pow2(j) * bv);
    }
}

/// A scalar's value is the integer that its limbs spell in base 2^64.
pub proof fn lemma_value_of_limbs(s: Scalar)
    ensures
        s.value() == s.limbs[0] + pow2(64) * (s.limbs[1] + pow2(64) * (s.limbs[2] + pow2(64) * s.limbs[3])),
{
    let w0 = word_bits(s.limbs[0], 64);
    let w1 = word_bits(s.limbs[1], 64);
    let w2 = word_bits(s.limbs[2], 64);
    let w3 = word_bits(s.limbs[3], 64);
    assert(s.bits() =~= w0 + (w1 + (w2 + w3)));
    lemma_bits_value_concat(w0, w1 + (w2 + w3));
    lemma_bits_value_concat(w1, w2 + w3);
    lemma_bits_value_concat(w2, w3);
    vstd::arithmetic::power2::lemma2_to64();
    lemma_word_bits_value(s.limbs[0], 64);
    lemma_word_bits_value(s.limbs[1], 64);
    lemma_word_bits_value(s.limbs[2], 64);
    lemma_word_bits_value(s.limbs[3], 64);
    vstd::arithmetic::div_mod::lemma_small_mod(s.limbs[0] as nat, pow2(64));
    vstd::arithmetic::div_mod::lemma_small_mod(s.limbs[1] as nat, pow2(64));
    vstd::arithmetic::div_mod::lemma_small_mod(s.limbs[2] as nat, pow2(64));
    vstd::arithmetic::div_mod::lemma_small_mod(s.limbs[3] as nat, pow2(64));
}

/// pow2 grows with its exponent.
pub proof fn lemma_pow2_monotone(a: nat, b: nat)
    requires
        a <= b,
    ensures
        pow2(a) <= pow2(b),
{
    lemma_pow2_adds(a, (b - a) as nat);
    lemma_pow2_pos((b - a) as nat);
    assert(pow2(a) * pow2((b - a) as nat) >= pow2(a)) by (nonlinear_arith)
        requires pow2((b - a) as nat) >= 1;
}

proof fn lemma_pow2_23()
    ensures
        pow2(23) == 0x800000,
{
    vstd::arithmetic::power2::lemma2_to64();
}

} // verus!
