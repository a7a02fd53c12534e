//! Correctly rounded binary32 arithmetic on bit patterns.
//!
//! Each operation is specified on values: the exact real result, rounded to
//! the nearest encodable magnitude with ties to even, and the usual rules for
//! signed zeros, infinities and NaN. The executable versions work on the
//! patterns with integer arithmetic only.

use vstd::prelude::*;
use vstd::arithmetic::power2::*;
use vstd::arithmetic::div_mod::*;
use vstd::bits::*;
use crate::binary32::{
    Binary32, Value, HIDDEN_BIT, INFINITY_BITS, NAN_BITS, ONE_BITS, SIGN_BIT, abs_bits, negated,
    overflow_threshold, rank, unit, lemma_infinity_magnitude, lemma_magnitude_monotonic,
    lemma_one_magnitude,
};
use crate::rounding::{
    SIGNIFICAND_LIMIT, encodable, round_half_even, round_pack, round_scaled, round_to_binary32,
    rounded_value, bit_length, lemma_binade_unique, lemma_encode, lemma_round_encodable,
    lemma_round_half_even_bounds, lemma_round_half_even_scale, lemma_round_scale,
    lemma_round_zero, lemma_scaled_fits,
};

verus! {

/// The product of two values, rounded.
pub open spec fn product(a: Value, b: Value) -> Value {
    match a {
        Value::Nan => Value::Nan,
        Value::Infinite { negative: na } => match b {
            Value::Nan => Value::Nan,
            Value::Infinite { negative: nb } => Value::Infinite { negative: na != nb },
            Value::Finite { negative: nb, magnitude: mb } => if mb == 0 {
                Value::Nan
            } else {
                Value::Infinite { negative: na != nb }
            },
        },
        Value::Finite { negative: na, magnitude: ma } => match b {
            Value::Nan => Value::Nan,
            Value::Infinite { negative: nb } => if ma == 0 {
                Value::Nan
            } else {
                Value::Infinite { negative: na != nb }
            },
            Value::Finite { negative: nb, magnitude: mb } => rounded_value(
                na != nb,
                round_to_binary32(ma * mb, unit()),
            ),
        },
    }
}

/// The sum of two values, rounded. An exact zero is negative only when both
/// operands are.
pub open spec fn sum(a: Value, b: Value) -> Value {
    match a {
        Value::Nan => Value::Nan,
        Value::Infinite { negative: na } => match b {
            Value::Nan => Value::Nan,
            Value::Infinite { negative: nb } => if na == nb {
                a
            } else {
                Value::Nan
            },
            Value::Finite { .. } => a,
        },
        Value::Finite { negative: na, magnitude: ma } => match b {
            Value::Nan => Value::Nan,
            Value::Infinite { .. } => b,
            Value::Finite { negative: nb, magnitude: mb } => {
                let exact = rank(a) + rank(b);
                if exact == 0 {
                    Value::Finite { negative: na && nb, magnitude: 0 }
                } else if exact > 0 {
                    rounded_value(false, round_to_binary32(exact as nat, 1))
                } else {
                    rounded_value(true, round_to_binary32((-exact) as nat, 1))
                }
            },
        },
    }
}

/// The difference of two values, rounded.
pub open spec fn difference(a: Value, b: Value) -> Value {
    sum(a, negated(b))
}

/// The value of a whole number.
pub open spec fn whole(n: nat) -> Value {
    Value::Finite { negative: false, magnitude: n * unit() }
}

/// The value of `n / 255`, rounded, for a byte `n`.
pub open spec fn byte_fraction(n: u8) -> Value {
    Value::Finite { negative: false, magnitude: round_to_binary32(n as nat * unit(), 255) }
}

/// The byte that a value converts to: the value truncated toward zero and
/// kept within 0 and 255; NaN converts to 0.
pub open spec fn to_byte(v: Value) -> u8 {
    match v {
        Value::Nan => 0,
        Value::Infinite { negative } => if negative {
            0
        } else {
            255
        },
        Value::Finite { negative, magnitude } => if negative {
            0
        } else if magnitude / unit() >= 255 {
            255
        } else {
            (magnitude / unit()) as u8
        },
    }
}

/// The exact product of two encoded magnitudes, rounded, is what `round_scaled`
/// yields for the product of the significands.
pub proof fn lemma_product_form(ma: nat, ka: nat, mb: nat, kb: nat)
    ensures
        round_to_binary32((ma * pow2(ka)) * (mb * pow2(kb)), unit()) == round_scaled(
            ma * mb,
            ka + kb - 149,
        ),
{
    let p = ma * mb;
    let s = ka + kb;
    lemma_pow2_adds(ka, kb);
    lemma_pow2_pos(149);
    assert((ma * pow2(ka)) * (mb * pow2(kb)) == p * pow2(s)) by (nonlinear_arith)
        requires
            p == ma * mb,
            pow2(s) == pow2(ka) * pow2(kb),
    ;
    if s >= 149 {
        let t = (s - 149) as nat;
        lemma_pow2_adds(t, 149);
        assert(p * pow2(s) == (p * pow2(t)) * pow2(149)) by (nonlinear_arith)
            requires
                pow2(s) == pow2(t) * pow2(149),
        ;
        assert(1 * pow2(149) == pow2(149));
        lemma_round_scale(p * pow2(t), 1, pow2(149));
    } else {
        let nt = (149 - s) as nat;
        lemma_pow2_adds(nt, s);
        lemma_pow2_pos(nt);
        lemma_pow2_pos(s);
        lemma_round_scale(p, pow2(nt), pow2(s));
    }
}

/// Adding a much smaller number to a normal one returns the normal one.
pub proof fn lemma_far_sum(m: nat, k: nat, small: nat)
    requires
        encodable(m, k),
        k > 0,
        4 * small < pow2(k),
    ensures
        round_to_binary32(m * pow2(k) + small, 1) == m * pow2(k),
{
    let p = pow2(k);
    let s = m * p + small;
    lemma2_to64();
    lemma_pow2_adds(24, k);
    lemma_pow2_adds(23, k);
    assert(pow2(23) * p <= s < 1 * (pow2(24) * p)) by (nonlinear_arith)
        requires
            s == m * p + small,
            pow2(23) <= m < pow2(24),
            0 <= 4 * small < p,
    ;
    lemma_binade_unique(s, 1, k);
    assert(1 * p == p);
    lemma_fundamental_div_mod_converse(s as int, p as int, m as int, small as int);
}

/// Subtracting a much smaller number from a normal one returns the normal one.
pub proof fn lemma_far_difference(m: nat, k: nat, small: nat)
    requires
        encodable(m, k),
        k > 1,
        0 < small,
        4 * small < pow2(k),
    ensures
        m * pow2(k) > small,
        round_to_binary32((m * pow2(k) - small) as nat, 1) == m * pow2(k),
{
    let p = pow2(k);
    lemma2_to64();
    lemma_pow2_adds(24, k);
    lemma_pow2_adds(23, k);
    lemma_pow2_unfold(k);
    let h = pow2((k - 1) as nat);
    assert(m * p >= pow2(23) * p > small) by (nonlinear_arith)
        requires
            m >= pow2(23),
            pow2(23) == 0x80_0000,
            4 * small < p,
    ;
    let s = (m * p - small) as nat;
    if m > HIDDEN_BIT {
        assert(pow2(23) * p <= s < 1 * (pow2(24) * p)) by (nonlinear_arith)
            requires
                s == m * p - small,
                pow2(23) < m < pow2(24),
                0 < 4 * small < p,
        ;
        lemma_binade_unique(s, 1, k);
        assert(1 * p == p);
        assert(s == (m - 1) * p + (p - small)) by (nonlinear_arith)
            requires
                s == m * p - small,
        ;
        lemma_fundamental_div_mod_converse(s as int, p as int, m - 1, p - small);
    } else {
        lemma_pow2_adds(24, (k - 1) as nat);
        lemma_pow2_adds(23, (k - 1) as nat);
        assert(pow2(23) * h <= s < 1 * (pow2(24) * h)) by (nonlinear_arith)
            requires
                s == m * p - small,
                m == pow2(23),
                pow2(24) == 2 * pow2(23),
                p == 2 * h,
                0 < 4 * small < p,
                pow2(23) == 0x80_0000,
        ;
        lemma_binade_unique(s, 1, (k - 1) as nat);
        assert(1 * h == h);
        assert(s == (SIGNIFICAND_LIMIT - 1) * h + (h - small) && SIGNIFICAND_LIMIT * h == m * p)
            by (nonlinear_arith)
            requires
                s == m * p - small,
                m == HIDDEN_BIT,
                p == 2 * h,
        ;
        lemma_fundamental_div_mod_converse(
            s as int,
            h as int,
            SIGNIFICAND_LIMIT - 1,
            h - small,
        );
    }
}

/// A whole number below 2^24 is encodable: with `l` its bit length, it is
/// `(n * 2^(24 - l)) * 2^(125 + l)` units.
pub proof fn lemma_whole_encodable(n: nat, l: nat)
    requires
        0 < l <= 24,
        pow2((l - 1) as nat) <= n < pow2(l),
    ensures
        n * unit() == (n * pow2((24 - l) as nat)) * pow2(125 + l),
        encodable(n * pow2((24 - l) as nat), 125 + l),
        round_to_binary32(n * unit(), 1) == n * unit(),
        n * unit() < overflow_threshold(),
{
    let up = pow2((24 - l) as nat);
    lemma2_to64();
    lemma_pow2_adds((24 - l) as nat, 125 + l);
    lemma_pow2_adds((l - 1) as nat, (24 - l) as nat);
    lemma_pow2_pos((24 - l) as nat);
    lemma_scaled_fits(n, l, (24 - l) as nat);
    assert(n * pow2(149) == (n * up) * pow2(125 + l)) by (nonlinear_arith)
        requires
            pow2(149) == up * pow2(125 + l),
    ;
    assert(n * up >= pow2((l - 1) as nat) * up) by (nonlinear_arith)
        requires
            n >= pow2((l - 1) as nat),
            up > 0,
    ;
    lemma_round_encodable(n * up, 125 + l);
    lemma_pow2_adds(24, 125 + l);
    lemma_pow2_strictly_increases(149 + l, 277);
    lemma_pow2_pos(125 + l);
    assert((n * up) * pow2(125 + l) < pow2(24) * pow2(125 + l)) by (nonlinear_arith)
        requires
            n * up < pow2(24),
            pow2(125 + l) > 0,
    ;
}

impl Binary32 {
    /// A zero of the given sign.
    pub fn zero(negative: bool) -> (r: Binary32)
        ensures
            r@ == (Value::Finite { negative, magnitude: 0 }),
    {
        Binary32 { bits: if negative { SIGN_BIT } else { 0 } }
    }

    /// An infinity of the given sign.
    pub fn infinity(negative: bool) -> (r: Binary32)
        ensures
            r@ == (Value::Infinite { negative }),
    {
        Binary32 { bits: if negative { INFINITY_BITS + SIGN_BIT } else { INFINITY_BITS } }
    }

    /// A NaN.
    pub fn nan() -> (r: Binary32)
        ensures
            r@ is Nan,
    {
        Binary32 { bits: NAN_BITS }
    }

    /// The number 1.
    pub fn one() -> (r: Binary32)
        ensures
            r@ == whole(1),
    {
        proof {
            lemma_one_magnitude();
            assert(1 * unit() == unit());
        }
        Binary32 { bits: ONE_BITS }
    }

    /// Binade and significand of a finite number: its magnitude is `m * 2^k`.
    pub fn parts(self) -> (r: (u32, u32))
        requires
            self@ is Finite,
        ensures
            r.0 <= 253,
            encodable(r.1 as nat, r.0 as nat),
            r.1 * pow2(r.0 as nat) == self@->Finite_magnitude,
            r.0 * HIDDEN_BIT + r.1 == abs_bits(self.bits),
    {
        let a = self.magnitude_bits();
        let e = a / HIDDEN_BIT;
        let f = a % HIDDEN_BIT;
        proof {
            lemma2_to64();
        }
        if e == 0 {
            (0, f)
        } else {
            (e - 1, f + HIDDEN_BIT)
        }
    }

    /// The value of a byte, exactly.
    pub fn from_u8(n: u8) -> (r: Binary32)
        ensures
            r@ == whole(n as nat),
    {
        if n == 0 {
            assert(0 * unit() == 0);
            return Binary32 { bits: 0 };
        }
        let l: u32 = bit_length(n as u64);
        proof {
            lemma2_to64();
            if l > 8 {
                if l > 9 {
                    lemma_pow2_strictly_increases(8, (l - 1) as nat);
                }
                assert(false);
            }
            lemma_whole_encodable(n as nat, l as nat);
            lemma_u32_shl_is_mul(n as u32, (24 - l) as u32);
            lemma_encode((125 + l) as nat, n as nat * pow2((24 - l) as nat));
            lemma_infinity_magnitude();
        }
        let m: u32 = (n as u32) << (24 - l);
        let k: u32 = 125 + l;
        Binary32 { bits: k * HIDDEN_BIT + m }
    }

    /// The number as a byte: truncated toward zero and kept within 0 and 255;
    /// NaN gives 0.
    pub fn to_u8(self) -> (n: u8)
        ensures
            n == to_byte(self@),
    {
        if self.is_nan() || self.is_sign_negative() {
            return 0;
        }
        if self.is_infinite() {
            return 255;
        }
        let (k, m) = self.parts();
        proof {
            lemma2_to64();
            lemma_pow2_pos(149);
            lemma_pow2_pos(k as nat);
        }
        if k >= 134 {
            proof {
                // At least 2^23 * 2^134 units, which is 256.
                lemma_pow2_adds(8, 149);
                lemma_pow2_adds(23, 134);
                if k > 134 {
                    lemma_pow2_strictly_increases(134, k as nat);
                }
                assert(m * pow2(k as nat) >= 256 * pow2(149)) by (nonlinear_arith)
                    requires
                        m >= pow2(23),
                        pow2(k as nat) >= pow2(134),
                        pow2(23) * pow2(134) == pow2(8) * pow2(149),
                        pow2(8) == 256,
                ;
                lemma_div_is_ordered(
                    (256 * pow2(149)) as int,
                    (m * pow2(k as nat)) as int,
                    pow2(149) as int,
                );
                lemma_div_by_multiple(256, pow2(149) as int);
            }
            return 255;
        }
        let s: u32 = 149 - k;
        proof {
            // m * 2^k / 2^149 == m / 2^s
            lemma_pow2_adds(s as nat, k as nat);
            lemma_pow2_pos(s as nat);
            lemma_div_multiples_vanish_quotient(pow2(k as nat) as int, m as int, pow2(s as nat) as int);
            assert(pow2(k as nat) * m == m * pow2(k as nat)) by (nonlinear_arith);
            assert(pow2(k as nat) * pow2(s as nat) == pow2(149)) by (nonlinear_arith)
                requires
                    pow2(149) == pow2(s as nat) * pow2(k as nat),
            ;
            assert((m * pow2(k as nat)) as nat / pow2(149) == m as nat / pow2(s as nat));
        }
        if s >= 32 {
            proof {
                lemma_pow2_strictly_increases(24, s as nat);
                lemma_basic_div(m as int, pow2(s as nat) as int);
            }
            return 0;
        }
        proof {
            lemma_u32_shr_is_div(m, s);
            if s > 16 {
                lemma_pow2_strictly_increases(16, s as nat);
            }
            lemma_div_is_ordered_by_denominator(m as int, pow2(16) as int, pow2(s as nat) as int);
        }
        let whole: u32 = m >> s;
        if whole >= 255 {
            255
        } else {
            whole as u8
        }
    }

    /// The byte `n` as a fraction of 255, rounded.
    pub fn from_byte_fraction(n: u8) -> (r: Binary32)
        ensures
            r@ == byte_fraction(n),
    {
        if n == 0 {
            proof {
                lemma_round_zero(255);
                assert(0 * unit() == 0);
            }
            return Binary32 { bits: 0 };
        }
        proof {
            lemma2_to64();
        }
        let mut scaled: u64 = (n as u64) * 0x80_0000;
        let mut k: u32 = 126;
        while scaled < 255 * 0x80_0000
            invariant
                0 < n,
                118 <= k <= 126,
                scaled == n * pow2((149 - k) as nat),
                scaled < 255 * (SIGNIFICAND_LIMIT as u64),
                scaled >= pow2((149 - k) as nat),
            decreases k,
        {
            proof {
                lemma_pow2_unfold((150 - k) as nat);
                assert(n * (2 * pow2((149 - k) as nat)) == 2 * (n * pow2((149 - k) as nat)))
                    by (nonlinear_arith);
                if k == 118 {
                    lemma2_to64();
                    assert(false);
                }
            }
            scaled = scaled * 2;
            k = k - 1;
        }
        let floor = scaled / 255;
        let rest = scaled % 255;
        let q: u64 = if 2 * rest < 255 { floor } else { floor + 1 };
        proof {
            let num = n as nat * unit();
            let pk = pow2(k as nat);
            lemma_pow2_pos(k as nat);
            lemma_pow2_adds((149 - k) as nat, k as nat);
            lemma_pow2_adds(24, k as nat);
            lemma_pow2_adds(23, k as nat);
            assert(num == scaled * pk) by (nonlinear_arith)
                requires
                    num == n * pow2(149),
                    scaled == n * pow2((149 - k) as nat),
                    pow2(149) == pow2((149 - k) as nat) * pk,
            ;
            assert(255 * pow2(23 + k as nat) <= num < 255 * pow2(24 + k as nat))
                by (nonlinear_arith)
                requires
                    num == scaled * pk,
                    255 * pow2(23) <= scaled < 255 * pow2(24),
                    pow2(23 + k as nat) == pow2(23) * pk,
                    pow2(24 + k as nat) == pow2(24) * pk,
                    pk > 0,
            ;
            lemma_binade_unique(num, 255, k as nat);
            lemma_round_half_even_scale(scaled as nat, 255, pk);
            assert(q == round_half_even(scaled as nat, 255));
            lemma_round_half_even_bounds(
                scaled as nat,
                255,
                HIDDEN_BIT as nat,
                SIGNIFICAND_LIMIT as nat,
            );
            lemma_encode(k as nat, q as nat);
            lemma_infinity_magnitude();
            assert(k * HIDDEN_BIT + q < INFINITY_BITS);
            lemma_magnitude_monotonic((k * HIDDEN_BIT + q) as nat, INFINITY_BITS as nat);
        }
        Binary32 { bits: k * HIDDEN_BIT + (q as u32) }
    }

    /// The product of two numbers, correctly rounded.
    pub fn mul(self, other: Binary32) -> (r: Binary32)
        ensures
            r@ == product(self@, other@),
    {
        if self.is_nan() || other.is_nan() {
            return Binary32::nan();
        }
        let negative = self.is_sign_negative() != other.is_sign_negative();
        if self.is_infinite() {
            return if other.is_zero() {
                Binary32::nan()
            } else {
                Binary32::infinity(negative)
            };
        }
        if other.is_infinite() {
            return if self.is_zero() {
                Binary32::nan()
            } else {
                Binary32::infinity(negative)
            };
        }
        let (ka, ma) = self.parts();
        let (kb, mb) = other.parts();
        proof {
            lemma_product_form(ma as nat, ka as nat, mb as nat, kb as nat);
            assert(ma * mb < 0x1_0000_0000_0000) by (nonlinear_arith)
                requires
                    ma < 0x100_0000,
                    mb < 0x100_0000,
            ;
        }
        let p: u64 = (ma as u64) * (mb as u64);
        if p == 0 {
            proof {
                lemma_pow2_pos(149);
                lemma_round_zero(unit());
                assert((ma * pow2(ka as nat)) * (mb * pow2(kb as nat)) == 0) by (nonlinear_arith)
                    requires
                        ma * mb == 0,
                        ma >= 0,
                        mb >= 0,
                ;
                lemma_pow2_pos(277);
            }
            return Binary32::zero(negative);
        }
        let t: i32 = (ka as i32) + (kb as i32) - 149;
        round_pack(negative, p, t)
    }

    /// The sum of two numbers, correctly rounded.
    pub fn add(self, other: Binary32) -> (r: Binary32)
        ensures
            r@ == sum(self@, other@),
    {
        if self.is_nan() || other.is_nan() {
            return Binary32::nan();
        }
        let na = self.is_sign_negative();
        let nb = other.is_sign_negative();
        if self.is_infinite() {
            return if other.is_infinite() && na != nb {
                Binary32::nan()
            } else {
                self
            };
        }
        if other.is_infinite() {
            return other;
        }
        let a = self.magnitude_bits();
        let b = other.magnitude_bits();
        let (ka, ma) = self.parts();
        let (kb, mb) = other.parts();
        proof {
            lemma_infinity_magnitude();
            lemma_magnitude_monotonic(a as nat, INFINITY_BITS as nat);
            lemma_magnitude_monotonic(b as nat, INFINITY_BITS as nat);
            lemma_round_encodable(ma as nat, ka as nat);
            lemma_round_encodable(mb as nat, kb as nat);
            if a > 0 {
                lemma_magnitude_monotonic(0, a as nat);
            }
            if b > 0 {
                lemma_magnitude_monotonic(0, b as nat);
            }
        }
        if a == 0 {
            return if b == 0 {
                Binary32::zero(na && nb)
            } else {
                other
            };
        }
        if b == 0 {
            return self;
        }
        if a >= b {
            Binary32::add_ordered(self, other)
        } else {
            let r = Binary32::add_ordered(other, self);
            proof {
                assert(rank(self@) + rank(other@) == rank(other@) + rank(self@));
            }
            r
        }
    }

    /// The sum of two nonzero finite numbers, the first at least as large in
    /// magnitude as the second.
    fn add_ordered(hi: Binary32, lo: Binary32) -> (r: Binary32)
        requires
            hi@ is Finite,
            lo@ is Finite,
            abs_bits(hi.bits) >= abs_bits(lo.bits) > 0,
        ensures
            r@ == sum(hi@, lo@),
    {
        let negative = hi.is_sign_negative();
        let same_sign = negative == lo.is_sign_negative();
        let (kh, mh) = hi.parts();
        let (kl, ml) = lo.parts();
        let ghost big_mag = hi@->Finite_magnitude;
        let ghost small_mag = lo@->Finite_magnitude;
        proof {
            lemma2_to64();
            lemma_infinity_magnitude();
            lemma_magnitude_monotonic(abs_bits(hi.bits), INFINITY_BITS as nat);
            lemma_magnitude_monotonic(0, abs_bits(lo.bits));
            if abs_bits(hi.bits) > abs_bits(lo.bits) {
                lemma_magnitude_monotonic(abs_bits(lo.bits), abs_bits(hi.bits));
            }
            assert(0 < small_mag <= big_mag < overflow_threshold());
            lemma_pow2_pos(kl as nat);
            lemma_pow2_pos(kh as nat);
            lemma_round_encodable(mh as nat, kh as nat);
        }
        assert(kh >= kl);
        let d: u32 = kh - kl;
        if d >= 39 {
            proof {
                // The smaller number is below a quarter of the spacing around the larger.
                lemma_pow2_adds(24, kl as nat);
                lemma_pow2_strictly_increases(26 + kl as nat, kh as nat);
                lemma_pow2_adds(2, 24 + kl as nat);
                assert(small_mag < pow2(24) * pow2(kl as nat)) by (nonlinear_arith)
                    requires
                        small_mag == ml * pow2(kl as nat),
                        ml < pow2(24),
                        pow2(kl as nat) > 0,
                ;
                lemma_far_sum(mh as nat, kh as nat, small_mag);
                lemma_far_difference(mh as nat, kh as nat, small_mag);
            }
            return hi;
        }
        proof {
            lemma2_to64_rest();
            lemma_pow2_adds(d as nat, kl as nat);
            if d < 38 {
                lemma_pow2_strictly_increases(d as nat, 38);
            }
            assert(mh * pow2(d as nat) < 0x100_0000 * pow2(38)) by (nonlinear_arith)
                requires
                    mh < 0x100_0000,
                    0 < pow2(d as nat) <= pow2(38),
            ;
            lemma_u64_shl_is_mul(mh as u64, d as u64);
        }
        let big: u64 = (mh as u64) << (d as u64);
        proof {
            assert(big * pow2(kl as nat) == big_mag) by (nonlinear_arith)
                requires
                    big == mh * pow2(d as nat),
                    big_mag == mh * pow2(kh as nat),
                    pow2(kh as nat) == pow2(d as nat) * pow2(kl as nat),
            ;
            assert(big >= ml) by (nonlinear_arith)
                requires
                    big * pow2(kl as nat) >= ml * pow2(kl as nat),
                    pow2(kl as nat) > 0,
            ;
        }
        if same_sign {
            let p: u64 = big + (ml as u64);
            proof {
                assert(p * pow2(kl as nat) == big_mag + small_mag) by (nonlinear_arith)
                    requires
                        p == big + ml,
                        big * pow2(kl as nat) == big_mag,
                        ml * pow2(kl as nat) == small_mag,
                ;
            }
            round_pack(negative, p, kl as i32)
        } else {
            let p: u64 = big - (ml as u64);
            proof {
                assert(p * pow2(kl as nat) == big_mag - small_mag) by (nonlinear_arith)
                    requires
                        p == big - ml,
                        big * pow2(kl as nat) == big_mag,
                        ml * pow2(kl as nat) == small_mag,
                ;
            }
            if p == 0 {
                assert(0 * pow2(kl as nat) == 0);
                return Binary32::zero(false);
            }
            proof {
                assert(p * pow2(kl as nat) > 0) by (nonlinear_arith)
                    requires
                        p > 0,
                        pow2(kl as nat) > 0,
                ;
            }
            round_pack(negative, p, kl as i32)
        }
    }

    /// The difference of two numbers, correctly rounded.
    pub fn sub(self, other: Binary32) -> (r: Binary32)
        ensures
            r@ == difference(self@, other@),
    {
        self.add(other.neg())
    }
}

} // verus!
