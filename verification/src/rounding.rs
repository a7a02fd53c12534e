//! Rounding of exact results to binary32: round to nearest, ties to even.
//!
//! A nonnegative rational `num / den`, counted in units of 2^-149, is rounded
//! to the nearest magnitude that a binary32 pattern can encode. Such magnitudes
//! are the naturals `m * 2^k` with `m < 2^24` and, when `k > 0`, `m >= 2^23`.

use vstd::prelude::*;
use vstd::arithmetic::power2::*;
use vstd::arithmetic::div_mod::*;
use vstd::bits::*;
use crate::binary32::{
    Binary32, Value, HIDDEN_BIT, INFINITY_BITS, SIGN_BIT, magnitude_of, overflow_threshold,
    lemma_infinity_magnitude, lemma_magnitude_monotonic,
};

verus! {

/// Two to the 24th: one more than the largest significand.
pub const SIGNIFICAND_LIMIT: u32 = 0x100_0000;

/// `num / den` rounded to the nearest natural number, a tie going to the even one.
pub open spec fn round_half_even(num: nat, den: nat) -> nat {
    let q = num / den;
    let r = num % den;
    if 2 * r < den || (2 * r == den && q % 2 == 0) {
        q
    } else {
        q + 1
    }
}

/// The binade of `num / den`: the least `k` with `num / den < 2^(24 + k)`.
///
/// Around `num / den` the encodable magnitudes are `2^k` apart.
pub open spec fn binade(num: nat, den: nat) -> nat
    decreases num,
{
    if den == 0 || num < den * (SIGNIFICAND_LIMIT as nat) {
        0
    } else {
        1 + binade(num / 2, den)
    }
}

/// `num / den` rounded to the nearest encodable magnitude, ties to the even
/// significand. The result may reach `overflow_threshold()`, which stands for
/// infinity.
pub open spec fn round_to_binary32(num: nat, den: nat) -> nat {
    let k = binade(num, den);
    round_half_even(num, den * pow2(k)) * pow2(k)
}

/// `p * 2^t` rounded to the nearest encodable magnitude.
pub open spec fn round_scaled(p: nat, t: int) -> nat {
    if t >= 0 {
        round_to_binary32(p * pow2(t as nat), 1)
    } else {
        round_to_binary32(p, pow2((-t) as nat))
    }
}

/// Whether `m * 2^k` is written the way a binary32 pattern encodes it.
pub open spec fn encodable(m: nat, k: nat) -> bool {
    &&& m < SIGNIFICAND_LIMIT
    &&& k > 0 ==> m >= SIGNIFICAND_LIMIT / 2
}

/// The value of a rounded magnitude: infinite from the overflow threshold on.
pub open spec fn rounded_value(negative: bool, magnitude: nat) -> Value {
    if magnitude >= overflow_threshold() {
        Value::Infinite { negative }
    } else {
        Value::Finite { negative, magnitude }
    }
}

/// How far apart two natural numbers are.
pub open spec fn gap(a: nat, b: nat) -> nat {
    if a >= b {
        (a - b) as nat
    } else {
        (b - a) as nat
    }
}

/// How far the magnitude `c` lies from `num / den`, in units of `1 / den`.
pub open spec fn distance(c: nat, num: nat, den: nat) -> nat {
    gap(c * den, num)
}

/// The binade of `num / den` satisfies the bounds that define it.
pub proof fn lemma_binade_bounds(num: nat, den: nat)
    requires
        den > 0,
    ensures
        num < den * pow2(24 + binade(num, den)),
        binade(num, den) > 0 ==> num >= den * pow2(23 + binade(num, den)),
    decreases num,
{
    lemma2_to64();
    if num < den * (SIGNIFICAND_LIMIT as nat) {
    } else {
        let k = binade(num / 2, den);
        lemma_binade_bounds(num / 2, den);
        let hi = den * pow2(24 + k);
        lemma_pow2_unfold(25 + k);
        assert(den * pow2(25 + k) == 2 * hi) by (nonlinear_arith)
            requires
                hi == den * pow2(24 + k),
                pow2(25 + k) == 2 * pow2(24 + k),
        ;
        if k > 0 {
            let lo = den * pow2(23 + k);
            lemma_pow2_unfold(24 + k);
            assert(den * pow2(24 + k) == 2 * lo) by (nonlinear_arith)
                requires
                    lo == den * pow2(23 + k),
                    pow2(24 + k) == 2 * pow2(23 + k),
            ;
        }
    }
}

/// The bounds of a binade determine it.
pub proof fn lemma_binade_unique(num: nat, den: nat, k: nat)
    requires
        den > 0,
        num < den * pow2(24 + k),
        k > 0 ==> num >= den * pow2(23 + k),
    ensures
        binade(num, den) == k,
    decreases k,
{
    lemma2_to64();
    if k > 0 {
        let lo = den * pow2(23 + k);
        lemma_pow2_unfold(24 + k);
        lemma_pow2_unfold(23 + k);
        assert(den * pow2(24 + k) == 2 * lo) by (nonlinear_arith)
            requires
                lo == den * pow2(23 + k),
                pow2(24 + k) == 2 * pow2(23 + k),
        ;
        let half = den * pow2((22 + k) as nat);
        assert(lo == 2 * half) by (nonlinear_arith)
            requires
                lo == den * pow2(23 + k),
                half == den * pow2((22 + k) as nat),
                pow2(23 + k) == 2 * pow2((22 + k) as nat),
        ;
        if k > 1 {
            lemma_pow2_strictly_increases(24, 23 + k);
        }
        assert(den * pow2(23 + k) >= den * pow2(24)) by (nonlinear_arith)
            requires
                pow2(23 + k) >= pow2(24),
        ;
        lemma_binade_unique(num / 2, den, (k - 1) as nat);
    }
}

/// Scaling numerator and denominator alike does not change the rounded quotient.
pub proof fn lemma_round_half_even_scale(num: nat, den: nat, c: nat)
    requires
        den > 0,
        c > 0,
    ensures
        round_half_even(num * c, den * c) == round_half_even(num, den),
{
    let q = num / den;
    let r = num % den;
    lemma_fundamental_div_mod(num as int, den as int);
    lemma_mod_bound(num as int, den as int);
    assert(num * c == q * (den * c) + r * c && 0 <= r * c < den * c) by (nonlinear_arith)
        requires
            num == den * q + r,
            0 <= r < den,
            c > 0,
    ;
    lemma_fundamental_div_mod_converse(
        (num * c) as int,
        (den * c) as int,
        q as int,
        (r * c) as int,
    );
    assert((2 * (r * c) < den * c) == (2 * r < den) && (2 * (r * c) == den * c) == (2 * r == den))
        by (nonlinear_arith)
        requires
            c > 0,
    ;
}

/// Scaling numerator and denominator alike does not change the binade.
pub proof fn lemma_binade_scale(num: nat, den: nat, c: nat)
    requires
        den > 0,
        c > 0,
    ensures
        binade(num * c, den * c) == binade(num, den),
{
    let k = binade(num, den);
    lemma_binade_bounds(num, den);
    assert(num * c < (den * c) * pow2(24 + k)) by (nonlinear_arith)
        requires
            num < den * pow2(24 + k),
            c > 0,
    ;
    if k > 0 {
        assert(num * c >= (den * c) * pow2(23 + k)) by (nonlinear_arith)
            requires
                num >= den * pow2(23 + k),
                c > 0,
        ;
    }
    assert(den * c > 0) by (nonlinear_arith)
        requires
            den > 0,
            c > 0,
    ;
    lemma_binade_unique(num * c, den * c, k);
}

/// Scaling numerator and denominator alike does not change the rounded value.
pub proof fn lemma_round_scale(num: nat, den: nat, c: nat)
    requires
        den > 0,
        c > 0,
    ensures
        round_to_binary32(num * c, den * c) == round_to_binary32(num, den),
{
    let k = binade(num, den);
    lemma_binade_scale(num, den, c);
    lemma_pow2_pos(k);
    assert((den * c) * pow2(k) == (den * pow2(k)) * c && den * pow2(k) > 0) by (nonlinear_arith)
        requires
            den > 0,
            pow2(k) > 0,
    ;
    lemma_round_half_even_scale(num, den * pow2(k), c);
}

/// A whole multiple of the denominator rounds to its exact quotient.
pub proof fn lemma_round_half_even_exact(q: nat, den: nat)
    requires
        den > 0,
    ensures
        round_half_even(q * den, den) == q,
{
    lemma_fundamental_div_mod_converse((q * den) as int, den as int, q as int, 0);
}

/// An encodable magnitude rounds to itself.
pub proof fn lemma_round_encodable(m: nat, k: nat)
    requires
        encodable(m, k),
    ensures
        round_to_binary32(m * pow2(k), 1) == m * pow2(k),
{
    let p = pow2(k);
    lemma_pow2_pos(k);
    lemma2_to64();
    lemma_pow2_adds(24, k);
    lemma_pow2_adds(23, k);
    assert(m * p < 1 * (pow2(24) * p)) by (nonlinear_arith)
        requires
            m < pow2(24),
            p > 0,
    ;
    if k > 0 {
        assert(m * p >= 1 * (pow2(23) * p)) by (nonlinear_arith)
            requires
                m >= pow2(23),
                p > 0,
        ;
    }
    lemma_binade_unique(m * p, 1, k);
    assert(1 * p == p);
    lemma_round_half_even_exact(m, p);
}

/// Zero rounds to zero.
pub proof fn lemma_round_zero(den: nat)
    requires
        den > 0,
    ensures
        round_to_binary32(0, den) == 0,
{
    assert(binade(0, den) == 0);
    lemma2_to64();
    assert(den * pow2(0) == den);
    lemma_round_half_even_exact(0, den);
    assert(0 * den == 0);
}

/// No multiple of the denominator is nearer to the numerator than the rounded
/// quotient's.
pub proof fn lemma_round_half_even_is_nearest(num: nat, den: nat, j: nat)
    requires
        den > 0,
    ensures
        gap(round_half_even(num, den) * den, num) <= gap(j * den, num),
{
    let q = num / den;
    let r = num % den;
    lemma_fundamental_div_mod(num as int, den as int);
    lemma_mod_bound(num as int, den as int);
    assert(q * den == den * q && (q + 1) * den == den * q + den) by (nonlinear_arith);
    if j <= q {
        assert(j * den <= q * den) by (nonlinear_arith)
            requires
                j <= q,
                den > 0,
        ;
    } else {
        assert(j * den >= q * den + den) by (nonlinear_arith)
            requires
                j >= q + 1,
                den > 0,
        ;
    }
}

/// On a tie the rounded quotient is even.
pub proof fn lemma_round_half_even_tie(num: nat, den: nat)
    requires
        den > 0,
        2 * (num % den) == den,
    ensures
        round_half_even(num, den) % 2 == 0,
{
}

/// Rounding yields an encodable magnitude: a significand in range, times the
/// spacing of the binade.
pub proof fn lemma_round_is_encodable(num: nat, den: nat)
    requires
        den > 0,
    ensures
        ({
            let k = binade(num, den);
            let q = round_half_even(num, den * pow2(k));
            ||| encodable(q, k)
            ||| q == SIGNIFICAND_LIMIT && encodable((SIGNIFICAND_LIMIT / 2) as nat, k + 1)
                && round_to_binary32(num, den) == SIGNIFICAND_LIMIT / 2 * pow2(k + 1)
        }),
{
    let k = binade(num, den);
    let pk = pow2(k);
    let den_k = den * pk;
    lemma2_to64();
    lemma_pow2_pos(k);
    lemma_binade_bounds(num, den);
    lemma_pow2_adds(24, k);
    lemma_pow2_adds(23, k);
    lemma_pow2_unfold(k + 1);
    assert(den_k > 0 && num < (SIGNIFICAND_LIMIT as nat) * den_k) by (nonlinear_arith)
        requires
            den > 0,
            pk > 0,
            den_k == den * pk,
            num < den * pow2(24 + k),
            pow2(24 + k) == (SIGNIFICAND_LIMIT as nat) * pk,
    ;
    if k > 0 {
        assert(num >= (SIGNIFICAND_LIMIT as nat / 2) * den_k) by (nonlinear_arith)
            requires
                den_k == den * pk,
                num >= den * pow2(23 + k),
                pow2(23 + k) == (SIGNIFICAND_LIMIT as nat / 2) * pk,
        ;
        lemma_round_half_even_bounds(
            num,
            den_k,
            SIGNIFICAND_LIMIT as nat / 2,
            SIGNIFICAND_LIMIT as nat,
        );
    } else {
        assert(0 * den_k == 0);
        lemma_round_half_even_bounds(num, den_k, 0, SIGNIFICAND_LIMIT as nat);
    }
    let q = round_half_even(num, den_k);
    if q == SIGNIFICAND_LIMIT {
        assert(q * pk == SIGNIFICAND_LIMIT / 2 * (2 * pk)) by (nonlinear_arith)
            requires
                q == SIGNIFICAND_LIMIT,
        ;
    }
}

/// Rounding is to the nearest: no encodable magnitude lies nearer to
/// `num / den` than the rounded one.
pub proof fn lemma_round_is_nearest(num: nat, den: nat, m: nat, k: nat)
    requires
        den > 0,
        encodable(m, k),
    ensures
        distance(round_to_binary32(num, den), num, den) <= distance(m * pow2(k), num, den),
{
    let kb = binade(num, den);
    let u = pow2(kb);
    let den_u = den * u;
    let q = round_half_even(num, den_u);
    let c = m * pow2(k);
    lemma2_to64();
    lemma_pow2_pos(kb);
    lemma_pow2_pos(k);
    lemma_binade_bounds(num, den);
    assert(den_u > 0 && (q * u) * den == q * den_u) by (nonlinear_arith)
        requires
            den > 0,
            u > 0,
            den_u == den * u,
    ;
    if k >= kb {
        // A multiple of the spacing.
        let j = m * pow2((k - kb) as nat);
        lemma_pow2_adds((k - kb) as nat, kb);
        assert(c * den == j * den_u) by (nonlinear_arith)
            requires
                c == m * pow2(k),
                pow2(k) == pow2((k - kb) as nat) * u,
                j == m * pow2((k - kb) as nat),
                den_u == den * u,
        ;
        lemma_round_half_even_is_nearest(num, den_u, j);
    } else {
        // Below the binade: the least magnitude of the binade is nearer.
        let j = pow2(23);
        lemma_pow2_adds(23, kb);
        lemma_pow2_adds(24, k);
        if 24 + k < 23 + kb {
            lemma_pow2_strictly_increases(24 + k, 23 + kb);
        }
        assert(c < pow2(24) * pow2(k)) by (nonlinear_arith)
            requires
                c == m * pow2(k),
                m < pow2(24),
                pow2(k) > 0,
        ;
        assert(j * den_u == den * pow2(23 + kb) && c * den < j * den_u) by (nonlinear_arith)
            requires
                pow2(23 + kb) == j * u,
                den_u == den * u,
                c < pow2(23 + kb),
                den > 0,
        ;
        lemma_round_half_even_is_nearest(num, den_u, j);
    }
}

/// A quotient is bounded as its numerator is.
pub proof fn lemma_round_half_even_bounds(num: nat, den: nat, lo: nat, hi: nat)
    requires
        den > 0,
        lo * den <= num < hi * den,
    ensures
        lo <= round_half_even(num, den) <= hi,
{
    let q = num / den;
    let r = num % den;
    lemma_fundamental_div_mod(num as int, den as int);
    lemma_mod_bound(num as int, den as int);
    assert(lo <= q < hi) by (nonlinear_arith)
        requires
            num == den * q + r,
            0 <= r < den,
            lo * den <= num < hi * den,
    ;
}

/// The pattern `k * 2^23 + q` encodes the magnitude `q * 2^k`.
pub proof fn lemma_encode(k: nat, q: nat)
    requires
        k <= 253,
        q <= SIGNIFICAND_LIMIT,
        k > 0 ==> q >= HIDDEN_BIT,
    ensures
        k * HIDDEN_BIT + q <= INFINITY_BITS,
        magnitude_of((k * HIDDEN_BIT + q) as nat) == q * pow2(k),
{
    let abs = (k * HIDDEN_BIT + q) as nat;
    let e = abs / (HIDDEN_BIT as nat);
    let f = abs % (HIDDEN_BIT as nat);
    lemma2_to64();
    if q < HIDDEN_BIT {
        assert(k == 0);
        assert(e == 0 && f == q);
        assert(q * pow2(0) == q);
    } else if q < SIGNIFICAND_LIMIT {
        assert(e == k + 1 && f == q - HIDDEN_BIT);
    } else {
        assert(e == k + 2 && f == 0);
        lemma_pow2_unfold(k + 1);
        assert(HIDDEN_BIT * (2 * pow2(k)) == q * pow2(k)) by (nonlinear_arith)
            requires
                q == 2 * HIDDEN_BIT,
        ;
    }
}

/// Dividing by two powers of two in turn divides by their product.
proof fn lemma_shift_step(p: nat, l: nat, s: nat)
    ensures
        (p / pow2(l)) / pow2(s) == p / pow2(l + s),
{
    lemma_pow2_pos(l);
    lemma_pow2_pos(s);
    lemma_pow2_adds(l, s);
    lemma_div_denominator(p as int, pow2(l) as int, pow2(s) as int);
}

/// The number of significant bits of `p`: the least `l` with `p < 2^l`.
pub fn bit_length(p: u64) -> (l: u32)
    ensures
        l <= 64,
        p < pow2(l as nat),
        l > 0 ==> p >= pow2((l - 1) as nat),
{
    let mut q: u64 = p;
    let mut l: u32 = 0;
    proof {
        lemma2_to64();
        assert(p as nat / pow2(0) == p);
    }
    if q >= 0x1_0000_0000 {
        proof {
            lemma_shift_step(p as nat, l as nat, 32);
        }
        q = q / 0x1_0000_0000;
        l = l + 32;
    }
    assert(q == p as nat / pow2(l as nat) && q < 0x1_0000_0000 && (q == 0) == (p == 0));
    if q >= 0x1_0000 {
        proof {
            lemma_shift_step(p as nat, l as nat, 16);
        }
        q = q / 0x1_0000;
        l = l + 16;
    }
    assert(q == p as nat / pow2(l as nat) && q < 0x1_0000 && (q == 0) == (p == 0));
    if q >= 0x100 {
        proof {
            lemma_shift_step(p as nat, l as nat, 8);
        }
        q = q / 0x100;
        l = l + 8;
    }
    assert(q == p as nat / pow2(l as nat) && q < 0x100 && (q == 0) == (p == 0));
    if q >= 0x10 {
        proof {
            lemma_shift_step(p as nat, l as nat, 4);
        }
        q = q / 0x10;
        l = l + 4;
    }
    assert(q == p as nat / pow2(l as nat) && q < 0x10 && (q == 0) == (p == 0));
    if q >= 4 {
        proof {
            lemma_shift_step(p as nat, l as nat, 2);
        }
        q = q / 4;
        l = l + 2;
    }
    assert(q == p as nat / pow2(l as nat) && q < 4 && (q == 0) == (p == 0));
    if q >= 2 {
        proof {
            lemma_shift_step(p as nat, l as nat, 1);
        }
        q = q / 2;
        l = l + 1;
    }
    assert(q == p as nat / pow2(l as nat) && q < 2 && (q == 0) == (p == 0) && l <= 63);
    if q == 1 {
        proof {
            let d = pow2(l as nat);
            lemma_pow2_pos(l as nat);
            lemma_pow2_unfold((l + 1) as nat);
            lemma_fundamental_div_mod(p as int, d as int);
            lemma_mod_bound(p as int, d as int);
            assert(d * 1 == d);
        }
        l = l + 1;
    } else {
        assert(p == 0 && l == 0);
    }
    l
}

/// `p / 2^s` rounded to the nearest natural number, a tie going to the even one.
pub fn shift_right_round(p: u64, s: u32) -> (q: u64)
    requires
        p < 0x8000_0000_0000_0000,
        s >= 1,
    ensures
        q == round_half_even(p as nat, pow2(s as nat)),
{
    proof {
        lemma2_to64();
        lemma2_to64_rest();
    }
    if s >= 64 {
        proof {
            if s > 64 {
                lemma_pow2_strictly_increases(64, s as nat);
            }
            lemma_basic_div(p as int, pow2(s as nat) as int);
            lemma_small_mod(p as nat, pow2(s as nat));
        }
        return 0;
    }
    let d: u64 = 1u64 << (s as u64);
    proof {
        lemma_u64_pow2_no_overflow(s as nat);
        lemma_u64_shl_is_mul(1, s as u64);
        lemma_pow2_unfold(s as nat);
        lemma_div_nonincreasing(p as int, d as int);
    }
    let whole = p / d;
    let rest = p % d;
    let half = d / 2;
    if rest < half || (rest == half && whole % 2 == 0) {
        whole
    } else {
        whole + 1
    }
}

/// The binary32 number nearest to `p * 2^t` units of 2^-149, with the given sign.
pub fn round_pack(negative: bool, p: u64, t: i32) -> (r: Binary32)
    requires
        0 < p < 0x8000_0000_0000_0000,
        -1024 <= t <= 1024,
    ensures
        r@ == rounded_value(negative, round_scaled(p as nat, t as int)),
{
    let l: i32 = bit_length(p) as i32;
    let e: i32 = l + t - 24;
    let k: i32 = if e > 0 { e } else { 0 };
    let sh: i32 = t - k;
    proof {
        lemma2_to64();
        lemma2_to64_rest();
        if l > 63 {
            assert(pow2(63) <= pow2((l - 1) as nat)) by {
                if l > 64 {
                    lemma_pow2_strictly_increases(63, (l - 1) as nat);
                }
            }
        }
        assert(1 <= l <= 63);
    }
    let q: u64;
    if sh >= 0 {
        proof {
            lemma_scaled_fits(p as nat, l as nat, sh as nat);
            lemma_u64_shl_is_mul(p, sh as u64);
        }
        q = p << (sh as u64);
    } else {
        q = shift_right_round(p, (-sh) as u32);
    }
    proof {
        lemma_round_scaled_form(p as nat, t as int, l as nat, k as nat, q as nat);
    }
    if k >= 254 {
        proof {
            lemma_pow2_adds(23, 254);
            if k > 254 {
                lemma_pow2_strictly_increases(254, k as nat);
            }
            assert(q * pow2(k as nat) >= pow2(23) * pow2(254)) by (nonlinear_arith)
                requires
                    q >= pow2(23),
                    pow2(k as nat) >= pow2(254),
            ;
        }
        return Binary32 { bits: if negative { INFINITY_BITS + SIGN_BIT } else { INFINITY_BITS } };
    }
    proof {
        lemma_encode(k as nat, q as nat);
        lemma_infinity_magnitude();
        let abs = ((k as nat) * HIDDEN_BIT + q) as nat;
        if abs < INFINITY_BITS {
            lemma_magnitude_monotonic(abs, INFINITY_BITS as nat);
        }
    }
    let abs: u32 = (k as u32) * HIDDEN_BIT + (q as u32);
    Binary32 { bits: if negative { abs + SIGN_BIT } else { abs } }
}

/// A number of `l` bits shifted left so that it still has at most 24 bits.
pub proof fn lemma_scaled_fits(p: nat, l: nat, sh: nat)
    requires
        p < pow2(l),
        l + sh <= 24,
    ensures
        p * pow2(sh) < SIGNIFICAND_LIMIT,
{
    lemma2_to64();
    lemma_pow2_adds(l, sh);
    lemma_pow2_pos(sh);
    if l + sh < 24 {
        lemma_pow2_strictly_increases(l + sh, 24);
    }
    assert(p * pow2(sh) < pow2(l) * pow2(sh)) by (nonlinear_arith)
        requires
            p < pow2(l),
            pow2(sh) > 0,
    ;
}

/// How `round_scaled` is computed: with `l` the bit length of `p`, the binade
/// is `k = max(0, l + t - 24)`, and the significand is `p * 2^(t - k)`, rounded
/// where `t < k`.
pub proof fn lemma_round_scaled_form(p: nat, t: int, l: nat, k: nat, q: nat)
    requires
        p > 0,
        l > 0,
        pow2((l - 1) as nat) <= p < pow2(l),
        k == if l + t - 24 > 0 { l + t - 24 } else { 0 },
        q == if t - k >= 0 {
            p * pow2((t - k) as nat)
        } else {
            round_half_even(p, pow2((k - t) as nat))
        },
    ensures
        round_scaled(p, t) == q * pow2(k),
        q <= SIGNIFICAND_LIMIT,
        k > 0 ==> q >= HIDDEN_BIT,
{
    lemma2_to64();
    let num: nat = if t >= 0 { p * pow2(t as nat) } else { p };
    let den: nat = if t >= 0 { 1 } else { pow2((-t) as nat) };
    let pk = pow2(k);
    lemma_pow2_pos(k);
    if t < 0 {
        lemma_pow2_pos((-t) as nat);
    }
    assert(den > 0);
    // The bounds that make `k` the binade.
    if t >= 0 {
        let pt = pow2(t as nat);
        lemma_pow2_pos(t as nat);
        lemma_pow2_adds(l, t as nat);
        lemma_pow2_adds((l - 1) as nat, t as nat);
        assert(p * pt < pow2(l) * pt && pow2((l - 1) as nat) * pt <= p * pt) by (nonlinear_arith)
            requires
                pow2((l - 1) as nat) <= p < pow2(l),
                pt > 0,
        ;
        if l + t < 24 + k {
            lemma_pow2_strictly_increases((l + t) as nat, 24 + k);
        }
        assert(den * pow2(24 + k) == pow2(24 + k));
        assert(den * pow2(23 + k) == pow2(23 + k));
    } else {
        let nt = (-t) as nat;
        lemma_pow2_adds(nt, 24 + k);
        lemma_pow2_adds(nt, 23 + k);
        if l < nt + 24 + k {
            lemma_pow2_strictly_increases(l, nt + 24 + k);
        }
    }
    assert(num < den * pow2(24 + k));
    assert(k > 0 ==> num >= den * pow2(23 + k));
    lemma_binade_unique(num, den, k);
    // The significand.
    let den_k = den * pk;
    assert(den_k > 0) by (nonlinear_arith)
        requires
            den_k == den * pk,
            den > 0,
            pk > 0,
    ;
    if t - k >= 0 {
        let sh = (t - k) as nat;
        lemma_pow2_adds(sh, k);
        assert(num == (p * pow2(sh)) * pk) by (nonlinear_arith)
            requires
                num == p * pow2(t as nat),
                pow2(t as nat) == pow2(sh) * pk,
        ;
        assert(den_k == pk);
        lemma_round_half_even_exact(p * pow2(sh), pk);
    } else {
        let s = (k - t) as nat;
        if t >= 0 {
            lemma_pow2_adds(s, t as nat);
            lemma_pow2_pos(s);
            lemma_pow2_pos(t as nat);
            assert(den_k == pow2(s) * pow2(t as nat));
            lemma_round_half_even_scale(p, pow2(s), pow2(t as nat));
        } else {
            lemma_pow2_adds((-t) as nat, k);
            assert(den_k == pow2(s));
        }
    }
    assert(round_half_even(num, den_k) == q);
    // The range of the significand.
    lemma_pow2_adds(24, k);
    lemma_pow2_adds(23, k);
    assert(num < (SIGNIFICAND_LIMIT as nat) * den_k) by (nonlinear_arith)
        requires
            num < den * pow2(24 + k),
            pow2(24 + k) == (SIGNIFICAND_LIMIT as nat) * pk,
            den_k == den * pk,
    ;
    if k > 0 {
        assert(num >= (HIDDEN_BIT as nat) * den_k) by (nonlinear_arith)
            requires
                num >= den * pow2(23 + k),
                pow2(23 + k) == (HIDDEN_BIT as nat) * pk,
                den_k == den * pk,
        ;
        lemma_round_half_even_bounds(num, den_k, HIDDEN_BIT as nat, SIGNIFICAND_LIMIT as nat);
    } else {
        assert(0 * den_k == 0);
        lemma_round_half_even_bounds(num, den_k, 0, SIGNIFICAND_LIMIT as nat);
    }
}

} // verus!
