//! IEEE 754 binary32 numbers, carried as their 32-bit patterns.
//!
//! Depths, opacities and thresholds reach the compositor as single-precision
//! numbers. This module gives each bit pattern its mathematical value and
//! implements comparison, negation and absolute value on the patterns
//! themselves. Every finite binary32 number is a whole multiple of 2^-149, so
//! magnitudes are natural numbers counted in that unit.

use vstd::prelude::*;
use vstd::arithmetic::power2::*;

verus! {

/// What a binary32 bit pattern stands for.
pub enum Value {
    /// Not a number, whatever the payload.
    Nan,
    /// Positive or negative infinity.
    Infinite { negative: bool },
    /// A signed zero, subnormal or normal number: `magnitude` counts units of 2^-149.
    Finite { negative: bool, magnitude: nat },
}

/// The sign bit of a pattern.
pub const SIGN_BIT: u32 = 0x8000_0000;

/// The pattern of positive infinity; every larger sign-cleared pattern is a NaN.
pub const INFINITY_BITS: u32 = 0x7f80_0000;

/// The quiet NaN that the arithmetic of this crate produces.
pub const NAN_BITS: u32 = 0x7fc0_0000;

/// Two to the 23rd: the implicit leading bit of a normal significand.
pub const HIDDEN_BIT: u32 = 0x80_0000;

/// The pattern of 1.0.
pub const ONE_BITS: u32 = 0x3f80_0000;

/// The magnitude of 1.0 in units of 2^-149.
pub open spec fn unit() -> nat {
    pow2(149)
}

/// The least magnitude that no finite binary32 number reaches: 2^128, in units of 2^-149.
pub open spec fn overflow_threshold() -> nat {
    pow2(277)
}

/// The pattern with its sign bit cleared.
pub open spec fn abs_bits(bits: u32) -> nat {
    if bits >= SIGN_BIT {
        (bits - SIGN_BIT) as nat
    } else {
        bits as nat
    }
}

/// The magnitude that a sign-cleared pattern up to `INFINITY_BITS` encodes.
///
/// With exponent field `e` and fraction field `f`, a subnormal (`e == 0`) is
/// `f` units and a normal number is `(2^23 + f) * 2^(e - 1)` units. The same
/// formula sends the pattern of infinity to `overflow_threshold()`.
pub open spec fn magnitude_of(abs: nat) -> nat {
    let e = abs / (HIDDEN_BIT as nat);
    let f = abs % (HIDDEN_BIT as nat);
    if e == 0 {
        f
    } else {
        (HIDDEN_BIT as nat + f) * pow2((e - 1) as nat)
    }
}

/// The value of a bit pattern.
pub open spec fn decode(bits: u32) -> Value {
    let a = abs_bits(bits);
    let negative = bits >= SIGN_BIT;
    if a > INFINITY_BITS {
        Value::Nan
    } else if a == INFINITY_BITS {
        Value::Infinite { negative }
    } else {
        Value::Finite { negative, magnitude: magnitude_of(a) }
    }
}

/// The place of a value on the number line, in units of 2^-149; infinities sit
/// at plus and minus `overflow_threshold()`. Both zeros have rank 0.
pub open spec fn rank(v: Value) -> int {
    match v {
        Value::Nan => 0,
        Value::Infinite { negative } => if negative {
            -(overflow_threshold() as int)
        } else {
            overflow_threshold() as int
        },
        Value::Finite { negative, magnitude } => if negative {
            -(magnitude as int)
        } else {
            magnitude as int
        },
    }
}

/// `a < b` as IEEE 754 orders numbers: false as soon as either side is a NaN.
pub open spec fn less_than(a: Value, b: Value) -> bool {
    &&& a !is Nan
    &&& b !is Nan
    &&& rank(a) < rank(b)
}

/// The value with its sign flipped.
pub open spec fn negated(v: Value) -> Value {
    match v {
        Value::Nan => Value::Nan,
        Value::Infinite { negative } => Value::Infinite { negative: !negative },
        Value::Finite { negative, magnitude } => Value::Finite { negative: !negative, magnitude },
    }
}

/// The value with its sign cleared.
pub open spec fn absolute(v: Value) -> Value {
    match v {
        Value::Nan => Value::Nan,
        Value::Infinite { negative } => Value::Infinite { negative: false },
        Value::Finite { negative, magnitude } => Value::Finite { negative: false, magnitude },
    }
}

/// A normal pattern's magnitude lies in the binade that its exponent field names.
pub proof fn lemma_magnitude_bounds(abs: nat)
    requires
        abs <= INFINITY_BITS,
    ensures
        abs < HIDDEN_BIT ==> magnitude_of(abs) == abs,
        abs >= HIDDEN_BIT ==> HIDDEN_BIT * pow2((abs / (HIDDEN_BIT as nat) - 1) as nat)
            <= magnitude_of(abs) < HIDDEN_BIT * pow2(abs / (HIDDEN_BIT as nat)),
{
    let e = abs / (HIDDEN_BIT as nat);
    let f = abs % (HIDDEN_BIT as nat);
    if e >= 1 {
        let p = pow2((e - 1) as nat);
        lemma_pow2_pos((e - 1) as nat);
        lemma_pow2_unfold(e);
        assert(HIDDEN_BIT * p <= (HIDDEN_BIT + f) * p < HIDDEN_BIT * (2 * p)) by (nonlinear_arith)
            requires
                0 <= f < HIDDEN_BIT,
                p > 0,
        ;
    }
}

/// Larger sign-cleared patterns encode larger magnitudes.
pub proof fn lemma_magnitude_monotonic(x: nat, y: nat)
    requires
        x < y <= INFINITY_BITS,
    ensures
        magnitude_of(x) < magnitude_of(y),
{
    let ex = x / (HIDDEN_BIT as nat);
    let ey = y / (HIDDEN_BIT as nat);
    let fx = x % (HIDDEN_BIT as nat);
    let fy = y % (HIDDEN_BIT as nat);
    lemma_magnitude_bounds(x);
    lemma_magnitude_bounds(y);
    if ex == ey {
        if ex >= 1 {
            let p = pow2((ex - 1) as nat);
            lemma_pow2_pos((ex - 1) as nat);
            assert((HIDDEN_BIT + fx) * p < (HIDDEN_BIT + fy) * p) by (nonlinear_arith)
                requires
                    0 <= fx < fy,
                    p > 0,
            ;
        }
    } else {
        assert(ex < ey);
        if ex < ey - 1 {
            lemma_pow2_strictly_increases(ex, (ey - 1) as nat);
        }
        let px = pow2(ex);
        let py = pow2((ey - 1) as nat);
        assert(HIDDEN_BIT * px <= HIDDEN_BIT * py) by (nonlinear_arith)
            requires
                px <= py,
        ;
        if ex == 0 {
            lemma2_to64();
        }
    }
}

/// Distinct sign-cleared patterns encode distinct magnitudes.
proof fn lemma_magnitude_injective(x: nat, y: nat)
    requires
        x <= INFINITY_BITS,
        y <= INFINITY_BITS,
        magnitude_of(x) == magnitude_of(y),
    ensures
        x == y,
{
    if x < y {
        lemma_magnitude_monotonic(x, y);
    } else if y < x {
        lemma_magnitude_monotonic(y, x);
    }
}

/// A value that is not a NaN has one pattern only: what a contract says of a
/// number's value, it says of its bits.
pub proof fn lemma_value_determines_pattern(a: u32, b: u32)
    requires
        decode(a) == decode(b),
        decode(a) !is Nan,
    ensures
        a == b,
{
    lemma_infinity_magnitude();
    if abs_bits(a) < INFINITY_BITS {
        lemma_magnitude_injective(abs_bits(a), abs_bits(b));
    }
}

/// The pattern of infinity sits exactly at the overflow threshold.
pub proof fn lemma_infinity_magnitude()
    ensures
        magnitude_of(INFINITY_BITS as nat) == overflow_threshold(),
{
    lemma2_to64();
    lemma_pow2_adds(23, 254);
    assert(INFINITY_BITS as nat / (HIDDEN_BIT as nat) == 255);
    assert(INFINITY_BITS as nat % (HIDDEN_BIT as nat) == 0);
}

/// The pattern of 1.0 has magnitude `unit()`.
pub proof fn lemma_one_magnitude()
    ensures
        decode(ONE_BITS) == (Value::Finite { negative: false, magnitude: unit() }),
{
    lemma2_to64();
    lemma_pow2_adds(23, 126);
    assert(ONE_BITS as nat / (HIDDEN_BIT as nat) == 127);
    assert(ONE_BITS as nat % (HIDDEN_BIT as nat) == 0);
}

/// A binary32 number, held as its bit pattern.
#[derive(Clone, Copy, Debug)]
pub struct Binary32 {
    pub bits: u32,
}

impl View for Binary32 {
    type V = Value;

    open spec fn view(&self) -> Value {
        decode(self.bits)
    }
}

impl Binary32 {
    /// The number with the given bit pattern.
    pub fn from_bits(bits: u32) -> (r: Binary32)
        ensures
            r.bits == bits,
    {
        Binary32 { bits }
    }

    /// The bit pattern of the number.
    pub fn to_bits(self) -> (bits: u32)
        ensures
            bits == self.bits,
    {
        self.bits
    }

    /// The pattern with the sign bit cleared.
    pub fn magnitude_bits(self) -> (a: u32)
        ensures
            a == abs_bits(self.bits),
            a < SIGN_BIT,
    {
        if self.bits >= SIGN_BIT {
            self.bits - SIGN_BIT
        } else {
            self.bits
        }
    }

    /// Whether the sign bit is set.
    pub fn is_sign_negative(self) -> (negative: bool)
        ensures
            negative == (self.bits >= SIGN_BIT),
    {
        self.bits >= SIGN_BIT
    }

    /// Whether the number is a NaN.
    pub fn is_nan(self) -> (nan: bool)
        ensures
            nan == (self@ is Nan),
    {
        self.magnitude_bits() > INFINITY_BITS
    }

    /// Whether the number is an infinity.
    pub fn is_infinite(self) -> (infinite: bool)
        ensures
            infinite == (self@ is Infinite),
    {
        self.magnitude_bits() == INFINITY_BITS
    }

    /// Whether the number is a positive or negative zero.
    pub fn is_zero(self) -> (zero: bool)
        ensures
            zero == (self@ is Finite && self@->Finite_magnitude == 0),
    {
        proof {
            let a = abs_bits(self.bits);
            if 0 < a && a <= INFINITY_BITS {
                lemma_magnitude_monotonic(0, a);
            }
        }
        self.magnitude_bits() == 0
    }

    /// The number with its sign flipped.
    pub fn neg(self) -> (r: Binary32)
        ensures
            r@ == negated(self@),
    {
        if self.bits >= SIGN_BIT {
            Binary32 { bits: self.bits - SIGN_BIT }
        } else {
            Binary32 { bits: self.bits + SIGN_BIT }
        }
    }

    /// The number with its sign cleared.
    pub fn abs(self) -> (r: Binary32)
        ensures
            r@ == absolute(self@),
    {
        Binary32 { bits: self.magnitude_bits() }
    }

    /// `self < other`; false when either is a NaN.
    pub fn lt(self, other: Binary32) -> (less: bool)
        ensures
            less == less_than(self@, other@),
    {
        if self.is_nan() || other.is_nan() {
            return false;
        }
        let a = self.magnitude_bits();
        let b = other.magnitude_bits();
        proof {
            lemma_infinity_magnitude();
            if a < b {
                lemma_magnitude_monotonic(a as nat, b as nat);
            } else if b < a {
                lemma_magnitude_monotonic(b as nat, a as nat);
            }
            if 0 < a {
                lemma_magnitude_monotonic(0, a as nat);
            }
            if 0 < b {
                lemma_magnitude_monotonic(0, b as nat);
            }
            assert(rank(self@) == if self.bits >= SIGN_BIT {
                -(magnitude_of(a as nat) as int)
            } else {
                magnitude_of(a as nat) as int
            });
            assert(rank(other@) == if other.bits >= SIGN_BIT {
                -(magnitude_of(b as nat) as int)
            } else {
                magnitude_of(b as nat) as int
            });
        }
        let x: i64 = if self.is_sign_negative() {
            -(a as i64)
        } else {
            a as i64
        };
        let y: i64 = if other.is_sign_negative() {
            -(b as i64)
        } else {
            b as i64
        };
        x < y
    }

    /// `self > other`; false when either is a NaN.
    pub fn gt(self, other: Binary32) -> (greater: bool)
        ensures
            greater == less_than(other@, self@),
    {
        other.lt(self)
    }
}

} // verus!
