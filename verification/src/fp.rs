//! A bit-level model of IEEE 754 binary64 values.
//!
//! Every coefficient and exponent of the library is carried as the 64-bit
//! pattern of the binary64 value it stands for (what `to_bits` returns).
//! Which class a value belongs to (zero, finite, infinite, NaN), its sign,
//! and how two values compare are fully determined by the patterns, so they
//! are defined and verified here as plain integer logic.
//!
//! A pattern is read as sign bit plus magnitude.  Two non-NaN values are
//! IEEE-equal exactly when they have equal magnitudes with equal signs, or
//! are both zeros; the order of non-NaN values is the order of their
//! magnitudes, negated for negative signs.  NaN compares equal to nothing
//! and neither below nor above anything.

use vstd::prelude::*;

verus! {

/// The sign bit of a binary64 pattern.
pub const SIGN_MASK: u64 = 0x8000_0000_0000_0000;

/// The magnitude of an infinity: exponent field all ones, mantissa zero.
/// Patterns with a larger magnitude are the NaNs.
pub const INF_MAGNITUDE: u64 = 0x7ff0_0000_0000_0000;

/// The pattern of `+0.0`.
pub const POS_ZERO: u64 = 0;

/// The pattern of `-0.0`.
pub const NEG_ZERO: u64 = 0x8000_0000_0000_0000;

/// The canonical quiet NaN pattern.
pub const NAN_BITS: u64 = 0x7ff8_0000_0000_0000;

/// The pattern of `1.0`.
pub const ONE_BITS: u64 = 0x3ff0_0000_0000_0000;

/// The pattern of `1e-10`, the tolerance of the approximate comparisons.
pub const TOLERANCE_BITS: u64 = 0x3ddb_7cdf_d9d7_bdbb;

/// The magnitude of a pattern: its bits with the sign bit cleared.
pub open spec fn magnitude(a: u64) -> u64 {
    if a >= SIGN_MASK {
        (a - SIGN_MASK) as u64
    } else {
        a
    }
}

/// Whether the sign bit is set (true also for `-0.0` and negative NaNs).
pub open spec fn is_sign_neg(a: u64) -> bool {
    a >= SIGN_MASK
}

/// Whether the pattern is a NaN.
pub open spec fn is_nan(a: u64) -> bool {
    magnitude(a) > INF_MAGNITUDE
}

/// Whether the pattern is one of the two infinities.
pub open spec fn is_inf(a: u64) -> bool {
    magnitude(a) == INF_MAGNITUDE
}

/// Whether the pattern is a finite value (a zero, subnormal or normal).
pub open spec fn is_finite(a: u64) -> bool {
    magnitude(a) < INF_MAGNITUDE
}

/// Whether the pattern is one of the two zeros.
pub open spec fn is_zero(a: u64) -> bool {
    magnitude(a) == 0
}

/// Where a pattern stands in the order of the values: the magnitude, negated
/// when the sign is negative.  Both zeros get key 0.  Two non-NaN patterns
/// carry equal values exactly when their keys are equal, and the value order
/// of non-NaN patterns is the order of their keys.
pub open spec fn key(a: u64) -> int {
    if is_sign_neg(a) {
        -(magnitude(a) as int)
    } else {
        magnitude(a) as int
    }
}

/// IEEE 754 equality (`==` on the values): false whenever a NaN is involved,
/// and `+0.0 == -0.0`.
pub open spec fn feq(a: u64, b: u64) -> bool {
    !is_nan(a) && !is_nan(b) && key(a) == key(b)
}

/// IEEE 754 `<` on the values: false whenever a NaN is involved.
pub open spec fn flt(a: u64, b: u64) -> bool {
    !is_nan(a) && !is_nan(b) && key(a) < key(b)
}

/// IEEE 754 `>` on the values: false whenever a NaN is involved.
pub open spec fn fgt(a: u64, b: u64) -> bool {
    flt(b, a)
}

/// The absolute value: the sign bit cleared, also on a NaN.
pub open spec fn fabs(a: u64) -> u64 {
    magnitude(a)
}

/// The magnitude, as executable code.
pub fn exec_magnitude(a: u64) -> (r: u64)
    ensures
        r == magnitude(a),
{
    if a >= SIGN_MASK {
        a - SIGN_MASK
    } else {
        a
    }
}

/// Whether the pattern is a NaN, as executable code.
pub fn exec_is_nan(a: u64) -> (r: bool)
    ensures
        r == is_nan(a),
{
    exec_magnitude(a) > INF_MAGNITUDE
}

/// IEEE 754 equality of the values, as executable code.
pub fn exec_feq(a: u64, b: u64) -> (r: bool)
    ensures
        r == feq(a, b),
{
    let ma = exec_magnitude(a);
    let mb = exec_magnitude(b);
    if ma > INF_MAGNITUDE || mb > INF_MAGNITUDE {
        false
    } else if ma == 0 && mb == 0 {
        true
    } else {
        a == b
    }
}

/// IEEE 754 `<` of the values, as executable code.
pub fn exec_flt(a: u64, b: u64) -> (r: bool)
    ensures
        r == flt(a, b),
{
    let ma = exec_magnitude(a);
    let mb = exec_magnitude(b);
    if ma > INF_MAGNITUDE || mb > INF_MAGNITUDE {
        false
    } else if a >= SIGN_MASK {
        if b >= SIGN_MASK {
            mb < ma
        } else {
            ma != 0 || mb != 0
        }
    } else {
        if b >= SIGN_MASK {
            false
        } else {
            ma < mb
        }
    }
}

/// IEEE 754 `>` of the values, as executable code.
pub fn exec_fgt(a: u64, b: u64) -> (r: bool)
    ensures
        r == fgt(a, b),
{
    exec_flt(b, a)
}

/// Whether `a`'s key is at least `b`'s, as executable code.  Unlike `>=` on
/// the values this is a total order: every NaN pattern has a key too.
pub fn exec_key_ge(a: u64, b: u64) -> (r: bool)
    ensures
        r == (key(a) >= key(b)),
{
    let ma = exec_magnitude(a);
    let mb = exec_magnitude(b);
    if a >= SIGN_MASK {
        if b >= SIGN_MASK {
            ma <= mb
        } else {
            ma == 0 && mb == 0
        }
    } else {
        if b >= SIGN_MASK {
            true
        } else {
            ma >= mb
        }
    }
}

/// The absolute value of a pattern, as executable code.
pub fn exec_fabs(a: u64) -> (r: u64)
    ensures
        r == fabs(a),
{
    exec_magnitude(a)
}

} // verus!
