//! The four arithmetic operations on binary64 values, behind trusted wrappers.
//!
//! Addition, subtraction and multiplication of binary64 values are correctly
//! rounded (round to nearest, ties to even), so whenever the result is not a
//! NaN it is a single pattern fully determined by the two operand patterns.
//! Each operation gets an uninterpreted name for that pattern (`sum_bits`,
//! `diff_bits`, `prod_bits`), a total spec function (`fadd`, `fsub`, `fmul`)
//! built from the name, and an executable function proved against the spec
//! function.  When the result is a NaN its payload is not determined, so the
//! wrappers promise only that a NaN comes back, and the executable functions
//! return the canonical quiet NaN in that case: the one way the library's
//! arithmetic departs from std's is that every NaN it produces is `NAN_BITS`.
//!
//! The spec functions bake the facts the wrappers rely on into their
//! definitions, so proofs can use them on any arguments:
//! - addition and multiplication are commutative (the name is applied to the
//!   two patterns in a fixed order);
//! - a non-NaN case never yields a NaN (`no_nan`);
//! - a sum is `-0.0` only when both addends are (`fadd`'s last guard);
//! - the difference of a finite value from itself is `+0.0`.
//!
//! Raising to a power (`powf`) is not correctly rounded and std makes no
//! promise about its precision, so it gets no name and no clause: callers
//! treat its result as an arbitrary pattern.

use core::primitive::f64 as Real;
use vstd::prelude::*;

use crate::fp::{
    is_finite, is_inf, is_nan, is_sign_neg, is_zero, NAN_BITS, NEG_ZERO, POS_ZERO,
};

verus! {

/// The pattern of the sum of two binary64 values, written with the smaller
/// pattern first; applied only where the sum is not a NaN.
pub uninterp spec fn sum_bits(a: u64, b: u64) -> u64;

/// The pattern of the difference of two binary64 values; applied only where
/// the difference is not a NaN.
pub uninterp spec fn diff_bits(a: u64, b: u64) -> u64;

/// The pattern of the product of two binary64 values, written with the
/// smaller pattern first; applied only where the product is not a NaN.
pub uninterp spec fn prod_bits(a: u64, b: u64) -> u64;

/// When the sum of two binary64 values is a NaN: a NaN operand, or two
/// infinities of opposite sign.
pub open spec fn add_nan_case(a: u64, b: u64) -> bool {
    is_nan(a) || is_nan(b) || (is_inf(a) && is_inf(b) && is_sign_neg(a) != is_sign_neg(b))
}

/// When the difference of two binary64 values is a NaN: a NaN operand, or
/// two infinities of the same sign.
pub open spec fn sub_nan_case(a: u64, b: u64) -> bool {
    is_nan(a) || is_nan(b) || (is_inf(a) && is_inf(b) && is_sign_neg(a) == is_sign_neg(b))
}

/// When the product of two binary64 values is a NaN: a NaN operand, or a
/// zero times an infinity.
pub open spec fn mul_nan_case(a: u64, b: u64) -> bool {
    is_nan(a) || is_nan(b) || (is_zero(a) && is_inf(b)) || (is_inf(a) && is_zero(b))
}

/// Maps any NaN pattern to `+0.0`.  Wrapped around an uninterpreted name this
/// records definitionally that the named result is never a NaN; actual
/// results never take the branch.
pub open spec fn no_nan(x: u64) -> u64 {
    if is_nan(x) {
        POS_ZERO
    } else {
        x
    }
}

/// The pattern of the sum of the values of `a` and `b`, with every NaN
/// outcome folded to the canonical quiet NaN.  Commutative by construction.
pub open spec fn fadd(a: u64, b: u64) -> u64 {
    if add_nan_case(a, b) {
        NAN_BITS
    } else {
        let v = if a <= b {
            no_nan(sum_bits(a, b))
        } else {
            no_nan(sum_bits(b, a))
        };
        if v == NEG_ZERO && !(a == NEG_ZERO && b == NEG_ZERO) {
            POS_ZERO
        } else {
            v
        }
    }
}

/// The pattern of the difference of the values of `a` and `b`, with every
/// NaN outcome folded to the canonical quiet NaN.
pub open spec fn fsub(a: u64, b: u64) -> u64 {
    if sub_nan_case(a, b) {
        NAN_BITS
    } else if is_finite(a) && a == b {
        POS_ZERO
    } else {
        no_nan(diff_bits(a, b))
    }
}

/// The pattern of the product of the values of `a` and `b`, with every NaN
/// outcome folded to the canonical quiet NaN.  Commutative by construction.
pub open spec fn fmul(a: u64, b: u64) -> u64 {
    if mul_nan_case(a, b) {
        NAN_BITS
    } else if a <= b {
        no_nan(prod_bits(a, b))
    } else {
        no_nan(prod_bits(b, a))
    }
}

/// Relies on `+` of std's binary64 type: IEEE 754 addition, correctly
/// rounded, so outside the NaN case the result pattern is a function of the
/// unordered pair of operand patterns, never itself a NaN, and `-0.0` only
/// when both operands are `-0.0`; in the NaN case some NaN comes back.
#[verifier::external_body]
fn add_bits(a: u64, b: u64) -> (r: u64)
    ensures
        !add_nan_case(a, b) && a <= b ==> r == sum_bits(a, b),
        !add_nan_case(a, b) && b <= a ==> r == sum_bits(b, a),
        !add_nan_case(a, b) ==> r == fadd(a, b),
        add_nan_case(a, b) ==> is_nan(r),
{
    (Real::from_bits(a) + Real::from_bits(b)).to_bits()
}

/// Relies on `-` of std's binary64 type: IEEE 754 subtraction, correctly
/// rounded, so outside the NaN case the result pattern is a function of the
/// operand patterns, never itself a NaN, and `x - x == +0.0` for finite `x`;
/// in the NaN case some NaN comes back.
#[verifier::external_body]
fn sub_bits(a: u64, b: u64) -> (r: u64)
    ensures
        !sub_nan_case(a, b) ==> r == diff_bits(a, b),
        !sub_nan_case(a, b) ==> r == fsub(a, b),
        sub_nan_case(a, b) ==> is_nan(r),
{
    (Real::from_bits(a) - Real::from_bits(b)).to_bits()
}

/// Relies on `*` of std's binary64 type: IEEE 754 multiplication, correctly
/// rounded, so outside the NaN case the result pattern is a function of the
/// unordered pair of operand patterns and never itself a NaN; in the NaN
/// case some NaN comes back.
#[verifier::external_body]
fn mul_bits(a: u64, b: u64) -> (r: u64)
    ensures
        !mul_nan_case(a, b) && a <= b ==> r == prod_bits(a, b),
        !mul_nan_case(a, b) && b <= a ==> r == prod_bits(b, a),
        !mul_nan_case(a, b) ==> r == fmul(a, b),
        mul_nan_case(a, b) ==> is_nan(r),
{
    (Real::from_bits(a) * Real::from_bits(b)).to_bits()
}

/// Relies on `powf` of std's binary64 type to raise a value to a real power.
/// std documents its precision as non-deterministic, so nothing is promised
/// of the result: callers treat it as an arbitrary pattern.
#[verifier::external_body]
pub(crate) fn powf_bits(x: u64, e: u64) -> u64 {
    Real::from_bits(x).powf(Real::from_bits(e)).to_bits()
}

/// The sum of two binary64 patterns, with NaN outcomes canonicalized.
pub(crate) fn exec_fadd(a: u64, b: u64) -> (r: u64)
    ensures
        r == fadd(a, b),
{
    let s = add_bits(a, b);
    if crate::fp::exec_is_nan(s) {
        NAN_BITS
    } else {
        s
    }
}

/// The difference of two binary64 patterns, with NaN outcomes canonicalized.
pub(crate) fn exec_fsub(a: u64, b: u64) -> (r: u64)
    ensures
        r == fsub(a, b),
{
    let s = sub_bits(a, b);
    if crate::fp::exec_is_nan(s) {
        NAN_BITS
    } else {
        s
    }
}

/// The product of two binary64 patterns, with NaN outcomes canonicalized.
pub(crate) fn exec_fmul(a: u64, b: u64) -> (r: u64)
    ensures
        r == fmul(a, b),
{
    let s = mul_bits(a, b);
    if crate::fp::exec_is_nan(s) {
        NAN_BITS
    } else {
        s
    }
}

/// A sum is commutative, whatever the operands.
pub proof fn lemma_fadd_comm(a: u64, b: u64)
    ensures
        fadd(a, b) == fadd(b, a),
{
}

/// A product is commutative, whatever the operands.
pub proof fn lemma_fmul_comm(a: u64, b: u64)
    ensures
        fmul(a, b) == fmul(b, a),
{
}

/// A sum is a NaN exactly in the NaN case, whatever the operands.
pub proof fn lemma_fadd_nan(a: u64, b: u64)
    ensures
        is_nan(fadd(a, b)) <==> add_nan_case(a, b),
{
}

/// A difference is a NaN exactly in the NaN case, whatever the operands.
pub proof fn lemma_fsub_nan(a: u64, b: u64)
    ensures
        is_nan(fsub(a, b)) <==> sub_nan_case(a, b),
{
}

} // verus!
