//! Monomials: a coefficient times a power of x.

use vstd::prelude::*;

use crate::float_ops::{exec_fadd, exec_fmul, exec_fsub, fadd, fmul, fsub, powf_bits};
use crate::fp::{exec_feq, feq, ONE_BITS, POS_ZERO};

verus! {

/// A monomial `c * x^e`.  Both fields hold the bit pattern of the binary64
/// value they stand for, and two monomials are `==` exactly when both
/// patterns agree bitwise.
#[derive(Clone, Copy, Debug, PartialEq, Eq, Structural)]
pub struct Monomial {
    /// The pattern of the coefficient.
    pub c: u64,
    /// The pattern of the exponent of x.
    pub e: u64,
}

/// The error of adding two monomials whose exponents differ.  Canonicalization
/// internals only add monomials already known to have equal exponents, so they
/// never meet it; a caller of `add_monomial_of_same_power` can.
#[derive(Clone, Copy, Debug, PartialEq, Eq, Structural)]
pub struct ExponentMismatch;

impl ExponentMismatch {
    /// What went wrong, in words.
    pub fn message(&self) -> (r: &'static str)
        ensures
            r@ == "Cannot add monomials with different powers of x."@,
    {
        "Cannot add monomials with different powers of x."
    }
}

/// The derivative of a monomial by the power rule:
/// `c * x^e` becomes `(c * e) * x^(e - 1)`.
pub open spec fn mono_derivative(m: Monomial) -> Monomial {
    Monomial { c: fmul(m.c, m.e), e: fsub(m.e, ONE_BITS) }
}

/// The derivative taken `n` times in sequence.
pub open spec fn mono_nth_derivative(m: Monomial, n: nat) -> Monomial
    decreases n,
{
    if n == 0 {
        m
    } else {
        mono_derivative(mono_nth_derivative(m, (n - 1) as nat))
    }
}

/// The product of two monomials: coefficients multiply, exponents add.
pub open spec fn mono_mul(a: Monomial, b: Monomial) -> Monomial {
    Monomial { c: fmul(a.c, b.c), e: fadd(a.e, b.e) }
}

impl Monomial {
    /// A monomial from a coefficient pattern and an exponent pattern.
    pub fn new(c: u64, e: u64) -> (r: Monomial)
        ensures
            r == (Monomial { c, e }),
    {
        Monomial { c, e }
    }

    /// The value `c * x^e` at the point `x`.  The power is computed by std
    /// with no stated precision, so only the final multiplication is pinned.
    pub fn value(&self, x: u64) -> (r: u64)
        ensures
            exists|p: u64| r == fmul(self.c, p),
    {
        let p = powf_bits(x, self.e);
        exec_fmul(self.c, p)
    }

    /// The sum of two monomials of the same power of x: the coefficients add
    /// and the exponent is kept.  Unequal exponents are an `ExponentMismatch`.
    pub fn add_monomial_of_same_power(&self, other: Monomial) -> (r: Result<
        Monomial,
        ExponentMismatch,
    >)
        ensures
            feq(self.e, other.e) ==> r == Ok::<Monomial, ExponentMismatch>(
                Monomial { c: fadd(self.c, other.c), e: self.e },
            ),
            !feq(self.e, other.e) ==> r == Err::<Monomial, ExponentMismatch>(ExponentMismatch),
    {
        if exec_feq(self.e, other.e) {
            Ok(Monomial { c: exec_fadd(self.c, other.c), e: self.e })
        } else {
            Err(ExponentMismatch)
        }
    }

    /// The product of two monomials: always defined.
    pub fn multiply_monomial(&self, other: Monomial) -> (r: Monomial)
        ensures
            r == mono_mul(*self, other),
    {
        Monomial { c: exec_fmul(self.c, other.c), e: exec_fadd(self.e, other.e) }
    }

    /// The derivative by the power rule.  A constant term (`e == 0`) becomes
    /// `0 * x^-1`, which canonicalization later drops.
    pub fn derivative(&self) -> (r: Monomial)
        ensures
            r == mono_derivative(*self),
    {
        Monomial { c: exec_fmul(self.c, self.e), e: exec_fsub(self.e, ONE_BITS) }
    }

    /// The derivative applied `n` times in sequence; `n == 0` returns the
    /// monomial unchanged.
    pub fn nth_derivative(&self, n: u32) -> (r: Monomial)
        ensures
            r == mono_nth_derivative(*self, n as nat),
    {
        let mut m = *self;
        let mut i: u32 = 0;
        while i < n
            invariant
                i <= n,
                m == mono_nth_derivative(*self, i as nat),
            decreases n - i,
        {
            m = m.derivative();
            i = i + 1;
        }
        m
    }
}

impl Default for Monomial {
    /// The monomial `0 * x^0`, the constant 0.
    fn default() -> (r: Self)
        ensures
            r == (Monomial { c: POS_ZERO, e: POS_ZERO }),
    {
        Monomial { c: POS_ZERO, e: POS_ZERO }
    }
}

} // verus!
