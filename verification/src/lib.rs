//! calcucalc: a small single-variable symbolic algebra library.
//!
//! Polynomials are sums of monomials (coefficient times a power of x), and the
//! library offers addition, multiplication, differentiation, evaluation and
//! canonicalization ("simplification") on them, together with tolerance-based
//! comparison and interval trend/concavity queries.
//!
//! Coefficients and exponents are IEEE 754 binary64 values.  Verus cannot
//! reason about floating-point values, so the library carries each one as the
//! 64-bit pattern that `to_bits` gives for it.  Comparisons and classification
//! of binary64 values are fully determined by the patterns and are implemented
//! and verified here as plain integer logic (`fp`); the four arithmetic
//! operations are performed by std behind trusted wrappers (`float_ops`).

pub mod canon;
pub mod float_ops;
pub mod fp;
pub mod laws;
pub mod math_helpers;
pub mod monomial;
pub mod polynomial;

pub use monomial::ExponentMismatch;
pub use monomial::Monomial;
pub use polynomial::Polynomial;
