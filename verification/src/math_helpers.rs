//! A small helper for approximate equality of two binary64 values.

use vstd::prelude::*;

use crate::float_ops::{exec_fsub, fsub};
use crate::fp::{exec_fabs, exec_flt, fabs, flt, TOLERANCE_BITS};

verus! {

/// Whether the two binary64 values, given as patterns, lie strictly within
/// the tolerance of one another: `|a - b| < 1e-10`.
pub fn is_equal_within_tolerance_to(a: &u64, b: &u64) -> (r: bool)
    ensures
        r == flt(fabs(fsub(*a, *b)), TOLERANCE_BITS),
{
    exec_flt(exec_fabs(exec_fsub(*a, *b)), TOLERANCE_BITS)
}

} // verus!
