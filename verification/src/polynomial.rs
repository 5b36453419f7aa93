//! Polynomials: ordered term lists with arithmetic, canonicalization and
//! interval analysis.
//!
//! A `Polynomial` enforces no invariant on construction: duplicate exponents,
//! zero terms and arbitrary order are all allowed.  Only what `simplified`
//! (and so `add_polynomial`, `multiply_polynomial` and the derivatives)
//! returns is canonical: at most one term per exponent, no zero terms, and
//! descending exponent order.

use vstd::prelude::*;

use crate::canon::{
    canon, combined, insert_desc, lemma_canon, lemma_combined, lemma_find_like_is,
    lemma_insert_pos_is, lemma_without_zeros, merge_step, no_zero_coefficients, pairwise_unlike,
    simplifiable, sorted_by_exponent, sorted_desc, without_zeros,
};
use crate::float_ops::{add_nan_case, exec_fadd, exec_fsub, fadd, fmul, fsub, lemma_fadd_nan,
    lemma_fsub_nan};
use crate::fp::{exec_fabs, exec_feq, exec_fgt, exec_flt, exec_key_ge, fabs, feq, fgt, flt, key,
    ONE_BITS, POS_ZERO, TOLERANCE_BITS};
use crate::monomial::{mono_derivative, mono_mul, Monomial};
use vstd::string::StringExecFns;

verus! {

/// The value of a term list at a point, folded left to right from zero, when
/// the power of x in the term at each index has the pattern at the same
/// index of `ps`.
pub open spec fn poly_value(s: Seq<Monomial>, ps: Seq<u64>) -> u64
    decreases s.len(),
{
    if s.len() == 0 {
        POS_ZERO
    } else {
        fadd(poly_value(s.drop_last(), ps.drop_last()), fmul(s.last().c, ps.last()))
    }
}

/// Every product of a term of `a` with a term of `b`, in row order: all of
/// the first term of `a` times `b`, then all of the second, and so on.
pub open spec fn cross_terms(a: Seq<Monomial>, b: Seq<Monomial>) -> Seq<Monomial>
    decreases a.len(),
{
    if a.len() == 0 {
        Seq::empty()
    } else {
        cross_terms(a.drop_last(), b) + row_terms(a.last(), b)
    }
}

/// The products of one term with every term of `b`, in order.
pub open spec fn row_terms(m: Monomial, b: Seq<Monomial>) -> Seq<Monomial>
    decreases b.len(),
{
    if b.len() == 0 {
        Seq::empty()
    } else {
        row_terms(m, b.drop_last()).push(mono_mul(m, b.last()))
    }
}

/// Each term replaced by its derivative.
pub open spec fn derived_terms(s: Seq<Monomial>) -> Seq<Monomial> {
    s.map_values(|m: Monomial| mono_derivative(m))
}

/// The terms after differentiating `n` times, each round simplified.
pub open spec fn nth_derived(s: Seq<Monomial>, n: nat) -> Seq<Monomial>
    decreases n,
{
    if n == 0 {
        s
    } else {
        canon(derived_terms(nth_derived(s, (n - 1) as nat)))
    }
}

/// Whether two terms agree within the tolerance, coefficient and exponent.
pub open spec fn within_tolerance(m1: Monomial, m2: Monomial) -> bool {
    !fgt(fabs(fsub(m1.c, m2.c)), TOLERANCE_BITS) && !fgt(fabs(fsub(m1.e, m2.e)), TOLERANCE_BITS)
}

/// Whether two term lists are equal within the tolerance: both canonical
/// forms have the same length and agree position by position.
pub open spec fn tolerance_equal(x: Seq<Monomial>, y: Seq<Monomial>) -> bool {
    canon(x).len() == canon(y).len() && forall|i: int|
        0 <= i < canon(x).len() ==> within_tolerance(canon(x)[i], canon(y)[i])
}

/// When two term lists can be multiplied: the cross product has at most one
/// term, or no exponent sum is a NaN (which, exponents being non-NaN, rules
/// out adding opposite infinities).
pub open spec fn mul_compatible(a: Seq<Monomial>, b: Seq<Monomial>) -> bool {
    a.len() * b.len() <= 1 || forall|i: int, j: int|
        0 <= i < a.len() && 0 <= j < b.len() ==> !add_nan_case(a[i].e, b[j].e)
}

/// The word for how two values at the ends of an interval compare: they
/// rise, fall, stay, or (on a NaN) have no order.
pub open spec fn trend_class(start_value: u64, end_value: u64) -> Seq<char> {
    if flt(start_value, end_value) {
        "increasing"@
    } else if fgt(start_value, end_value) {
        "decreasing"@
    } else if feq(start_value, end_value) {
        "constant"@
    } else {
        "undefined"@
    }
}

/// The word for the sign of a second derivative at the two ends of an
/// interval: positive at both, negative at both, or neither.
pub open spec fn concavity_class(start_value: u64, end_value: u64) -> Seq<char> {
    if fgt(start_value, POS_ZERO) && fgt(end_value, POS_ZERO) {
        "concave up"@
    } else if flt(start_value, POS_ZERO) && flt(end_value, POS_ZERO) {
        "concave down"@
    } else {
        "undefined"@
    }
}

/// The row of products of one term with every term of `b`: one product per
/// term of `b`, in order.
pub proof fn lemma_row_terms(m: Monomial, b: Seq<Monomial>)
    ensures
        row_terms(m, b).len() == b.len(),
        forall|j: int| 0 <= j < b.len() ==> row_terms(m, b)[j] == mono_mul(m, b[j]),
    decreases b.len(),
{
    if b.len() > 0 {
        lemma_row_terms(m, b.drop_last());
        assert forall|j: int| 0 <= j < b.len() implies row_terms(m, b)[j] == mono_mul(m, b[j]) by {
            if j < b.len() - 1 {
                assert(b.drop_last()[j] == b[j]);
            } else {
                assert(b[j] == b.last());
            }
        }
    }
}

/// The cross product has one term per pair, each the product of a term of
/// `a` with a term of `b`.
pub proof fn lemma_cross_terms(a: Seq<Monomial>, b: Seq<Monomial>)
    ensures
        cross_terms(a, b).len() == a.len() * b.len(),
        forall|k: int|
            0 <= k < cross_terms(a, b).len() ==> #[trigger] pair_product_of(
                a,
                b,
                cross_terms(a, b)[k],
            ),
    decreases a.len(),
{
    if a.len() > 0 {
        let d = a.drop_last();
        lemma_cross_terms(d, b);
        lemma_row_terms(a.last(), b);
        assert(a.len() * b.len() == d.len() * b.len() + b.len()) by (nonlinear_arith)
            requires
                a.len() == d.len() + 1,
        ;
        assert forall|k: int| 0 <= k < cross_terms(a, b).len() implies #[trigger] pair_product_of(
            a,
            b,
            cross_terms(a, b)[k],
        ) by {
            if k < cross_terms(d, b).len() {
                assert(cross_terms(a, b)[k] == cross_terms(d, b)[k]);
                assert(pair_product_of(d, b, cross_terms(d, b)[k]));
                let (i, j) = choose|i: int, j: int|
                    0 <= i < d.len() && 0 <= j < b.len() && cross_terms(d, b)[k] == mono_mul(
                        d[i],
                        b[j],
                    );
                assert(d[i] == a[i]);
                assert(cross_terms(a, b)[k] == mono_mul(a[i], b[j]));
            } else {
                let j = k - cross_terms(d, b).len();
                assert(cross_terms(a, b)[k] == row_terms(a.last(), b)[j]);
                assert(a[a.len() - 1] == a.last());
                assert(cross_terms(a, b)[k] == mono_mul(a[a.len() - 1], b[j]));
            }
        }
    }
}

/// Whether `m` is the product of a term of `a` and a term of `b`.
pub open spec fn pair_product_of(a: Seq<Monomial>, b: Seq<Monomial>, m: Monomial) -> bool {
    exists|i: int, j: int| 0 <= i < a.len() && 0 <= j < b.len() && m == mono_mul(a[i], b[j])
}

/// Differentiating keeps a term list fit for the pipeline: the derivative of
/// a non-NaN exponent (taking one off) is no NaN.
pub proof fn lemma_derived_simplifiable(s: Seq<Monomial>)
    requires
        simplifiable(s),
    ensures
        simplifiable(derived_terms(s)),
{
    if s.len() > 1 {
        assert forall|i: int| 0 <= i < derived_terms(s).len() implies !crate::fp::is_nan(
            derived_terms(s)[i].e,
        ) by {
            lemma_fsub_nan(s[i].e, ONE_BITS);
        }
    }
}

/// A polynomial: the sum of an ordered list of monomials.
#[derive(Debug)]
pub struct Polynomial(pub Vec<Monomial>);

impl View for Polynomial {
    type V = Seq<Monomial>;

    open spec fn view(&self) -> Seq<Monomial> {
        self.0@
    }
}

impl PartialEq for Polynomial {
    /// Structural equality: the same terms, bitwise, in the same order.
    fn eq(&self, other: &Polynomial) -> (r: bool)
        ensures
            r == (self@ == other@),
    {
        if self.0.len() != other.0.len() {
            return false;
        }
        let mut i: usize = 0;
        while i < self.0.len()
            invariant
                0 <= i <= self@.len(),
                self@.len() == other@.len(),
                forall|k: int| 0 <= k < i ==> self@[k] == other@[k],
            decreases self@.len() - i,
        {
            if !(self.0[i] == other.0[i]) {
                return false;
            }
            i = i + 1;
        }
        proof {
            assert(self@ =~= other@);
        }
        true
    }
}

impl vstd::std_specs::cmp::PartialEqSpecImpl for Polynomial {
    open spec fn obeys_eq_spec() -> bool {
        true
    }

    open spec fn eq_spec(&self, other: &Polynomial) -> bool {
        self@ == other@
    }
}

/// A copy of a term list, element by element.
fn copy_terms(v: &Vec<Monomial>) -> (r: Vec<Monomial>)
    ensures
        r@ == v@,
{
    let mut out: Vec<Monomial> = Vec::new();
    let mut i: usize = 0;
    while i < v.len()
        invariant
            0 <= i <= v@.len(),
            out@ == v@.take(i as int),
        decreases v@.len() - i,
    {
        out.push(v[i]);
        proof {
            assert(v@.take(i + 1 as int) =~= v@.take(i as int).push(v@[i as int]));
        }
        i = i + 1;
    }
    proof {
        assert(v@.take(v@.len() as int) =~= v@);
    }
    out
}

impl Clone for Polynomial {
    /// A copy holding the same terms.
    fn clone(&self) -> (r: Self)
        ensures
            r@ == self@,
    {
        Polynomial(copy_terms(&self.0))
    }
}

impl Polynomial {
    /// The empty polynomial: the constant 0.
    pub fn new() -> (r: Polynomial)
        ensures
            r@ == Seq::<Monomial>::empty(),
    {
        Polynomial(Vec::new())
    }

    /// Combines the terms that share an exponent, left to right: each term
    /// folds onto the first earlier term with an equal exponent, or is
    /// appended.
    pub fn simplify_by_combining_alike_powers(&self) -> (r: Polynomial)
        ensures
            r@ == combined(self@),
    {
        let mut out: Vec<Monomial> = Vec::new();
        let mut i: usize = 0;
        while i < self.0.len()
            invariant
                0 <= i <= self@.len(),
                out@ == combined(self@.take(i as int)),
            decreases self@.len() - i,
        {
            let m = self.0[i];
            let mut j: usize = 0;
            let mut found = false;
            while !found && j < out.len()
                invariant
                    0 <= j <= out@.len(),
                    forall|k: int| 0 <= k < j ==> !feq(out@[k].e, m.e),
                    found ==> j < out@.len() && feq(out@[j as int].e, m.e),
                decreases out@.len() - j + if found {
                    0int
                } else {
                    1int
                },
            {
                if exec_feq(out[j].e, m.e) {
                    found = true;
                } else {
                    j = j + 1;
                }
            }
            proof {
                lemma_find_like_is(out@, m.e, j as int);
                assert(self@.take(i as int + 1).drop_last() =~= self@.take(i as int));
                assert(self@.take(i as int + 1).last() == self@[i as int]);
            }
            if found {
                let merged = Monomial { c: exec_fadd(out[j].c, m.c), e: out[j].e };
                out[j] = merged;
            } else {
                out.push(m);
            }
            proof {
                assert(out@ == merge_step(combined(self@.take(i as int)), self@[i as int]));
            }
            i = i + 1;
        }
        proof {
            assert(self@.take(self@.len() as int) =~= self@);
        }
        Polynomial(out)
    }

    /// Drops every term whose coefficient equals zero.
    pub fn eliminate_zero_coefficients(&self) -> (r: Polynomial)
        ensures
            r@ == without_zeros(self@),
    {
        let mut out: Vec<Monomial> = Vec::new();
        let mut i: usize = 0;
        while i < self.0.len()
            invariant
                0 <= i <= self@.len(),
                out@ == without_zeros(self@.take(i as int)),
            decreases self@.len() - i,
        {
            let m = self.0[i];
            if !exec_feq(m.c, POS_ZERO) {
                out.push(m);
            }
            proof {
                assert(self@.take(i as int + 1).drop_last() =~= self@.take(i as int));
                assert(self@.take(i as int + 1).last() == self@[i as int]);
            }
            i = i + 1;
        }
        proof {
            assert(self@.take(self@.len() as int) =~= self@);
        }
        Polynomial(out)
    }

    /// Stably sorts the terms by descending exponent.  Combines nothing:
    /// terms with equal exponents stay, in their order.
    pub fn sort_by_exponent(&self) -> (r: Polynomial)
        requires
            simplifiable(self@),
        ensures
            r@ == sorted_desc(self@),
    {
        let mut out: Vec<Monomial> = Vec::new();
        let mut i: usize = 0;
        while i < self.0.len()
            invariant
                0 <= i <= self@.len(),
                out@ == sorted_desc(self@.take(i as int)),
            decreases self@.len() - i,
        {
            let m = self.0[i];
            let mut j: usize = 0;
            let mut placed = false;
            while !placed && j < out.len()
                invariant
                    0 <= j <= out@.len(),
                    forall|k: int| 0 <= k < j ==> key(out@[k].e) >= key(m.e),
                    placed ==> j < out@.len() && key(out@[j as int].e) < key(m.e),
                decreases out@.len() - j + if placed {
                    0int
                } else {
                    1int
                },
            {
                if exec_key_ge(out[j].e, m.e) {
                    j = j + 1;
                } else {
                    placed = true;
                }
            }
            proof {
                lemma_insert_pos_is(out@, m, j as int);
                assert(self@.take(i as int + 1).drop_last() =~= self@.take(i as int));
                assert(self@.take(i as int + 1).last() == self@[i as int]);
            }
            out.insert(j, m);
            proof {
                assert(out@ == insert_desc(sorted_desc(self@.take(i as int)), self@[i as int]));
            }
            i = i + 1;
        }
        proof {
            assert(self@.take(self@.len() as int) =~= self@);
        }
        Polynomial(out)
    }

    /// The canonical form: like terms combined, zero terms dropped, the rest
    /// sorted by descending exponent.  Afterwards no two terms share an
    /// exponent, no coefficient equals zero, and the exponents descend.
    pub fn simplified(&self) -> (r: Polynomial)
        requires
            simplifiable(self@),
        ensures
            r@ == canon(self@),
            pairwise_unlike(r@),
            no_zero_coefficients(r@),
            sorted_by_exponent(r@),
    {
        let c = self.simplify_by_combining_alike_powers();
        let w = c.eliminate_zero_coefficients();
        proof {
            lemma_combined(self@);
            lemma_without_zeros(combined(self@));
            lemma_canon(self@);
        }
        w.sort_by_exponent()
    }

    /// The value of the polynomial at `x`: the sum of the term values, left
    /// to right, starting from zero.  The powers of x come from std with no
    /// stated precision, so the contract fixes the folding over some
    /// sequence of power patterns.
    pub fn value(&self, x: u64) -> (r: u64)
        ensures
            exists|ps: Seq<u64>| ps.len() == self@.len() && r == poly_value(self@, ps),
    {
        let mut acc: u64 = POS_ZERO;
        let ghost mut ps: Seq<u64> = Seq::empty();
        let mut i: usize = 0;
        while i < self.0.len()
            invariant
                0 <= i <= self@.len(),
                ps.len() == i,
                acc == poly_value(self@.take(i as int), ps),
            decreases self@.len() - i,
        {
            let term = self.0[i].value(x);
            acc = exec_fadd(acc, term);
            proof {
                let p = choose|p: u64| term == fmul(self@[i as int].c, p);
                let prev = ps;
                ps = ps.push(p);
                assert(ps.drop_last() =~= prev);
                assert(self@.take(i as int + 1).drop_last() =~= self@.take(i as int));
                assert(self@.take(i as int + 1).last() == self@[i as int]);
            }
            i = i + 1;
        }
        proof {
            assert(self@.take(self@.len() as int) =~= self@);
        }
        acc
    }

    /// The sum of two polynomials: the terms of both, then `simplified`.
    pub fn add_polynomial(&self, other: Polynomial) -> (r: Polynomial)
        requires
            simplifiable(self@ + other@),
        ensures
            r@ == canon(self@ + other@),
            pairwise_unlike(r@),
            no_zero_coefficients(r@),
            sorted_by_exponent(r@),
    {
        let mut terms = copy_terms(&self.0);
        let mut i: usize = 0;
        while i < other.0.len()
            invariant
                0 <= i <= other@.len(),
                terms@ == self@ + other@.take(i as int),
            decreases other@.len() - i,
        {
            terms.push(other.0[i]);
            proof {
                assert(self@ + other@.take(i as int + 1) =~= (self@ + other@.take(i as int)).push(
                    other@[i as int],
                ));
            }
            i = i + 1;
        }
        proof {
            assert(self@ + other@.take(other@.len() as int) =~= self@ + other@);
        }
        let p = Polynomial(terms);
        p.simplified()
    }

    /// The product of two polynomials: every term of one times every term of
    /// the other, then `simplified`.
    pub fn multiply_polynomial(&self, other: Polynomial) -> (r: Polynomial)
        requires
            mul_compatible(self@, other@),
        ensures
            r@ == canon(cross_terms(self@, other@)),
            pairwise_unlike(r@),
            no_zero_coefficients(r@),
            sorted_by_exponent(r@),
    {
        let mut elements: Vec<Monomial> = Vec::new();
        let mut i: usize = 0;
        while i < self.0.len()
            invariant
                0 <= i <= self@.len(),
                elements@ == cross_terms(self@.take(i as int), other@),
            decreases self@.len() - i,
        {
            let mut j: usize = 0;
            while j < other.0.len()
                invariant
                    0 <= i < self@.len(),
                    0 <= j <= other@.len(),
                    elements@ == cross_terms(self@.take(i as int), other@) + row_terms(
                        self@[i as int],
                        other@.take(j as int),
                    ),
                decreases other@.len() - j,
            {
                elements.push(self.0[i].multiply_monomial(other.0[j]));
                proof {
                    assert(other@.take(j as int + 1).drop_last() =~= other@.take(j as int));
                    assert(other@.take(j as int + 1).last() == other@[j as int]);
                }
                j = j + 1;
            }
            proof {
                assert(other@.take(other@.len() as int) =~= other@);
                assert(self@.take(i as int + 1).drop_last() =~= self@.take(i as int));
                assert(self@.take(i as int + 1).last() == self@[i as int]);
            }
            i = i + 1;
        }
        proof {
            assert(self@.take(self@.len() as int) =~= self@);
            let cross = cross_terms(self@, other@);
            lemma_cross_terms(self@, other@);
            if cross.len() > 1 {
                assert forall|k: int| 0 <= k < cross.len() implies !crate::fp::is_nan(
                    cross[k].e,
                ) by {
                    assert(pair_product_of(self@, other@, cross[k]));
                    let (a, b) = choose|a: int, b: int|
                        0 <= a < self@.len() && 0 <= b < other@.len() && cross[k] == mono_mul(
                            self@[a],
                            other@[b],
                        );
                    lemma_fadd_nan(self@[a].e, other@[b].e);
                }
            }
        }
        Polynomial(elements).simplified()
    }

    /// The derivative: each term differentiated by the power rule, then
    /// `simplified` (which drops the zero term a constant leaves behind).
    pub fn derivative(&self) -> (r: Polynomial)
        requires
            simplifiable(self@),
        ensures
            r@ == canon(derived_terms(self@)),
            pairwise_unlike(r@),
            no_zero_coefficients(r@),
            sorted_by_exponent(r@),
            simplifiable(r@),
    {
        let mut elements: Vec<Monomial> = Vec::new();
        let mut i: usize = 0;
        while i < self.0.len()
            invariant
                0 <= i <= self@.len(),
                elements@ == derived_terms(self@.take(i as int)),
            decreases self@.len() - i,
        {
            elements.push(self.0[i].derivative());
            proof {
                assert(derived_terms(self@.take(i as int + 1)) =~= derived_terms(
                    self@.take(i as int),
                ).push(mono_derivative(self@[i as int])));
            }
            i = i + 1;
        }
        proof {
            assert(self@.take(self@.len() as int) =~= self@);
            lemma_derived_simplifiable(self@);
            lemma_canon(derived_terms(self@));
        }
        Polynomial(elements).simplified()
    }

    /// The derivative taken `n` times in sequence; `n == 0` returns a copy.
    /// Each round is already simplified, so no intermediate bloat builds up.
    pub fn nth_derivative(&self, n: u32) -> (r: Polynomial)
        requires
            n == 0 || simplifiable(self@),
        ensures
            r@ == nth_derived(self@, n as nat),
    {
        let mut p = self.clone();
        let mut i: u32 = 0;
        while i < n
            invariant
                0 <= i <= n,
                p@ == nth_derived(self@, i as nat),
                i < n ==> simplifiable(p@),
            decreases n - i,
        {
            p = p.derivative();
            proof {
                lemma_derived_simplifiable(nth_derived(self@, i as nat));
                lemma_canon(derived_terms(nth_derived(self@, i as nat)));
            }
            i = i + 1;
        }
        p
    }

    /// Whether the two polynomials are equal within the tolerance: both are
    /// simplified first, then must have as many terms, each pair within the
    /// tolerance in coefficient and exponent.
    pub fn is_equal_within_tolerance_to(&self, other: Polynomial) -> (r: bool)
        requires
            simplifiable(self@),
            simplifiable(other@),
        ensures
            r == tolerance_equal(self@, other@),
    {
        let a = self.simplified();
        let b = other.simplified();
        if a.0.len() != b.0.len() {
            return false;
        }
        let mut i: usize = 0;
        while i < a.0.len()
            invariant
                0 <= i <= a@.len(),
                a@ == canon(self@),
                b@ == canon(other@),
                a@.len() == b@.len(),
                forall|k: int| 0 <= k < i ==> within_tolerance(a@[k], b@[k]),
            decreases a@.len() - i,
        {
            let dc = exec_fsub(a.0[i].c, b.0[i].c);
            let de = exec_fsub(a.0[i].e, b.0[i].e);
            if exec_fgt(exec_fabs(dc), TOLERANCE_BITS) || exec_fgt(exec_fabs(de), TOLERANCE_BITS) {
                return false;
            }
            i = i + 1;
        }
        true
    }

    /// Whether the polynomial's value rises, falls or stays from one end of
    /// the interval to the other.  The ends are swapped first if given in
    /// descending order; `"undefined"` appears only when a value is a NaN.
    pub fn trend_over_interval(&self, start: u64, end: u64) -> (r: String)
        ensures
            exists|ps: Seq<u64>, pe: Seq<u64>|
                ps.len() == self@.len() && pe.len() == self@.len() && r@ == trend_class(
                    poly_value(self@, ps),
                    poly_value(self@, pe),
                ),
    {
        let mut start_x = start;
        let mut end_x = end;
        if exec_fgt(start_x, end_x) {
            let t = start_x;
            start_x = end_x;
            end_x = t;
        }
        let start_value = self.value(start_x);
        let end_value = self.value(end_x);
        trend_from_values(start_value, end_value)
    }

    /// Whether the polynomial is concave up or down over the interval: the
    /// sign of its second derivative at both ends.  A sign change within the
    /// interval, a zero, or a NaN gives `"undefined"`.
    pub fn concavity_over_interval(&self, start: u64, end: u64) -> (r: String)
        requires
            simplifiable(self@),
        ensures
            exists|ps: Seq<u64>, pe: Seq<u64>|
                ps.len() == nth_derived(self@, 2).len() && pe.len() == nth_derived(self@, 2).len()
                    && r@ == concavity_class(
                    poly_value(nth_derived(self@, 2), ps),
                    poly_value(nth_derived(self@, 2), pe),
                ),
    {
        let mut start_x = start;
        let mut end_x = end;
        if exec_fgt(start_x, end_x) {
            let t = start_x;
            start_x = end_x;
            end_x = t;
        }
        let second = self.nth_derivative(2);
        let start_value = second.value(start_x);
        let end_value = second.value(end_x);
        concavity_from_values(start_value, end_value)
    }
}

/// The trend word for two endpoint values, exactly classified.
pub fn trend_from_values(start_value: u64, end_value: u64) -> (r: String)
    ensures
        r@ == trend_class(start_value, end_value),
{
    if exec_flt(start_value, end_value) {
        String::from_str("increasing")
    } else if exec_fgt(start_value, end_value) {
        String::from_str("decreasing")
    } else if exec_feq(start_value, end_value) {
        String::from_str("constant")
    } else {
        String::from_str("undefined")
    }
}

/// The concavity word for two endpoint values of a second derivative,
/// exactly classified by their signs.
pub fn concavity_from_values(start_value: u64, end_value: u64) -> (r: String)
    ensures
        r@ == concavity_class(start_value, end_value),
{
    if exec_fgt(start_value, POS_ZERO) && exec_fgt(end_value, POS_ZERO) {
        String::from_str("concave up")
    } else if exec_flt(start_value, POS_ZERO) && exec_flt(end_value, POS_ZERO) {
        String::from_str("concave down")
    } else {
        String::from_str("undefined")
    }
}

impl Default for Polynomial {
    /// The empty polynomial, the constant 0.
    fn default() -> (r: Self)
        ensures
            r@ == Seq::<Monomial>::empty(),
    {
        Polynomial::new()
    }
}

} // verus!
