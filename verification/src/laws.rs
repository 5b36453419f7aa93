//! Laws of the library, proved once and for all inputs they name.
//!
//! Canonicalization is idempotent (`lemma_canon_idempotent`, in `canon`).
//! Here stand the laws that relate several operations: addition and
//! multiplication commute up to simplification (`lemma_add_polynomial_commutes`,
//! `lemma_multiply_polynomial_commutes`), differentiation is linear over
//! term-wise sums (`lemma_derivative_of_sum`), and tolerance equality is
//! reflexive (`lemma_tolerance_equal_reflexive`).  The commutativity laws
//! carry the conditions without which they do not hold of binary64
//! arithmetic: once three or more coefficients fold into one exponent, the
//! rounded sum depends on the fold order.

use vstd::prelude::*;

use crate::canon::{
    canon, combined, exps_non_nan, find_like, lemma_find_like, merge_step, pairwise_unlike,
    sorted_by_exponent, without_zeros,
};
use crate::float_ops::{fadd, fsub};
use crate::fp::{fabs, feq, fgt, is_nan, key, TOLERANCE_BITS};
use crate::monomial::{mono_mul, Monomial};
use crate::polynomial::{cross_terms, derived_terms, lemma_cross_terms, lemma_row_terms,
    row_terms, tolerance_equal, within_tolerance};

verus! {

/// Two sorted lists of pairwise unequal, NaN-free exponents holding the
/// same terms are the same list.
proof fn lemma_sorted_unique(x: Seq<Monomial>, y: Seq<Monomial>)
    requires
        sorted_by_exponent(x),
        sorted_by_exponent(y),
        pairwise_unlike(x),
        pairwise_unlike(y),
        exps_non_nan(x),
        exps_non_nan(y),
        forall|m: Monomial| x.contains(m) <==> y.contains(m),
    ensures
        x == y,
    decreases x.len(),
{
    if x.len() == 0 {
        if y.len() > 0 {
            assert(y.contains(y[0]));
            assert(x.contains(y[0]));
        }
        assert(x =~= y);
    } else {
        assert(x.contains(x[0]));
        assert(y.contains(x[0]));
        let j = choose|j: int| 0 <= j < y.len() && y[j] == x[0];
        assert(y.contains(y[0]));
        assert(x.contains(y[0]));
        let i = choose|i: int| 0 <= i < x.len() && x[i] == y[0];
        assert(key(x[0].e) >= key(x[i].e));
        assert(key(y[0].e) >= key(y[j].e));
        if i != 0 {
            assert(feq(x[0].e, x[i].e));
            assert(false);
        }
        assert(y[0] == x[0]);
        let xt = x.drop_first();
        let yt = y.drop_first();
        assert forall|m: Monomial| xt.contains(m) implies yt.contains(m) by {
            let k = choose|k: int| 0 <= k < xt.len() && xt[k] == m;
            assert(x[k + 1] == m);
            assert(x.contains(m));
            assert(y.contains(m));
            let l = choose|l: int| 0 <= l < y.len() && y[l] == m;
            if l == 0 {
                assert(x[k + 1] == x[0]);
                assert(feq(x[0].e, x[k + 1].e));
                assert(false);
            }
            assert(yt[l - 1] == m);
        }
        assert forall|m: Monomial| yt.contains(m) implies xt.contains(m) by {
            let k = choose|k: int| 0 <= k < yt.len() && yt[k] == m;
            assert(y[k + 1] == m);
            assert(y.contains(m));
            assert(x.contains(m));
            let l = choose|l: int| 0 <= l < x.len() && x[l] == m;
            if l == 0 {
                assert(y[k + 1] == y[0]);
                assert(feq(y[0].e, y[k + 1].e));
                assert(false);
            }
            assert(xt[l - 1] == m);
        }
        assert forall|s: int, t: int| 0 <= s < t < xt.len() implies key(xt[s].e) >= key(xt[t].e)
            && !feq(xt[s].e, xt[t].e) by {
            assert(xt[s] == x[s + 1] && xt[t] == x[t + 1]);
        }
        assert forall|s: int, t: int| 0 <= s < t < yt.len() implies key(yt[s].e) >= key(yt[t].e)
            && !feq(yt[s].e, yt[t].e) by {
            assert(yt[s] == y[s + 1] && yt[t] == y[t + 1]);
        }
        assert forall|s: int| 0 <= s < xt.len() implies !is_nan(xt[s].e) by {
            assert(xt[s] == x[s + 1]);
        }
        assert forall|s: int| 0 <= s < yt.len() implies !is_nan(yt[s].e) by {
            assert(yt[s] == y[s + 1]);
        }
        lemma_sorted_unique(xt, yt);
        assert forall|k: int| 0 <= k < x.len() implies x[k] == y[k] by {
            if k > 0 {
                assert(x[k] == xt[k - 1] && y[k] == yt[k - 1]);
            }
        }
        assert(x =~= y);
    }
}

/// The terms of `s` whose exponent equals `e` on the values, in order.
pub open spec fn class_of(s: Seq<Monomial>, e: u64) -> Seq<Monomial>
    decreases s.len(),
{
    if s.len() == 0 {
        Seq::empty()
    } else if feq(s.last().e, e) {
        class_of(s.drop_last(), e).push(s.last())
    } else {
        class_of(s.drop_last(), e)
    }
}

/// The coefficients of a class folded left to right, as combining folds them.
pub open spec fn fold_coeffs(q: Seq<Monomial>) -> u64
    decreases q.len(),
{
    if q.len() <= 1 {
        q[0].c
    } else {
        fadd(fold_coeffs(q.drop_last()), q.last().c)
    }
}

/// What combining leaves of one class: its first exponent pattern and the
/// fold of its coefficients.
pub open spec fn class_term(s: Seq<Monomial>, e: u64) -> Monomial {
    Monomial { c: fold_coeffs(class_of(s, e)), e: class_of(s, e)[0].e }
}

/// Equal exponents pick out the same class.
proof fn lemma_class_of_feq(s: Seq<Monomial>, e1: u64, e2: u64)
    requires
        feq(e1, e2),
    ensures
        class_of(s, e1) == class_of(s, e2),
    decreases s.len(),
{
    if s.len() > 0 {
        lemma_class_of_feq(s.drop_last(), e1, e2);
    }
}

/// Whether `m` stands somewhere in `s` with an exponent equal to `e`.
pub open spec fn listed_with_exponent(s: Seq<Monomial>, e: u64, m: Monomial) -> bool {
    exists|p: int| 0 <= p < s.len() && s[p] == m && feq(s[p].e, e)
}

/// Every member of a class stands in the list, with an exponent equal to the
/// class's.
proof fn lemma_class_of_members(s: Seq<Monomial>, e: u64)
    ensures
        forall|k: int|
            0 <= k < class_of(s, e).len() ==> feq(#[trigger] class_of(s, e)[k].e, e),
        forall|k: int|
            0 <= k < class_of(s, e).len() ==> listed_with_exponent(
                s,
                e,
                #[trigger] class_of(s, e)[k],
            ),
    decreases s.len(),
{
    if s.len() > 0 {
        let d = s.drop_last();
        lemma_class_of_members(d, e);
        assert forall|k: int| 0 <= k < class_of(s, e).len() implies listed_with_exponent(
            s,
            e,
            #[trigger] class_of(s, e)[k],
        ) by {
            if feq(s.last().e, e) && k == class_of(s, e).len() - 1 {
                assert(s[s.len() - 1] == class_of(s, e)[k] && feq(s[s.len() - 1].e, e));
            } else {
                assert(class_of(s, e)[k] == class_of(d, e)[k]);
                assert(listed_with_exponent(d, e, class_of(d, e)[k]));
                let p = choose|p: int| 0 <= p < d.len() && d[p] == class_of(d, e)[k] && feq(
                    d[p].e,
                    e,
                );
                assert(s[p] == class_of(s, e)[k] && feq(s[p].e, e));
            }
        }
    }
}

/// When exactly one position carries the exponent, the class is that one
/// term.
proof fn lemma_class_of_single(s: Seq<Monomial>, e: u64, k: int)
    requires
        0 <= k < s.len(),
        feq(s[k].e, e),
        forall|p: int| 0 <= p < s.len() && p != k ==> !feq(s[p].e, e),
    ensures
        class_of(s, e) =~= seq![s[k]],
    decreases s.len(),
{
    let d = s.drop_last();
    if k == s.len() - 1 {
        assert(s[k] == s.last());
        assert forall|p: int| 0 <= p < d.len() implies !feq(#[trigger] d[p].e, e) by {
            assert(d[p] == s[p]);
        }
        lemma_class_of_empty(d, e);
    } else {
        assert(d[k] == s[k]);
        assert forall|p: int| 0 <= p < d.len() && p != k implies !feq(#[trigger] d[p].e, e) by {
            assert(d[p] == s[p]);
        }
        lemma_class_of_single(d, e, k);
        assert(!feq(s.last().e, e));
    }
}

/// When no position carries the exponent, the class is empty.
proof fn lemma_class_of_empty(s: Seq<Monomial>, e: u64)
    requires
        forall|p: int| 0 <= p < s.len() ==> !feq(s[p].e, e),
    ensures
        class_of(s, e) =~= Seq::<Monomial>::empty(),
    decreases s.len(),
{
    if s.len() > 0 {
        let d = s.drop_last();
        assert forall|p: int| 0 <= p < d.len() implies !feq(#[trigger] d[p].e, e) by {
            assert(d[p] == s[p]);
        }
        lemma_class_of_empty(d, e);
        assert(!feq(s[s.len() - 1].e, e));
    }
}

/// When exactly two positions carry the exponent, the class is those two
/// terms, in order.
proof fn lemma_class_of_double(s: Seq<Monomial>, e: u64, k1: int, k2: int)
    requires
        0 <= k1 < k2 < s.len(),
        feq(s[k1].e, e),
        feq(s[k2].e, e),
        forall|p: int| 0 <= p < s.len() && p != k1 && p != k2 ==> !feq(s[p].e, e),
    ensures
        class_of(s, e) =~= seq![s[k1], s[k2]],
    decreases s.len(),
{
    let d = s.drop_last();
    if k2 == s.len() - 1 {
        assert(s[k2] == s.last());
        assert(d[k1] == s[k1]);
        assert forall|p: int| 0 <= p < d.len() && p != k1 implies !feq(#[trigger] d[p].e, e) by {
            assert(d[p] == s[p]);
        }
        lemma_class_of_single(d, e, k1);
    } else {
        assert(d[k1] == s[k1] && d[k2] == s[k2]);
        assert forall|p: int| 0 <= p < d.len() && p != k1 && p != k2 implies !feq(
            #[trigger] d[p].e,
            e,
        ) by {
            assert(d[p] == s[p]);
        }
        lemma_class_of_double(d, e, k1, k2);
        assert(!feq(s.last().e, e));
    }
}

/// What combining leaves: one term per class of equal exponents, holding the
/// class's first exponent pattern and the left-to-right fold of its
/// coefficients; and a term for every non-empty class.
proof fn lemma_combined_classes(s: Seq<Monomial>)
    requires
        exps_non_nan(s),
    ensures
        forall|k: int|
            0 <= k < combined(s).len() ==> class_of(s, #[trigger] combined(s)[k].e).len() > 0,
        forall|k: int|
            0 <= k < combined(s).len() ==> #[trigger] combined(s)[k] == class_term(
                s,
                combined(s)[k].e,
            ),
        forall|e: u64|
            #[trigger] class_of(s, e).len() > 0 ==> find_like(combined(s), e) < combined(s).len(),
    decreases s.len(),
{
    if s.len() > 0 {
        let d = s.drop_last();
        let x = s.last();
        assert forall|p: int| 0 <= p < d.len() implies !is_nan(#[trigger] d[p].e) by {
            assert(d[p] == s[p]);
        }
        lemma_combined_classes(d);
        crate::canon::lemma_combined(d);
        let c = combined(d);
        let t = combined(s);
        let fl = find_like(c, x.e);
        lemma_find_like(c, x.e);
        assert(t == merge_step(c, x));
        assert(s[s.len() - 1] == x);
        if fl < c.len() {
            let e0 = c[fl].e;
            assert(feq(e0, x.e));
            lemma_class_of_feq(d, e0, x.e);
            assert forall|k: int| 0 <= k < t.len() implies (class_of(s, #[trigger] t[k].e).len()
                > 0 && t[k] == class_term(s, t[k].e)) by {
                if k == fl {
                    assert(t[k].e == e0);
                    assert(feq(x.e, e0));
                    assert(class_of(s, e0) == class_of(d, e0).push(x));
                    let q = class_of(d, e0);
                    assert(q.len() > 0);
                    assert(c[fl] == class_term(d, e0));
                    assert(class_of(s, e0).drop_last() =~= q);
                    assert(class_of(s, e0).last() == x);
                    assert(fold_coeffs(class_of(s, e0)) == fadd(fold_coeffs(q), x.c));
                    assert(class_of(s, e0)[0] == q[0]);
                } else {
                    assert(t[k] == c[k]);
                    if feq(x.e, c[k].e) {
                        if k < fl {
                            assert(!feq(c[k].e, c[fl].e));
                        } else {
                            assert(!feq(c[fl].e, c[k].e));
                        }
                        assert(false);
                    }
                    assert(class_of(s, c[k].e) == class_of(d, c[k].e));
                }
            }
            assert forall|e: u64| #[trigger] class_of(s, e).len() > 0 implies find_like(t, e)
                < t.len() by {
                lemma_find_like(t, e);
                if find_like(t, e) == t.len() {
                    if feq(x.e, e) {
                        assert(t[fl].e == e0);
                        assert(feq(e0, e));
                        assert(!feq(t[fl].e, e));
                        assert(false);
                    } else {
                        assert(class_of(s, e) == class_of(d, e));
                        let fd = find_like(c, e);
                        lemma_find_like(c, e);
                        assert(fd < c.len());
                        assert(t[fd].e == c[fd].e);
                        assert(!feq(t[fd].e, e));
                        assert(false);
                    }
                }
            }
        } else {
            assert(t == c.push(x));
            assert(class_of(d, x.e).len() == 0) by {
                if class_of(d, x.e).len() > 0 {
                    assert(find_like(c, x.e) < c.len());
                }
            }
            assert forall|k: int| 0 <= k < t.len() implies (class_of(s, #[trigger] t[k].e).len()
                > 0 && t[k] == class_term(s, t[k].e)) by {
                if k < c.len() {
                    assert(t[k] == c[k]);
                    assert(!feq(c[k].e, x.e));
                    assert(class_of(s, c[k].e) == class_of(d, c[k].e));
                } else {
                    assert(t[k] == x);
                    assert(x == s[s.len() - 1]);
                    assert(feq(x.e, x.e));
                    assert(class_of(s, x.e) == class_of(d, x.e).push(x));
                    assert(class_of(s, x.e) =~= seq![x]);
                    assert(class_term(s, x.e) == x);
                }
            }
            assert forall|e: u64| #[trigger] class_of(s, e).len() > 0 implies find_like(t, e)
                < t.len() by {
                lemma_find_like(t, e);
                if find_like(t, e) == t.len() {
                    if feq(x.e, e) {
                        assert(t[c.len() as int] == x);
                        assert(!feq(t[c.len() as int].e, e));
                        assert(false);
                    } else {
                        assert(class_of(s, e) == class_of(d, e));
                        let fd = find_like(c, e);
                        lemma_find_like(c, e);
                        assert(fd < c.len());
                        assert(t[fd] == c[fd]);
                        assert(!feq(t[fd].e, e));
                        assert(false);
                    }
                }
            }
        }
    }
}

/// What combining holds, term by term: exactly the class terms of the
/// non-empty classes.
proof fn lemma_combined_contains(s: Seq<Monomial>)
    requires
        exps_non_nan(s),
    ensures
        forall|m: Monomial|
            #[trigger] combined(s).contains(m) <==> (class_of(s, m.e).len() > 0 && m
                == class_term(s, m.e)),
{
    lemma_combined_classes(s);
    assert forall|m: Monomial| #[trigger] combined(s).contains(m) implies (class_of(
        s,
        m.e,
    ).len() > 0 && m == class_term(s, m.e)) by {
        let k = choose|k: int| 0 <= k < combined(s).len() && combined(s)[k] == m;
        assert(combined(s)[k] == class_term(s, combined(s)[k].e));
    }
    assert forall|m: Monomial| (class_of(s, m.e).len() > 0 && m == class_term(s, m.e)) implies
        #[trigger] combined(s).contains(m) by {
        let k = find_like(combined(s), m.e);
        lemma_find_like(combined(s), m.e);
        assert(k < combined(s).len());
        assert(feq(combined(s)[k].e, m.e));
        lemma_class_of_feq(s, combined(s)[k].e, m.e);
        assert(combined(s)[k] == class_term(s, combined(s)[k].e));
        assert(class_term(s, combined(s)[k].e) == class_term(s, m.e));
        assert(combined(s)[k] == m);
    }
}

/// The class of one exponent corresponds across the two orders of a
/// concatenation, when an exponent both sides share has one term on each
/// side and matched terms carry one pattern.
proof fn lemma_concat_class_corresponds(a: Seq<Monomial>, b: Seq<Monomial>, e: u64)
    requires
        forall|i1: int, i2: int, j: int|
            #![trigger feq(a[i1].e, b[j].e), feq(a[i2].e, b[j].e)]
            0 <= i1 < a.len() && 0 <= i2 < a.len() && 0 <= j < b.len() && feq(a[i1].e, b[j].e)
                && feq(a[i2].e, b[j].e) ==> i1 == i2,
        forall|i: int, j1: int, j2: int|
            #![trigger feq(a[i].e, b[j1].e), feq(a[i].e, b[j2].e)]
            0 <= i < a.len() && 0 <= j1 < b.len() && 0 <= j2 < b.len() && feq(a[i].e, b[j1].e)
                && feq(a[i].e, b[j2].e) ==> j1 == j2,
        forall|i: int, j: int|
            0 <= i < a.len() && 0 <= j < b.len() && #[trigger] feq(a[i].e, b[j].e) ==> a[i].e
                == b[j].e,
        class_of(a + b, e).len() > 0,
    ensures
        class_of(b + a, e).len() > 0,
        class_term(b + a, e) == class_term(a + b, e),
{
    lemma_class_of_concat(a, b, e);
    lemma_class_of_concat(b, a, e);
    let ca = class_of(a, e);
    let cb = class_of(b, e);
    if cb.len() == 0 {
        assert(class_of(a + b, e) =~= ca);
        assert(class_of(b + a, e) =~= ca);
    } else if ca.len() == 0 {
        assert(class_of(a + b, e) =~= cb);
        assert(class_of(b + a, e) =~= cb);
    } else {
        if ca.len() >= 2 {
            lemma_class_two_positions(a, e);
            lemma_class_one_position(b, e);
            let (i1, i2) = choose|i1: int, i2: int|
                0 <= i1 < i2 < a.len() && #[trigger] feq(a[i1].e, e) && #[trigger] feq(
                    a[i2].e,
                    e,
                );
            let j = choose|j: int| 0 <= j < b.len() && #[trigger] feq(b[j].e, e);
            assert(feq(a[i1].e, b[j].e) && feq(a[i2].e, b[j].e));
            assert(false);
        }
        if cb.len() >= 2 {
            lemma_class_two_positions(b, e);
            lemma_class_one_position(a, e);
            let (j1, j2) = choose|j1: int, j2: int|
                0 <= j1 < j2 < b.len() && #[trigger] feq(b[j1].e, e) && #[trigger] feq(
                    b[j2].e,
                    e,
                );
            let i = choose|i: int| 0 <= i < a.len() && #[trigger] feq(a[i].e, e);
            assert(feq(a[i].e, b[j1].e) && feq(a[i].e, b[j2].e));
            assert(false);
        }
        assert(ca =~= seq![ca[0]]);
        assert(cb =~= seq![cb[0]]);
        assert(class_of(a + b, e) =~= seq![ca[0], cb[0]]);
        assert(class_of(b + a, e) =~= seq![cb[0], ca[0]]);
        lemma_fold_two(class_of(a + b, e), ca[0], cb[0]);
        lemma_fold_two(class_of(b + a, e), cb[0], ca[0]);
        crate::float_ops::lemma_fadd_comm(ca[0].c, cb[0].c);
        lemma_class_of_members(a, e);
        lemma_class_of_members(b, e);
        assert(listed_with_exponent(a, e, ca[0]));
        let i = choose|p: int| 0 <= p < a.len() && a[p] == ca[0] && feq(a[p].e, e);
        assert(listed_with_exponent(b, e, cb[0]));
        let j = choose|p: int| 0 <= p < b.len() && b[p] == cb[0] && feq(b[p].e, e);
        assert(feq(a[i].e, b[j].e));
        assert(a[i].e == b[j].e);
        assert(class_term(b + a, e) == class_term(a + b, e));
    }
}

/// Adding two polynomials in either order gives the same simplified
/// polynomial, provided no exponent is a NaN, an exponent both sides share
/// has one term on each side (with two on one side, the shared coefficient
/// fold would depend on the order), and matched terms carry one pattern
/// (ruling out one `+0.0` against one `-0.0`).  Exponents repeated within
/// one side only are fine: their fold keeps its order.
pub proof fn lemma_add_polynomial_commutes(a: Seq<Monomial>, b: Seq<Monomial>)
    requires
        exps_non_nan(a),
        exps_non_nan(b),
        forall|i1: int, i2: int, j: int|
            #![trigger feq(a[i1].e, b[j].e), feq(a[i2].e, b[j].e)]
            0 <= i1 < a.len() && 0 <= i2 < a.len() && 0 <= j < b.len() && feq(a[i1].e, b[j].e)
                && feq(a[i2].e, b[j].e) ==> i1 == i2,
        forall|i: int, j1: int, j2: int|
            #![trigger feq(a[i].e, b[j1].e), feq(a[i].e, b[j2].e)]
            0 <= i < a.len() && 0 <= j1 < b.len() && 0 <= j2 < b.len() && feq(a[i].e, b[j1].e)
                && feq(a[i].e, b[j2].e) ==> j1 == j2,
        forall|i: int, j: int|
            0 <= i < a.len() && 0 <= j < b.len() && #[trigger] feq(a[i].e, b[j].e) ==> a[i].e
                == b[j].e,
    ensures
        canon(a + b) == canon(b + a),
{
    assert forall|k: int| 0 <= k < (a + b).len() implies !is_nan((a + b)[k].e) by {
        if k < a.len() {
            assert((a + b)[k] == a[k]);
        } else {
            assert((a + b)[k] == b[k - a.len()]);
        }
    }
    assert forall|k: int| 0 <= k < (b + a).len() implies !is_nan((b + a)[k].e) by {
        if k < b.len() {
            assert((b + a)[k] == b[k]);
        } else {
            assert((b + a)[k] == a[k - b.len()]);
        }
    }
    lemma_combined_contains(a + b);
    lemma_combined_contains(b + a);
    assert forall|j1: int, j2: int, i: int|
        #![trigger feq(b[j1].e, a[i].e), feq(b[j2].e, a[i].e)]
        0 <= j1 < b.len() && 0 <= j2 < b.len() && 0 <= i < a.len() && feq(b[j1].e, a[i].e) && feq(
        b[j2].e,
        a[i].e,
    ) implies j1 == j2 by {
        assert(feq(a[i].e, b[j1].e) && feq(a[i].e, b[j2].e));
    }
    assert forall|j: int, i1: int, i2: int|
        #![trigger feq(b[j].e, a[i1].e), feq(b[j].e, a[i2].e)]
        0 <= j < b.len() && 0 <= i1 < a.len() && 0 <= i2 < a.len() && feq(b[j].e, a[i1].e) && feq(
        b[j].e,
        a[i2].e,
    ) implies i1 == i2 by {
        assert(feq(a[i1].e, b[j].e) && feq(a[i2].e, b[j].e));
    }
    assert forall|j: int, i: int|
        0 <= j < b.len() && 0 <= i < a.len() && #[trigger] feq(b[j].e, a[i].e) implies b[j].e
        == a[i].e by {
        assert(feq(a[i].e, b[j].e));
    }
    assert forall|m: Monomial| combined(a + b).contains(m) implies combined(b + a).contains(
        m,
    ) by {
        lemma_concat_class_corresponds(a, b, m.e);
    }
    assert forall|m: Monomial| combined(b + a).contains(m) implies combined(a + b).contains(
        m,
    ) by {
        lemma_concat_class_corresponds(b, a, m.e);
    }
    crate::canon::lemma_canon(a + b);
    crate::canon::lemma_canon(b + a);
    crate::canon::lemma_combined(a + b);
    crate::canon::lemma_combined(b + a);
    crate::canon::lemma_without_zeros(combined(a + b));
    crate::canon::lemma_without_zeros(combined(b + a));
    crate::canon::lemma_sorted_desc(without_zeros(combined(a + b)));
    crate::canon::lemma_sorted_desc(without_zeros(combined(b + a)));
    assert forall|m: Monomial| canon(a + b).contains(m) implies canon(b + a).contains(m) by {
        assert(without_zeros(combined(a + b)).contains(m));
        assert(combined(a + b).contains(m));
        assert(combined(b + a).contains(m));
        assert(without_zeros(combined(b + a)).contains(m));
    }
    assert forall|m: Monomial| canon(b + a).contains(m) implies canon(a + b).contains(m) by {
        assert(without_zeros(combined(b + a)).contains(m));
        assert(combined(b + a).contains(m));
        assert(combined(a + b).contains(m));
        assert(without_zeros(combined(a + b)).contains(m));
    }
    lemma_sorted_unique(canon(a + b), canon(b + a));
}

/// One product term, in either order: coefficients and exponent sums
/// commute.
proof fn lemma_mono_mul_comm(p: Monomial, q: Monomial)
    ensures
        mono_mul(p, q) == mono_mul(q, p),
{
    crate::float_ops::lemma_fmul_comm(p.c, q.c);
    crate::float_ops::lemma_fadd_comm(p.e, q.e);
}

/// Whether position `k` of the cross product is where the pair `(i, j)`
/// lands, carrying its product.
pub open spec fn cross_pair_at(
    a: Seq<Monomial>,
    b: Seq<Monomial>,
    k: int,
    i: int,
    j: int,
) -> bool {
    &&& 0 <= i < a.len()
    &&& 0 <= j < b.len()
    &&& k == i * b.len() + j
    &&& cross_terms(a, b)[k] == mono_mul(a[i], b[j])
}

/// Whether some pair lands at position `k` of the cross product.
pub open spec fn some_pair_at(a: Seq<Monomial>, b: Seq<Monomial>, k: int) -> bool {
    exists|i: int, j: int| cross_pair_at(a, b, k, i, j)
}

/// Every cross position is where some pair lands.
proof fn lemma_cross_positions(a: Seq<Monomial>, b: Seq<Monomial>)
    ensures
        forall|k: int| 0 <= k < cross_terms(a, b).len() ==> #[trigger] some_pair_at(a, b, k),
    decreases a.len(),
{
    lemma_cross_terms(a, b);
    if a.len() > 0 {
        let d = a.drop_last();
        lemma_cross_positions(d, b);
        lemma_cross_terms(d, b);
        lemma_row_terms(a.last(), b);
        assert forall|k: int| 0 <= k < cross_terms(a, b).len() implies #[trigger] some_pair_at(
            a,
            b,
            k,
        ) by {
            let n = cross_terms(d, b).len();
            if k < n {
                assert(some_pair_at(d, b, k));
                let (i, j) = choose|i: int, j: int| cross_pair_at(d, b, k, i, j);
                assert(d[i] == a[i]);
                assert(cross_terms(a, b)[k] == cross_terms(d, b)[k]);
                assert(cross_pair_at(a, b, k, i, j));
            } else {
                let j = k - n;
                assert(cross_terms(a, b)[k] == row_terms(a.last(), b)[j]);
                assert(a[a.len() - 1] == a.last());
                assert(n == d.len() * b.len());
                assert(k == (a.len() - 1) * b.len() + j) by (nonlinear_arith)
                    requires
                        k == d.len() * b.len() + j,
                        a.len() == d.len() + 1,
                ;
                assert(cross_pair_at(a, b, k, a.len() - 1, j));
            }
        }
    }
}

/// Where the pair `(i, j)` lands in the cross product.
proof fn lemma_cross_at(a: Seq<Monomial>, b: Seq<Monomial>, i: int, j: int)
    requires
        0 <= i < a.len(),
        0 <= j < b.len(),
    ensures
        cross_pair_at(a, b, i * b.len() + j, i, j),
        0 <= i * b.len() + j < cross_terms(a, b).len(),
    decreases a.len(),
{
    lemma_cross_terms(a, b);
    let d = a.drop_last();
    let n = cross_terms(d, b).len();
    lemma_cross_terms(d, b);
    lemma_row_terms(a.last(), b);
    assert(0 <= i * b.len() + j < a.len() * b.len()) by (nonlinear_arith)
        requires
            0 <= i < a.len(),
            0 <= j < b.len(),
    ;
    if i < a.len() - 1 {
        lemma_cross_at(d, b, i, j);
        assert(i * b.len() + j < n) by (nonlinear_arith)
            requires
                0 <= i < d.len(),
                0 <= j < b.len(),
                n == d.len() * b.len(),
        ;
        assert(cross_terms(a, b)[i * b.len() + j] == cross_terms(d, b)[i * b.len() + j]);
        assert(d[i] == a[i]);
    } else {
        assert(i * b.len() + j == n + j) by (nonlinear_arith)
            requires
                i == d.len(),
                n == d.len() * b.len(),
        ;
        assert(cross_terms(a, b)[n + j] == row_terms(a.last(), b)[j]);
        assert(a[a.len() - 1] == a.last());
    }
}

/// Two pairs landing on one position are one pair.
proof fn lemma_cross_pair_unique(
    a: Seq<Monomial>,
    b: Seq<Monomial>,
    k: int,
    i1: int,
    j1: int,
    i2: int,
    j2: int,
)
    requires
        cross_pair_at(a, b, k, i1, j1),
        cross_pair_at(a, b, k, i2, j2),
    ensures
        i1 == i2 && j1 == j2,
{
    assert(i1 == i2 && j1 == j2) by (nonlinear_arith)
        requires
            i1 * b.len() + j1 == i2 * b.len() + j2,
            0 <= j1 < b.len(),
            0 <= j2 < b.len(),
            0 <= i1,
            0 <= i2,
    ;
}

/// Whether the exponent classes of the cross product let multiplication
/// commute: no exponent sum is a NaN, sums equal on the values share one
/// pattern, and no three different pairs share an exponent (two may: their
/// coefficients then add in one order or the other, and addition commutes).
pub open spec fn commutable_cross_exponents(a: Seq<Monomial>, b: Seq<Monomial>) -> bool {
    &&& forall|i: int, j: int|
        0 <= i < a.len() && 0 <= j < b.len() ==> !is_nan(#[trigger] fadd(a[i].e, b[j].e))
    &&& forall|i1: int, j1: int, i2: int, j2: int|
        0 <= i1 < a.len() && 0 <= j1 < b.len() && 0 <= i2 < a.len() && 0 <= j2 < b.len() && feq(
            #[trigger] fadd(a[i1].e, b[j1].e),
            #[trigger] fadd(a[i2].e, b[j2].e),
        ) ==> fadd(a[i1].e, b[j1].e) == fadd(a[i2].e, b[j2].e)
    &&& forall|i1: int, j1: int, i2: int, j2: int, i3: int, j3: int|
        0 <= i1 < a.len() && 0 <= j1 < b.len() && 0 <= i2 < a.len() && 0 <= j2 < b.len() && 0
            <= i3 < a.len() && 0 <= j3 < b.len() && (i1 != i2 || j1 != j2) && (i1 != i3 || j1
            != j3) && (i2 != i3 || j2 != j3) && feq(
            #[trigger] fadd(a[i1].e, b[j1].e),
            #[trigger] fadd(a[i2].e, b[j2].e),
        ) ==> !feq(fadd(a[i1].e, b[j1].e), #[trigger] fadd(a[i3].e, b[j3].e))
}

/// Classes of a concatenation: the class in the first part, then the class
/// in the second.
proof fn lemma_class_of_concat(x: Seq<Monomial>, y: Seq<Monomial>, e: u64)
    ensures
        class_of(x + y, e) == class_of(x, e) + class_of(y, e),
    decreases y.len(),
{
    if y.len() == 0 {
        assert(x + y =~= x);
        assert(class_of(x, e) + class_of(y, e) =~= class_of(x, e));
    } else {
        lemma_class_of_concat(x, y.drop_last(), e);
        assert((x + y).drop_last() =~= x + y.drop_last());
        assert((x + y).last() == y.last());
        if feq(y.last().e, e) {
            assert(class_of(x, e) + class_of(y, e) =~= (class_of(x, e) + class_of(
                y.drop_last(),
                e,
            )).push(y.last()));
        }
    }
}

/// A non-empty class points at a position carrying its exponent.
proof fn lemma_class_one_position(s: Seq<Monomial>, e: u64)
    requires
        class_of(s, e).len() > 0,
    ensures
        exists|k: int| 0 <= k < s.len() && #[trigger] feq(s[k].e, e),
    decreases s.len(),
{
    if feq(s.last().e, e) {
        assert(0 <= s.len() - 1 < s.len() && feq(s[s.len() - 1].e, e));
    } else {
        lemma_class_one_position(s.drop_last(), e);
        let k = choose|k: int| 0 <= k < s.drop_last().len() && feq(s.drop_last()[k].e, e);
        assert(0 <= k < s.len() && feq(s[k].e, e));
    }
}

/// A class of two or more points at two positions carrying its exponent.
proof fn lemma_class_two_positions(s: Seq<Monomial>, e: u64)
    requires
        class_of(s, e).len() >= 2,
    ensures
        exists|k1: int, k2: int|
            0 <= k1 < k2 < s.len() && #[trigger] feq(s[k1].e, e) && #[trigger] feq(s[k2].e, e),
    decreases s.len(),
{
    let d = s.drop_last();
    if feq(s.last().e, e) {
        lemma_class_one_position(d, e);
        let k = choose|k: int| 0 <= k < d.len() && feq(d[k].e, e);
        assert(d[k] == s[k]);
        assert(0 <= k < s.len() - 1 < s.len() && feq(s[k].e, e) && feq(s[s.len() - 1].e, e));
    } else {
        lemma_class_two_positions(d, e);
        let (k1, k2) = choose|k1: int, k2: int|
            0 <= k1 < k2 < d.len() && feq(d[k1].e, e) && feq(d[k2].e, e);
        assert(d[k1] == s[k1] && d[k2] == s[k2]);
        assert(0 <= k1 < k2 < s.len() && feq(s[k1].e, e) && feq(s[k2].e, e));
    }
}

/// The fold of a one-term class is its coefficient.
proof fn lemma_fold_one(q: Seq<Monomial>, m1: Monomial)
    requires
        q =~= seq![m1],
    ensures
        fold_coeffs(q) == m1.c,
{
}

/// The fold of a two-term class adds the two coefficients in order.
proof fn lemma_fold_two(q: Seq<Monomial>, m1: Monomial, m2: Monomial)
    requires
        q =~= seq![m1, m2],
    ensures
        fold_coeffs(q) == fadd(m1.c, m2.c),
{
    assert(q.drop_last() =~= seq![m1]);
    lemma_fold_one(q.drop_last(), m1);
    assert(q.last() == m2);
}

/// The class of one exponent corresponds across the two orders of a cross
/// product: present in one exactly when present in the other, and combining
/// leaves the same term of it.
#[verifier::rlimit(60)]
proof fn lemma_cross_class_corresponds(a: Seq<Monomial>, b: Seq<Monomial>, e: u64)
    requires
        commutable_cross_exponents(a, b),
        class_of(cross_terms(a, b), e).len() > 0,
    ensures
        class_of(cross_terms(b, a), e).len() > 0,
        class_term(cross_terms(b, a), e) == class_term(cross_terms(a, b), e),
{
    let ab = cross_terms(a, b);
    let ba = cross_terms(b, a);
    lemma_cross_terms(a, b);
    lemma_cross_terms(b, a);
    lemma_cross_positions(a, b);
    lemma_cross_positions(b, a);
    lemma_class_of_members(ab, e);
    let m0 = class_of(ab, e)[0];
    assert(listed_with_exponent(ab, e, m0));
    let k1 = choose|p: int| 0 <= p < ab.len() && ab[p] == m0 && feq(ab[p].e, e);
    assert(some_pair_at(a, b, k1));
    let (i1, j1) = choose|i: int, j: int| cross_pair_at(a, b, k1, i, j);
    let s1 = fadd(a[i1].e, b[j1].e);
    assert(ab[k1].e == s1 && feq(s1, e));
    crate::float_ops::lemma_fadd_comm(b[j1].e, a[i1].e);
    lemma_mono_mul_comm(a[i1], b[j1]);
    lemma_cross_at(b, a, j1, i1);
    let k1p = j1 * a.len() + i1;
    assert(ba[k1p] == mono_mul(b[j1], a[i1]));
    assert(ba[k1p] == ab[k1]);
    assert(feq(ba[k1p].e, e));
    if exists|i: int, j: int|
        0 <= i < a.len() && 0 <= j < b.len() && (i != i1 || j != j1) && feq(
            fadd(a[i].e, b[j].e),
            e,
        ) {
        let (i2, j2) = choose|i: int, j: int|
            0 <= i < a.len() && 0 <= j < b.len() && (i != i1 || j != j1) && feq(
                fadd(a[i].e, b[j].e),
                e,
            );
        let s2 = fadd(a[i2].e, b[j2].e);
        lemma_cross_at(a, b, i2, j2);
        let k2 = i2 * b.len() + j2;
        assert(ab[k2].e == s2 && feq(s2, e));
        assert(feq(s1, s2));
        assert(s1 == s2);
        if k1 == k2 {
            lemma_cross_pair_unique(a, b, k1, i1, j1, i2, j2);
        }
        assert forall|p: int| 0 <= p < ab.len() && p != k1 && p != k2 implies !feq(
            ab[p].e,
            e,
        ) by {
            if feq(ab[p].e, e) {
                assert(some_pair_at(a, b, p));
                let (i3, j3) = choose|i: int, j: int| cross_pair_at(a, b, p, i, j);
                let s3 = fadd(a[i3].e, b[j3].e);
                assert(feq(s3, e));
                if i3 == i1 && j3 == j1 {
                    lemma_cross_at(a, b, i1, j1);
                    lemma_cross_pair_unique(a, b, p, i3, j3, i1, j1);
                    assert(p == k1);
                } else if i3 == i2 && j3 == j2 {
                    assert(p == k2);
                } else {
                    assert(feq(s1, s3));
                    assert(false);
                }
            }
        }
        let lo = if k1 < k2 {
            k1
        } else {
            k2
        };
        let hi = if k1 < k2 {
            k2
        } else {
            k1
        };
        lemma_class_of_double(ab, e, lo, hi);
        crate::float_ops::lemma_fadd_comm(b[j2].e, a[i2].e);
        lemma_mono_mul_comm(a[i2], b[j2]);
        lemma_cross_at(b, a, j2, i2);
        let k2p = j2 * a.len() + i2;
        assert(ba[k2p] == mono_mul(b[j2], a[i2]));
        assert(ba[k2p] == ab[k2]);
        assert(feq(ba[k2p].e, e));
        if k1p == k2p {
            lemma_cross_pair_unique(b, a, k1p, j1, i1, j2, i2);
        }
        assert forall|p: int| 0 <= p < ba.len() && p != k1p && p != k2p implies !feq(
            ba[p].e,
            e,
        ) by {
            if feq(ba[p].e, e) {
                assert(some_pair_at(b, a, p));
                let (j3, i3) = choose|jj: int, ii: int| cross_pair_at(b, a, p, jj, ii);
                crate::float_ops::lemma_fadd_comm(b[j3].e, a[i3].e);
                let s3 = fadd(a[i3].e, b[j3].e);
                assert(feq(s3, e));
                if i3 == i1 && j3 == j1 {
                    lemma_cross_at(b, a, j1, i1);
                    lemma_cross_pair_unique(b, a, p, j3, i3, j1, i1);
                    assert(p == k1p);
                } else if i3 == i2 && j3 == j2 {
                    lemma_cross_at(b, a, j2, i2);
                    lemma_cross_pair_unique(b, a, p, j3, i3, j2, i2);
                    assert(p == k2p);
                } else {
                    assert(feq(s1, s3));
                    assert(false);
                }
            }
        }
        let lop = if k1p < k2p {
            k1p
        } else {
            k2p
        };
        let hip = if k1p < k2p {
            k2p
        } else {
            k1p
        };
        lemma_class_of_double(ba, e, lop, hip);
        assert(class_of(ab, e) =~= seq![ab[lo], ab[hi]]);
        assert(class_of(ba, e) =~= seq![ba[lop], ba[hip]]);
        lemma_fold_two(class_of(ab, e), ab[lo], ab[hi]);
        lemma_fold_two(class_of(ba, e), ba[lop], ba[hip]);
        crate::float_ops::lemma_fadd_comm(ab[k1].c, ab[k2].c);
        assert(fold_coeffs(class_of(ba, e)) == fold_coeffs(class_of(ab, e)));
        assert(ab[lo].e == s1 && ba[lop].e == s1);
        assert(class_term(ba, e) == class_term(ab, e));
    } else {
        assert forall|p: int| 0 <= p < ab.len() && p != k1 implies !feq(ab[p].e, e) by {
            if feq(ab[p].e, e) {
                assert(some_pair_at(a, b, p));
                let (i3, j3) = choose|i: int, j: int| cross_pair_at(a, b, p, i, j);
                assert(feq(fadd(a[i3].e, b[j3].e), e));
                assert(i3 == i1 && j3 == j1);
                lemma_cross_at(a, b, i1, j1);
                lemma_cross_pair_unique(a, b, p, i3, j3, i1, j1);
                assert(p == k1);
            }
        }
        lemma_class_of_single(ab, e, k1);
        assert forall|p: int| 0 <= p < ba.len() && p != k1p implies !feq(ba[p].e, e) by {
            if feq(ba[p].e, e) {
                assert(some_pair_at(b, a, p));
                let (j3, i3) = choose|jj: int, ii: int| cross_pair_at(b, a, p, jj, ii);
                crate::float_ops::lemma_fadd_comm(b[j3].e, a[i3].e);
                assert(feq(fadd(a[i3].e, b[j3].e), e));
                assert(i3 == i1 && j3 == j1);
                lemma_cross_pair_unique(b, a, p, j3, i3, j1, i1);
                assert(p == k1p);
            }
        }
        lemma_class_of_single(ba, e, k1p);
        lemma_fold_one(class_of(ab, e), ab[k1]);
        lemma_fold_one(class_of(ba, e), ba[k1p]);
        assert(class_term(ba, e) == class_term(ab, e));
    }
}

/// Multiplying two polynomials in either order gives the same simplified
/// polynomial, provided no exponent sum of a term pair is a NaN, equal sums
/// share one pattern, and no exponent gathers more than two of the pair
/// products: with three, the combined coefficient would depend on the order
/// the pairs are folded in.
pub proof fn lemma_multiply_polynomial_commutes(a: Seq<Monomial>, b: Seq<Monomial>)
    requires
        commutable_cross_exponents(a, b),
    ensures
        canon(cross_terms(a, b)) == canon(cross_terms(b, a)),
{
    let ab = cross_terms(a, b);
    let ba = cross_terms(b, a);
    lemma_cross_terms(a, b);
    lemma_cross_terms(b, a);
    lemma_cross_positions(a, b);
    lemma_cross_positions(b, a);
    assert forall|j: int, i: int| 0 <= j < b.len() && 0 <= i < a.len() implies !is_nan(
        #[trigger] fadd(b[j].e, a[i].e),
    ) by {
        crate::float_ops::lemma_fadd_comm(b[j].e, a[i].e);
    }
    assert forall|j1: int, i1: int, j2: int, i2: int|
        0 <= j1 < b.len() && 0 <= i1 < a.len() && 0 <= j2 < b.len() && 0 <= i2 < a.len() && feq(
            #[trigger] fadd(b[j1].e, a[i1].e),
            #[trigger] fadd(b[j2].e, a[i2].e),
        ) implies fadd(b[j1].e, a[i1].e) == fadd(b[j2].e, a[i2].e) by {
        crate::float_ops::lemma_fadd_comm(b[j1].e, a[i1].e);
        crate::float_ops::lemma_fadd_comm(b[j2].e, a[i2].e);
    }
    assert forall|j1: int, i1: int, j2: int, i2: int, j3: int, i3: int|
        0 <= j1 < b.len() && 0 <= i1 < a.len() && 0 <= j2 < b.len() && 0 <= i2 < a.len() && 0
            <= j3 < b.len() && 0 <= i3 < a.len() && (j1 != j2 || i1 != i2) && (j1 != j3 || i1
            != i3) && (j2 != j3 || i2 != i3) && feq(
            #[trigger] fadd(b[j1].e, a[i1].e),
            #[trigger] fadd(b[j2].e, a[i2].e),
        ) implies !feq(fadd(b[j1].e, a[i1].e), #[trigger] fadd(b[j3].e, a[i3].e)) by {
        crate::float_ops::lemma_fadd_comm(b[j1].e, a[i1].e);
        crate::float_ops::lemma_fadd_comm(b[j2].e, a[i2].e);
        crate::float_ops::lemma_fadd_comm(b[j3].e, a[i3].e);
    }
    assert(commutable_cross_exponents(b, a));
    assert forall|k: int| 0 <= k < ab.len() implies !is_nan(ab[k].e) by {
        assert(some_pair_at(a, b, k));
        let (i, j) = choose|i: int, j: int| cross_pair_at(a, b, k, i, j);
    }
    assert forall|k: int| 0 <= k < ba.len() implies !is_nan(ba[k].e) by {
        assert(some_pair_at(b, a, k));
        let (j, i) = choose|jj: int, ii: int| cross_pair_at(b, a, k, jj, ii);
    }
    lemma_combined_contains(ab);
    lemma_combined_contains(ba);
    assert forall|m: Monomial| combined(ab).contains(m) implies combined(ba).contains(m) by {
        lemma_cross_class_corresponds(a, b, m.e);
    }
    assert forall|m: Monomial| combined(ba).contains(m) implies combined(ab).contains(m) by {
        lemma_cross_class_corresponds(b, a, m.e);
    }
    crate::canon::lemma_canon(ab);
    crate::canon::lemma_canon(ba);
    crate::canon::lemma_combined(ab);
    crate::canon::lemma_combined(ba);
    crate::canon::lemma_without_zeros(combined(ab));
    crate::canon::lemma_without_zeros(combined(ba));
    crate::canon::lemma_sorted_desc(without_zeros(combined(ab)));
    crate::canon::lemma_sorted_desc(without_zeros(combined(ba)));
    assert forall|m: Monomial| canon(ab).contains(m) implies canon(ba).contains(m) by {
        assert(without_zeros(combined(ab)).contains(m));
        assert(combined(ab).contains(m));
        assert(combined(ba).contains(m));
        assert(without_zeros(combined(ba)).contains(m));
    }
    assert forall|m: Monomial| canon(ba).contains(m) implies canon(ab).contains(m) by {
        assert(without_zeros(combined(ba)).contains(m));
        assert(combined(ba).contains(m));
        assert(combined(ab).contains(m));
        assert(without_zeros(combined(ab)).contains(m));
    }
    lemma_sorted_unique(canon(ab), canon(ba));
}

/// The derivative of a term-wise sum is the term-wise sum of the
/// derivatives, once both are simplified: differentiating the concatenation
/// of two term lists and simplifying gives what concatenating the two
/// differentiated lists and simplifying gives.
pub proof fn lemma_derivative_of_sum(a: Seq<Monomial>, b: Seq<Monomial>)
    ensures
        canon(derived_terms(a + b)) == canon(derived_terms(a) + derived_terms(b)),
{
    assert(derived_terms(a + b) =~= derived_terms(a) + derived_terms(b));
}

/// A value differs from itself by at most the tolerance: the difference is
/// `+0.0` for a finite value and a NaN otherwise, and neither exceeds the
/// tolerance.
proof fn lemma_fsub_self_within(x: u64)
    ensures
        !fgt(fabs(fsub(x, x)), TOLERANCE_BITS),
{
}

/// Every polynomial is equal to itself within the tolerance, whatever its
/// terms hold: zeros, infinities and NaN coefficients included.
pub proof fn lemma_tolerance_equal_reflexive(p: Seq<Monomial>)
    ensures
        tolerance_equal(p, p),
{
    let c = canon(p);
    assert forall|i: int| 0 <= i < c.len() implies within_tolerance(c[i], c[i]) by {
        lemma_fsub_self_within(c[i].c);
        lemma_fsub_self_within(c[i].e);
    }
}

} // verus!
