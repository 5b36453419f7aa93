//! The canonical form of a term list, as specification functions.
//!
//! `canon` is the mathematical counterpart of `Polynomial::simplified`:
//! combine like terms left to right, drop the terms whose coefficient is a
//! zero, and stably sort what is left by descending exponent.  The executable
//! pipeline in `polynomial` is proved to return exactly these sequences, and
//! the laws in `laws` are proved about them.

use vstd::prelude::*;

use crate::float_ops::fadd;
use crate::fp::{feq, is_nan, key, POS_ZERO};
use crate::monomial::Monomial;

verus! {

/// The index of the first term of `s` whose exponent equals `e` on the
/// values; `s.len()` when there is none.
pub open spec fn find_like(s: Seq<Monomial>, e: u64) -> int
    decreases s.len(),
{
    if s.len() == 0 {
        0
    } else if feq(s[0].e, e) {
        0
    } else {
        1 + find_like(s.drop_first(), e)
    }
}

/// What `find_like` returns: a position within the sequence, the first one
/// that carries an equal exponent.
pub proof fn lemma_find_like(s: Seq<Monomial>, e: u64)
    ensures
        0 <= find_like(s, e) <= s.len(),
        find_like(s, e) < s.len() ==> feq(s[find_like(s, e)].e, e),
        forall|i: int| 0 <= i < find_like(s, e) ==> !feq(s[i].e, e),
    decreases s.len(),
{
    if s.len() != 0 && !feq(s[0].e, e) {
        lemma_find_like(s.drop_first(), e);
        assert forall|i: int| 0 <= i < find_like(s, e) implies !feq(s[i].e, e) by {
            if i > 0 {
                assert(s.drop_first()[i - 1] == s[i]);
            }
        }
    }
}

/// `find_like` is pinned by any witness: a prefix without the exponent and a
/// matching term right after it.
pub proof fn lemma_find_like_is(s: Seq<Monomial>, e: u64, j: int)
    requires
        0 <= j <= s.len(),
        forall|i: int| 0 <= i < j ==> !feq(s[i].e, e),
        j < s.len() ==> feq(s[j].e, e),
    ensures
        find_like(s, e) == j,
    decreases s.len(),
{
    if s.len() != 0 && !feq(s[0].e, e) {
        assert forall|i: int| 0 <= i < j - 1 implies !feq(s.drop_first()[i].e, e) by {
            assert(s.drop_first()[i] == s[i + 1]);
        }
        assert(j - 1 < s.drop_first().len() ==> feq(s.drop_first()[j - 1].e, e));
        lemma_find_like_is(s.drop_first(), e, j - 1);
    }
}

/// One step of combining: fold `m` into the accumulator, onto the first term
/// with an equal exponent if there is one, appended otherwise.
pub open spec fn merge_step(acc: Seq<Monomial>, m: Monomial) -> Seq<Monomial> {
    let i = find_like(acc, m.e);
    if i < acc.len() {
        acc.update(i, Monomial { c: fadd(acc[i].c, m.c), e: acc[i].e })
    } else {
        acc.push(m)
    }
}

/// The left-to-right combination of like terms of `s`.
pub open spec fn combined(s: Seq<Monomial>) -> Seq<Monomial>
    decreases s.len(),
{
    if s.len() == 0 {
        Seq::empty()
    } else {
        merge_step(combined(s.drop_last()), s.last())
    }
}

/// `s` with every term whose coefficient is a zero dropped, in order.
pub open spec fn without_zeros(s: Seq<Monomial>) -> Seq<Monomial>
    decreases s.len(),
{
    if s.len() == 0 {
        Seq::empty()
    } else if feq(s.last().c, POS_ZERO) {
        without_zeros(s.drop_last())
    } else {
        without_zeros(s.drop_last()).push(s.last())
    }
}

/// Where the stable descending insertion of `m` into `s` puts it: right
/// after every term whose exponent key is at least its own.
pub open spec fn insert_pos(s: Seq<Monomial>, m: Monomial) -> int
    decreases s.len(),
{
    if s.len() == 0 {
        0
    } else if key(s[0].e) >= key(m.e) {
        1 + insert_pos(s.drop_first(), m)
    } else {
        0
    }
}

/// What `insert_pos` returns: a position within the sequence, ending the
/// run of terms whose keys are at least `m`'s.
pub proof fn lemma_insert_pos(s: Seq<Monomial>, m: Monomial)
    ensures
        0 <= insert_pos(s, m) <= s.len(),
        forall|i: int| 0 <= i < insert_pos(s, m) ==> key(s[i].e) >= key(m.e),
        insert_pos(s, m) < s.len() ==> key(s[insert_pos(s, m)].e) < key(m.e),
    decreases s.len(),
{
    if s.len() != 0 && key(s[0].e) >= key(m.e) {
        lemma_insert_pos(s.drop_first(), m);
        assert forall|i: int| 0 <= i < insert_pos(s, m) implies key(s[i].e) >= key(m.e) by {
            if i > 0 {
                assert(s.drop_first()[i - 1] == s[i]);
            }
        }
        assert(insert_pos(s, m) < s.len() ==> s.drop_first()[insert_pos(s, m) - 1] == s[
            insert_pos(s, m)
        ]);
    }
}

/// `insert_pos` is pinned by any witness: a run of keys at least `m`'s and
/// a smaller key right after it.
pub proof fn lemma_insert_pos_is(s: Seq<Monomial>, m: Monomial, j: int)
    requires
        0 <= j <= s.len(),
        forall|i: int| 0 <= i < j ==> key(s[i].e) >= key(m.e),
        j < s.len() ==> key(s[j].e) < key(m.e),
    ensures
        insert_pos(s, m) == j,
    decreases s.len(),
{
    if s.len() != 0 && key(s[0].e) >= key(m.e) {
        assert forall|i: int| 0 <= i < j - 1 implies key(s.drop_first()[i].e) >= key(m.e) by {
            assert(s.drop_first()[i] == s[i + 1]);
        }
        assert(j - 1 < s.drop_first().len() ==> key(s.drop_first()[j - 1].e) < key(m.e));
        lemma_insert_pos_is(s.drop_first(), m, j - 1);
    }
}

/// `m` inserted into `s` after every term whose exponent key is at least its
/// own: the stable descending insertion.
pub open spec fn insert_desc(s: Seq<Monomial>, m: Monomial) -> Seq<Monomial> {
    s.insert(insert_pos(s, m), m)
}

/// The stable sort of `s` by descending exponent.
pub open spec fn sorted_desc(s: Seq<Monomial>) -> Seq<Monomial>
    decreases s.len(),
{
    if s.len() == 0 {
        Seq::empty()
    } else {
        insert_desc(sorted_desc(s.drop_last()), s.last())
    }
}

/// The canonical form: like terms combined, zero terms dropped, the rest
/// sorted by descending exponent.
pub open spec fn canon(s: Seq<Monomial>) -> Seq<Monomial> {
    sorted_desc(without_zeros(combined(s)))
}

/// No two terms of `s` carry equal exponents.
pub open spec fn pairwise_unlike(s: Seq<Monomial>) -> bool {
    forall|i: int, j: int| 0 <= i < j < s.len() ==> !feq(s[i].e, s[j].e)
}

/// No term of `s` has a coefficient equal to zero.
pub open spec fn no_zero_coefficients(s: Seq<Monomial>) -> bool {
    forall|i: int| 0 <= i < s.len() ==> !feq(s[i].c, POS_ZERO)
}

/// The exponents of `s` are in non-increasing order of their keys.
pub open spec fn sorted_by_exponent(s: Seq<Monomial>) -> bool {
    forall|i: int, j: int| 0 <= i < j < s.len() ==> key(s[i].e) >= key(s[j].e)
}

/// No exponent of `s` is a NaN.
pub open spec fn exps_non_nan(s: Seq<Monomial>) -> bool {
    forall|i: int| 0 <= i < s.len() ==> !is_nan(s[i].e)
}

/// When the pipeline may sort: one term sorts trivially; otherwise every
/// exponent must have an order, that is, be no NaN.
pub open spec fn simplifiable(s: Seq<Monomial>) -> bool {
    s.len() <= 1 || exps_non_nan(s)
}

/// Whether `e` is the exponent of some term of `s`, bitwise.
pub open spec fn exponent_of(s: Seq<Monomial>, e: u64) -> bool {
    exists|i: int| 0 <= i < s.len() && e == s[i].e
}

/// One combining step keeps the exponents pairwise unequal and adds no new
/// exponent but `m`'s.
pub proof fn lemma_merge_step(acc: Seq<Monomial>, m: Monomial)
    ensures
        acc.len() <= merge_step(acc, m).len() <= acc.len() + 1,
        pairwise_unlike(acc) ==> pairwise_unlike(merge_step(acc, m)),
        forall|j: int|
            0 <= j < merge_step(acc, m).len() ==> (merge_step(acc, m)[j].e == if j < acc.len() {
                acc[j].e
            } else {
                m.e
            }),
{
    lemma_find_like(acc, m.e);
}

/// Combining never lengthens a term list, leaves its exponents pairwise
/// unequal, and keeps every exponent one of the input's.
pub proof fn lemma_combined(s: Seq<Monomial>)
    ensures
        combined(s).len() <= s.len(),
        pairwise_unlike(combined(s)),
        forall|j: int| 0 <= j < combined(s).len() ==> #[trigger] exponent_of(s, combined(s)[j].e),
        exps_non_nan(s) ==> exps_non_nan(combined(s)),
    decreases s.len(),
{
    if s.len() > 0 {
        let d = s.drop_last();
        lemma_combined(d);
        lemma_merge_step(combined(d), s.last());
        assert forall|j: int| 0 <= j < combined(s).len() implies #[trigger] exponent_of(
            s,
            combined(s)[j].e,
        ) by {
            if j < combined(d).len() {
                assert(exponent_of(d, combined(d)[j].e));
                let i = choose|i: int| 0 <= i < d.len() && combined(d)[j].e == d[i].e;
                assert(combined(s)[j].e == s[i].e);
            } else {
                assert(combined(s)[j].e == s[s.len() - 1].e);
            }
        }
        if exps_non_nan(s) {
            assert forall|j: int| 0 <= j < combined(s).len() implies !is_nan(combined(s)[j].e) by {
                assert(exponent_of(s, combined(s)[j].e));
                let i = choose|i: int| 0 <= i < s.len() && combined(s)[j].e == s[i].e;
            }
        }
    }
}

/// Dropping zero terms leaves no zero coefficient, keeps every remaining
/// term one of the input's, and keeps the exponents pairwise unequal.
pub proof fn lemma_without_zeros(s: Seq<Monomial>)
    ensures
        without_zeros(s).len() <= s.len(),
        no_zero_coefficients(without_zeros(s)),
        forall|j: int| 0 <= j < without_zeros(s).len() ==> s.contains(without_zeros(s)[j]),
        forall|m: Monomial| #[trigger]
            without_zeros(s).contains(m) <==> (s.contains(m) && !feq(m.c, POS_ZERO)),
        pairwise_unlike(s) ==> pairwise_unlike(without_zeros(s)),
        exps_non_nan(s) ==> exps_non_nan(without_zeros(s)),
    decreases s.len(),
{
    if s.len() > 0 {
        let d = s.drop_last();
        let w = without_zeros(s);
        lemma_without_zeros(d);
        assert forall|j: int| 0 <= j < w.len() implies s.contains(w[j]) by {
            if feq(s.last().c, POS_ZERO) || j < w.len() - 1 {
                assert(w[j] == without_zeros(d)[j]);
                let i = choose|i: int| 0 <= i < d.len() && d[i] == without_zeros(d)[j];
                assert(s[i] == w[j]);
            } else {
                assert(w[j] == s[s.len() - 1]);
            }
        }
        if pairwise_unlike(s) {
            assert forall|i: int, j: int| 0 <= i < j < d.len() implies !feq(d[i].e, d[j].e) by {
                assert(d[i] == s[i] && d[j] == s[j]);
            }
            if !feq(s.last().c, POS_ZERO) {
                assert forall|i: int, j: int| 0 <= i < j < w.len() implies !feq(w[i].e, w[j].e) by {
                    if j < w.len() - 1 {
                        assert(w[i] == without_zeros(d)[i] && w[j] == without_zeros(d)[j]);
                    } else {
                        assert(w[i] == without_zeros(d)[i]);
                        let k = choose|k: int| 0 <= k < d.len() && d[k] == without_zeros(d)[i];
                        assert(!feq(s[k].e, s[s.len() - 1].e));
                    }
                }
            }
        }
        if exps_non_nan(s) {
            assert forall|j: int| 0 <= j < w.len() implies !is_nan(w[j].e) by {
                assert(s.contains(w[j]));
                let i = choose|i: int| 0 <= i < s.len() && s[i] == w[j];
            }
        }
        assert forall|m: Monomial| #[trigger] w.contains(m) implies (s.contains(m) && !feq(
            m.c,
            POS_ZERO,
        )) by {
            let j = choose|j: int| 0 <= j < w.len() && w[j] == m;
        }
        assert forall|m: Monomial| (s.contains(m) && !feq(m.c, POS_ZERO)) implies #[trigger]
            w.contains(m) by {
            let i = choose|i: int| 0 <= i < s.len() && s[i] == m;
            if i < s.len() - 1 {
                assert(d[i] == m);
                assert(d.contains(m));
                assert(without_zeros(d).contains(m));
                let j = choose|j: int|
                    0 <= j < without_zeros(d).len() && without_zeros(d)[j] == m;
                if feq(s.last().c, POS_ZERO) {
                    assert(w[j] == m);
                } else {
                    assert(w[j] == m);
                }
            } else {
                assert(m == s.last());
                assert(w[w.len() - 1] == m);
            }
        }
    }
}

/// One descending insertion: one longer, the same terms plus `m`, sorted if
/// the input was, and pairwise unequal exponents kept when `m`'s exponent is
/// new.
pub proof fn lemma_insert_desc(s: Seq<Monomial>, m: Monomial)
    ensures
        insert_desc(s, m).len() == s.len() + 1,
        forall|x: Monomial|
            #[trigger] insert_desc(s, m).contains(x) <==> (s.contains(x) || x == m),
        sorted_by_exponent(s) ==> sorted_by_exponent(insert_desc(s, m)),
        (pairwise_unlike(s) && (forall|i: int| 0 <= i < s.len() ==> !feq(s[i].e, m.e)))
            ==> pairwise_unlike(insert_desc(s, m)),
{
    let p = insert_pos(s, m);
    let t = insert_desc(s, m);
    lemma_insert_pos(s, m);
    s.insert_ensures(p, m);
    assert forall|x: Monomial| t.contains(x) implies (s.contains(x) || x == m) by {
        let j = choose|j: int| 0 <= j < t.len() && t[j] == x;
        if j < p {
            assert(s[j] == x);
        } else if j > p {
            assert(t[(j - 1) + 1] == s[j - 1]);
        }
    }
    assert forall|x: Monomial| s.contains(x) implies t.contains(x) by {
        let i = choose|i: int| 0 <= i < s.len() && s[i] == x;
        if i < p {
            assert(t[i] == x);
        } else {
            assert(t[i + 1] == x);
        }
    }
    assert(t[p] == m);
    if sorted_by_exponent(s) {
        assert forall|i: int, j: int| 0 <= i < j < t.len() implies key(t[i].e) >= key(t[j].e) by {
            if i < p && j > p {
                assert(t[i] == s[i] && t[j] == s[j - 1]);
            } else if i < p && j == p {
                assert(t[i] == s[i]);
            } else if i == p && j > p {
                assert(t[j] == s[j - 1]);
                assert(key(s[p].e) < key(m.e));
                assert(key(s[j - 1].e) <= key(s[p].e));
            } else if i > p && j > p {
                assert(t[i] == s[i - 1] && t[j] == s[j - 1]);
            }
        }
    }
    if pairwise_unlike(s) && (forall|i: int| 0 <= i < s.len() ==> !feq(s[i].e, m.e)) {
        assert forall|i: int, j: int| 0 <= i < j < t.len() implies !feq(t[i].e, t[j].e) by {
            if i < p && j > p {
                assert(t[i] == s[i] && t[j] == s[j - 1]);
            } else if i < p && j == p {
                assert(t[i] == s[i]);
            } else if i == p && j > p {
                assert(t[j] == s[j - 1]);
                assert(!feq(s[j - 1].e, m.e));
            } else if i > p && j > p {
                assert(t[i] == s[i - 1] && t[j] == s[j - 1]);
            }
        }
    }
}

/// Sorting keeps the length, the terms, every per-term property, and the
/// pairwise unequal exponents; its result is sorted.
pub proof fn lemma_sorted_desc(s: Seq<Monomial>)
    ensures
        sorted_desc(s).len() == s.len(),
        forall|x: Monomial| #[trigger] sorted_desc(s).contains(x) <==> s.contains(x),
        sorted_by_exponent(sorted_desc(s)),
        pairwise_unlike(s) ==> pairwise_unlike(sorted_desc(s)),
        exps_non_nan(s) ==> exps_non_nan(sorted_desc(s)),
        no_zero_coefficients(s) ==> no_zero_coefficients(sorted_desc(s)),
    decreases s.len(),
{
    if s.len() > 0 {
        let d = s.drop_last();
        let r = sorted_desc(d);
        lemma_sorted_desc(d);
        lemma_insert_desc(r, s.last());
        assert(s[s.len() - 1] == s.last());
        assert(sorted_desc(s) == insert_desc(r, s.last()));
        assert forall|x: Monomial| s.contains(x) implies sorted_desc(s).contains(x) by {
            let i = choose|i: int| 0 <= i < s.len() && s[i] == x;
            if i < s.len() - 1 {
                assert(d[i] == x);
                assert(d.contains(x));
                assert(r.contains(x));
            } else {
                assert(x == s.last());
            }
            assert(insert_desc(r, s.last()).contains(x));
        }
        assert forall|x: Monomial| sorted_desc(s).contains(x) implies s.contains(x) by {
            if x != s.last() {
                assert(r.contains(x));
                assert(d.contains(x));
                let i = choose|i: int| 0 <= i < d.len() && d[i] == x;
                assert(s[i] == x);
            } else {
                assert(s[s.len() - 1] == x);
            }
        }
        if pairwise_unlike(s) {
            assert forall|i: int, j: int| 0 <= i < j < d.len() implies !feq(d[i].e, d[j].e) by {
                assert(d[i] == s[i] && d[j] == s[j]);
            }
            assert forall|i: int| 0 <= i < r.len() implies !feq(r[i].e, s.last().e) by {
                assert(r.contains(r[i]));
                assert(d.contains(r[i]));
                let k = choose|k: int| 0 <= k < d.len() && d[k] == r[i];
                assert(!feq(s[k].e, s[s.len() - 1].e));
            }
        }
        if exps_non_nan(s) {
            assert forall|i: int| 0 <= i < sorted_desc(s).len() implies !is_nan(
                sorted_desc(s)[i].e,
            ) by {
                assert(sorted_desc(s).contains(sorted_desc(s)[i]));
                assert(s.contains(sorted_desc(s)[i]));
                let k = choose|k: int| 0 <= k < s.len() && s[k] == sorted_desc(s)[i];
            }
        }
        if no_zero_coefficients(s) {
            assert forall|i: int| 0 <= i < sorted_desc(s).len() implies !feq(
                sorted_desc(s)[i].c,
                POS_ZERO,
            ) by {
                assert(sorted_desc(s).contains(sorted_desc(s)[i]));
                assert(s.contains(sorted_desc(s)[i]));
                let k = choose|k: int| 0 <= k < s.len() && s[k] == sorted_desc(s)[i];
            }
        }
    }
}

/// Combining a list whose exponents are already pairwise unequal copies it.
pub proof fn lemma_combined_identity(s: Seq<Monomial>)
    requires
        pairwise_unlike(s),
    ensures
        combined(s) == s,
    decreases s.len(),
{
    if s.len() > 0 {
        let d = s.drop_last();
        assert forall|i: int, j: int| 0 <= i < j < d.len() implies !feq(d[i].e, d[j].e) by {
            assert(d[i] == s[i] && d[j] == s[j]);
        }
        lemma_combined_identity(d);
        assert forall|i: int| 0 <= i < d.len() implies !feq(d[i].e, s.last().e) by {
            assert(d[i] == s[i] && s.last() == s[s.len() - 1]);
        }
        lemma_find_like_is(d, s.last().e, d.len() as int);
        assert(combined(s) == d.push(s.last()));
        assert(d.push(s.last()) =~= s);
    }
}

/// Dropping zero terms from a list without any copies it.
pub proof fn lemma_without_zeros_identity(s: Seq<Monomial>)
    requires
        no_zero_coefficients(s),
    ensures
        without_zeros(s) == s,
    decreases s.len(),
{
    if s.len() > 0 {
        let d = s.drop_last();
        assert(!feq(s.last().c, POS_ZERO));
        assert forall|i: int| 0 <= i < d.len() implies !feq(d[i].c, POS_ZERO) by {
            assert(d[i] == s[i]);
        }
        lemma_without_zeros_identity(d);
        assert(d.push(s.last()) =~= s);
    }
}

/// Inserting below every key appends.
pub proof fn lemma_insert_desc_end(s: Seq<Monomial>, m: Monomial)
    requires
        forall|i: int| 0 <= i < s.len() ==> key(s[i].e) >= key(m.e),
    ensures
        insert_desc(s, m) == s.push(m),
{
    lemma_insert_pos_is(s, m, s.len() as int);
    assert(insert_desc(s, m) =~= s.push(m));
}

/// Sorting a sorted list copies it.
pub proof fn lemma_sorted_desc_identity(s: Seq<Monomial>)
    requires
        sorted_by_exponent(s),
    ensures
        sorted_desc(s) == s,
    decreases s.len(),
{
    if s.len() > 0 {
        let d = s.drop_last();
        assert forall|i: int, j: int| 0 <= i < j < d.len() implies key(d[i].e) >= key(d[j].e) by {
            assert(d[i] == s[i] && d[j] == s[j]);
        }
        lemma_sorted_desc_identity(d);
        assert forall|i: int| 0 <= i < d.len() implies key(d[i].e) >= key(s.last().e) by {
            assert(d[i] == s[i] && s.last() == s[s.len() - 1]);
        }
        lemma_insert_desc_end(d, s.last());
        assert(d.push(s.last()) =~= s);
    }
}

/// The canonical form meets the three canonicity conditions, never grows,
/// and keeps NaN-free exponents NaN-free.
pub proof fn lemma_canon(s: Seq<Monomial>)
    ensures
        canon(s).len() <= s.len(),
        pairwise_unlike(canon(s)),
        no_zero_coefficients(canon(s)),
        sorted_by_exponent(canon(s)),
        forall|j: int| 0 <= j < canon(s).len() ==> #[trigger] exponent_of(s, canon(s)[j].e),
        exps_non_nan(s) ==> exps_non_nan(canon(s)),
        simplifiable(s) ==> simplifiable(canon(s)),
{
    let c = combined(s);
    let w = without_zeros(c);
    lemma_combined(s);
    lemma_without_zeros(c);
    lemma_sorted_desc(w);
    assert forall|j: int| 0 <= j < canon(s).len() implies !feq(canon(s)[j].c, POS_ZERO) by {
        assert(canon(s).contains(canon(s)[j]));
        assert(w.contains(canon(s)[j]));
        let k = choose|k: int| 0 <= k < w.len() && w[k] == canon(s)[j];
    }
    assert forall|j: int| 0 <= j < canon(s).len() implies #[trigger] exponent_of(
        s,
        canon(s)[j].e,
    ) by {
        assert(canon(s).contains(canon(s)[j]));
        assert(w.contains(canon(s)[j]));
        let k = choose|k: int| 0 <= k < w.len() && w[k] == canon(s)[j];
        assert(c.contains(w[k]));
        let k2 = choose|k2: int| 0 <= k2 < c.len() && c[k2] == w[k];
        assert(exponent_of(s, c[k2].e));
        let i = choose|i: int| 0 <= i < s.len() && c[k2].e == s[i].e;
        assert(canon(s)[j].e == s[i].e);
    }
    if exps_non_nan(s) {
        assert forall|j: int| 0 <= j < canon(s).len() implies !is_nan(canon(s)[j].e) by {
            assert(exponent_of(s, canon(s)[j].e));
            let i = choose|i: int| 0 <= i < s.len() && canon(s)[j].e == s[i].e;
        }
    }
}

/// Canonicalizing a second time changes nothing.
pub proof fn lemma_canon_idempotent(s: Seq<Monomial>)
    ensures
        canon(canon(s)) == canon(s),
{
    let c = canon(s);
    lemma_canon(s);
    lemma_combined_identity(c);
    lemma_without_zeros_identity(c);
    lemma_sorted_desc_identity(c);
}

} // verus!
