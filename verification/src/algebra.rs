//! The ring operations on polynomials, and their laws.
//!
//! An operation takes term lists in any form and gives the canonical list of
//! the result.  The laws are proved here for every ring context; where a law
//! speaks of products, the lists are to have monomials of one number of
//! variables.

use crate::expansion::{
    expansion, lemma_expansion_admits, lemma_expansion_associative, lemma_expansion_commutative,
    lemma_expansion_concat, lemma_expansion_left, lemma_expansion_right, lemma_expansion_split,
    lemma_negated, negated, scaled, term_product,
};
use crate::monomial::{lemma_times_unit, precedes, unit};
use crate::polynomial::PolynomialRing;
use crate::ring::{is_commutative, Ring};
use crate::terms::{
    canonical, coeff, covers, distinct, exactly, is_normal_form, lemma_coeff_concat,
    lemma_coeff_distinct, lemma_coeff_member, lemma_negation_zero, lemma_normal_form,
    lemma_normal_form_fixed, lemma_normal_form_same, lemma_normal_form_uniform, lemma_occurs,
    lemma_ordered_distinct, lemma_weight_concat, lemma_weight_member, lemma_weight_push,
    lemma_weights_polynomial, normal_form, ordered, same_polynomial, same_weights, share, uniform,
    weight, zero_free, TermValue,
};
use vstd::prelude::*;

verus! {

/// The sum of two polynomials.
pub open spec fn poly_sum<R: Ring>(
    ring: &R,
    f: Seq<TermValue<R::Value>>,
    g: Seq<TermValue<R::Value>>,
) -> Seq<TermValue<R::Value>> {
    normal_form(ring, f + g)
}

/// The negative of a polynomial.
pub open spec fn poly_negation<R: Ring>(ring: &R, f: Seq<TermValue<R::Value>>) -> Seq<
    TermValue<R::Value>,
> {
    normal_form(ring, negated(ring, f))
}

/// The difference of two polynomials: the first plus the negative of the
/// second.
pub open spec fn poly_difference<R: Ring>(
    ring: &R,
    f: Seq<TermValue<R::Value>>,
    g: Seq<TermValue<R::Value>>,
) -> Seq<TermValue<R::Value>> {
    normal_form(ring, f + negated(ring, g))
}

/// The product of two polynomials.
pub open spec fn poly_product<R: Ring>(
    ring: &R,
    f: Seq<TermValue<R::Value>>,
    g: Seq<TermValue<R::Value>>,
) -> Seq<TermValue<R::Value>> {
    normal_form(ring, expansion(ring, f, g))
}

/// The polynomial zero: no terms.
pub open spec fn poly_zero<V>() -> Seq<TermValue<V>> {
    Seq::empty()
}

/// The one term of the polynomial one, in `n` variables: the monomial without
/// variables with the one of the ring.
pub open spec fn unit_term<R: Ring>(ring: &R, n: nat) -> TermValue<R::Value> {
    TermValue { exponents: unit(n), coeff: ring.one_value() }
}

/// The polynomial one in `n` variables.  (It has no term at all in a ring
/// whose one is its zero.)
pub open spec fn poly_one<R: Ring>(ring: &R, n: nat) -> Seq<TermValue<R::Value>> {
    normal_form(ring, seq![unit_term(ring, n)])
}

/// A concatenation of lists over the ring is over the ring, and keeps the
/// number of variables.
pub proof fn lemma_concat_admits<R: Ring>(
    ring: &R,
    n: nat,
    a: Seq<TermValue<R::Value>>,
    b: Seq<TermValue<R::Value>>,
)
    ensures
        covers(ring, a) && covers(ring, b) ==> covers(ring, a + b),
        uniform(n, a) && uniform(n, b) ==> uniform(n, a + b),
{
    let out = a + b;
    if covers(ring, a) && covers(ring, b) {
        assert forall|i: int| 0 <= i < out.len() implies ring.contains(
            (#[trigger] out[i]).coeff,
        ) by {
            if i < a.len() {
                assert(out[i] == a[i]);
            } else {
                assert(out[i] == b[i - a.len()]);
            }
        }
    }
    if uniform(n, a) && uniform(n, b) {
        assert forall|i: int| 0 <= i < out.len() implies (#[trigger] out[i]).exponents.len()
            == n by {
            if i < a.len() {
                assert(out[i] == a[i]);
            } else {
                assert(out[i] == b[i - a.len()]);
            }
        }
    }
}

/// Concatenating lists of the same polynomials gives lists of the same
/// polynomial.
pub proof fn lemma_concat_same<R: Ring>(
    ring: &R,
    a: Seq<TermValue<R::Value>>,
    a2: Seq<TermValue<R::Value>>,
    b: Seq<TermValue<R::Value>>,
    b2: Seq<TermValue<R::Value>>,
)
    requires
        ring.wf(),
        covers(ring, a),
        covers(ring, a2),
        covers(ring, b),
        covers(ring, b2),
        same_polynomial(ring, a, a2),
        same_polynomial(ring, b, b2),
    ensures
        same_polynomial(ring, a + b, a2 + b2),
{
    assert forall|m: Seq<u64>| coeff(ring, a + b, m) == coeff(ring, a2 + b2, m) by {
        lemma_coeff_concat(ring, a, b, m);
        lemma_coeff_concat(ring, a2, b2, m);
        assert(coeff(ring, a, m) == coeff(ring, a2, m));
        assert(coeff(ring, b, m) == coeff(ring, b2, m));
    }
}

/// Being lists of the same polynomial carries over from one pair to the next.
pub proof fn lemma_same_transitive<R: Ring>(
    ring: &R,
    a: Seq<TermValue<R::Value>>,
    b: Seq<TermValue<R::Value>>,
    c: Seq<TermValue<R::Value>>,
)
    requires
        same_polynomial(ring, a, b),
        same_polynomial(ring, b, c),
    ensures
        same_polynomial(ring, a, c),
{
    assert forall|m: Seq<u64>| coeff(ring, a, m) == coeff(ring, c, m) by {
        assert(coeff(ring, a, m) == coeff(ring, b, m));
        assert(coeff(ring, b, m) == coeff(ring, c, m));
    }
}

/// Putting a term in anywhere adds its share to every weight.
pub proof fn lemma_weight_insert<R: Ring>(
    ring: &R,
    ts: Seq<TermValue<R::Value>>,
    j: int,
    t: TermValue<R::Value>,
    s: spec_fn(Seq<u64>) -> bool,
)
    requires
        ring.wf(),
        covers(ring, ts),
        ring.contains(t.coeff),
        0 <= j <= ts.len(),
    ensures
        weight(ring, ts.insert(j, t), s) == ring.sum(weight(ring, ts, s), share(ring, t, s)),
{
    let front = ts.take(j);
    let back = ts.skip(j);
    assert(ts =~= front + back);
    assert(ts.insert(j, t) =~= front.push(t) + back);
    assert(covers(ring, front.push(t))) by {
        assert forall|i: int| 0 <= i < front.push(t).len() implies ring.contains(
            (#[trigger] front.push(t)[i]).coeff,
        ) by {
            if i < j {
                assert(front.push(t)[i] == ts[i]);
            }
        }
    }
    let f = weight(ring, front, s);
    let b = weight(ring, back, s);
    let d = share(ring, t, s);
    ring.lemma_identities();
    lemma_weight_member(ring, front, s);
    lemma_weight_member(ring, back, s);
    lemma_weight_push(ring, front, t, s);
    lemma_weight_concat(ring, front.push(t), back, s);
    lemma_weight_concat(ring, front, back, s);
    // (f + d) + b == (f + b) + d
    ring.lemma_sum_associative(f, d, b);
    ring.lemma_sum_commutative(d, b);
    ring.lemma_sum_associative(f, b, d);
}

/// Lists with the same terms, each as often in the one as in the other, have
/// the same weights.
pub proof fn lemma_rearranged<R: Ring>(
    ring: &R,
    a: Seq<TermValue<R::Value>>,
    b: Seq<TermValue<R::Value>>,
)
    requires
        ring.wf(),
        covers(ring, a),
        covers(ring, b),
        a.to_multiset() == b.to_multiset(),
    ensures
        same_weights(ring, a, b),
    decreases a.len(),
{
    broadcast use vstd::seq_lib::to_multiset_len;

    assert(a.len() == b.len()) by {
        assert(a.to_multiset().len() == a.len());
        assert(b.to_multiset().len() == b.len());
    }
    if a.len() > 0 {
        let a0 = a.drop_last();
        let t = a.last();
        assert(a =~= a0.push(t));
        vstd::seq_lib::to_multiset_build(a0, t);
        assert(b.to_multiset().count(t) > 0);
        vstd::seq_lib::to_multiset_contains(b, t);
        assert(b.contains(t));
        let j = choose|j: int| 0 <= j < b.len() && b[j] == t;
        let b0 = b.remove(j);
        vstd::seq_lib::to_multiset_remove(b, j);
        assert(a0.to_multiset() =~= b0.to_multiset());
        assert(covers(ring, a0)) by {
            assert forall|i: int| 0 <= i < a0.len() implies ring.contains(
                (#[trigger] a0[i]).coeff,
            ) by {
                assert(a0[i] == a[i]);
            }
        }
        assert(covers(ring, b0)) by {
            assert forall|i: int| 0 <= i < b0.len() implies ring.contains(
                (#[trigger] b0[i]).coeff,
            ) by {
                if i < j {
                    assert(b0[i] == b[i]);
                } else {
                    assert(b0[i] == b[i + 1]);
                }
            }
        }
        lemma_rearranged(ring, a0, b0);
        assert(b =~= b0.insert(j, t));
        assert forall|s: spec_fn(Seq<u64>) -> bool| weight(ring, a, s) == weight(ring, b, s) by {
            lemma_weight_push(ring, a0, t, s);
            lemma_weight_insert(ring, b0, j, t, s);
            assert(weight(ring, a0, s) == weight(ring, b0, s));
        }
    } else {
        assert(a =~= b);
    }
}

/// Reducing what is reduced changes nothing.
pub proof fn law_reduce_idempotent<R: Ring>(ring: &R, ts: Seq<TermValue<R::Value>>)
    requires
        ring.wf(),
        covers(ring, ts),
    ensures
        normal_form(ring, normal_form(ring, ts)) == normal_form(ring, ts),
{
    lemma_normal_form(ring, ts);
    lemma_normal_form_fixed(ring, normal_form(ring, ts));
}

/// Reduction does not depend on the order in which the terms are listed:
/// lists with the same terms, each as often in the one as in the other,
/// reduce to the same list.
pub proof fn law_reduce_rearranged<R: Ring>(
    ring: &R,
    a: Seq<TermValue<R::Value>>,
    b: Seq<TermValue<R::Value>>,
)
    requires
        ring.wf(),
        covers(ring, a),
        covers(ring, b),
        a.to_multiset() == b.to_multiset(),
    ensures
        normal_form(ring, a) == normal_form(ring, b),
{
    lemma_rearranged(ring, a, b);
    lemma_weights_polynomial(ring, a, b);
    lemma_normal_form_same(ring, a, b);
}

/// The reduced list gives every monomial the sum of the coefficients that the
/// list gives it, and has a term for a monomial exactly when that sum is not
/// zero.
pub proof fn law_reduce_coefficients<R: Ring>(
    ring: &R,
    ts: Seq<TermValue<R::Value>>,
    m: Seq<u64>,
)
    requires
        ring.wf(),
        covers(ring, ts),
    ensures
        coeff(ring, normal_form(ring, ts), m) == coeff(ring, ts, m),
        (exists|i: int|
            0 <= i < normal_form(ring, ts).len() && (#[trigger] normal_form(
                ring,
                ts,
            )[i]).exponents == m) <==> coeff(ring, ts, m) != ring.zero_value(),
{
    lemma_normal_form(ring, ts);
    let nf = normal_form(ring, ts);
    assert(coeff(ring, nf, m) == coeff(ring, ts, m));
    if coeff(ring, ts, m) != ring.zero_value() {
        let i = lemma_occurs(ring, nf, m);
        assert(nf[i].exponents == m);
    }
    if exists|i: int| 0 <= i < nf.len() && (#[trigger] nf[i]).exponents == m {
        let i = choose|i: int| 0 <= i < nf.len() && (#[trigger] nf[i]).exponents == m;
        lemma_ordered_distinct(nf);
        lemma_coeff_distinct(ring, nf, i);
    }
}

/// A list without a repeated monomial and without a zero coefficient is
/// reduced by putting its terms in order: the reduced list has the same terms.
pub proof fn law_reduce_keeps_reduced<R: Ring>(ring: &R, ts: Seq<TermValue<R::Value>>)
    requires
        ring.wf(),
        covers(ring, ts),
        distinct(ts),
        zero_free(ring, ts),
    ensures
        normal_form(ring, ts).to_multiset() == ts.to_multiset(),
{
    broadcast use vstd::seq_lib::to_multiset_contains;

    lemma_normal_form(ring, ts);
    let nf = normal_form(ring, ts);
    lemma_ordered_distinct(nf);
    assert(nf.no_duplicates());
    assert(ts.no_duplicates());
    nf.lemma_multiset_has_no_duplicates();
    ts.lemma_multiset_has_no_duplicates();
    assert forall|x: TermValue<R::Value>| nf.contains(x) <==> ts.contains(x) by {
        if ts.contains(x) {
            let j = choose|j: int| 0 <= j < ts.len() && ts[j] == x;
            lemma_coeff_distinct(ring, ts, j);
            assert(coeff(ring, nf, x.exponents) == coeff(ring, ts, x.exponents));
            let i = lemma_occurs(ring, nf, x.exponents);
            lemma_coeff_distinct(ring, nf, i);
            assert(nf[i] == x);
        }
        if nf.contains(x) {
            let i = choose|i: int| 0 <= i < nf.len() && nf[i] == x;
            lemma_coeff_distinct(ring, nf, i);
            assert(coeff(ring, nf, x.exponents) == coeff(ring, ts, x.exponents));
            let j = lemma_occurs(ring, ts, x.exponents);
            lemma_coeff_distinct(ring, ts, j);
            assert(ts[j] == x);
        }
    }
    assert forall|x: TermValue<R::Value>| nf.to_multiset().count(x) == ts.to_multiset().count(
        x,
    ) by {
        assert(nf.contains(x) <==> ts.contains(x));
        assert(nf.to_multiset().count(x) > 0 <==> nf.contains(x));
        assert(ts.to_multiset().count(x) > 0 <==> ts.contains(x));
        if nf.contains(x) {
            assert(nf.to_multiset().contains(x));
            assert(ts.to_multiset().contains(x));
        }
    }
    assert(nf.to_multiset() =~= ts.to_multiset());
}

/// Adding zero, on either side, changes nothing.
pub proof fn law_sum_zero<R: Ring>(ring: &R, f: Seq<TermValue<R::Value>>)
    requires
        ring.wf(),
        canonical(ring, f),
        covers(ring, f),
    ensures
        poly_sum(ring, f, poly_zero()) == f,
        poly_sum(ring, poly_zero(), f) == f,
{
    assert(f + poly_zero::<R::Value>() =~= f);
    assert(poly_zero::<R::Value>() + f =~= f);
    lemma_normal_form_fixed(ring, f);
}

/// Addition is commutative.
pub proof fn law_sum_commutative<R: Ring>(
    ring: &R,
    f: Seq<TermValue<R::Value>>,
    g: Seq<TermValue<R::Value>>,
)
    requires
        ring.wf(),
        covers(ring, f),
        covers(ring, g),
    ensures
        poly_sum(ring, f, g) == poly_sum(ring, g, f),
{
    lemma_concat_admits(ring, 0, f, g);
    lemma_concat_admits(ring, 0, g, f);
    assert forall|m: Seq<u64>| coeff(ring, f + g, m) == coeff(ring, g + f, m) by {
        lemma_coeff_concat(ring, f, g, m);
        lemma_coeff_concat(ring, g, f, m);
        lemma_coeff_member(ring, f, m);
        lemma_coeff_member(ring, g, m);
        ring.lemma_sum_commutative(coeff(ring, f, m), coeff(ring, g, m));
    }
    lemma_normal_form_same(ring, f + g, g + f);
}

/// Addition is associative.
pub proof fn law_sum_associative<R: Ring>(
    ring: &R,
    f: Seq<TermValue<R::Value>>,
    g: Seq<TermValue<R::Value>>,
    h: Seq<TermValue<R::Value>>,
)
    requires
        ring.wf(),
        covers(ring, f),
        covers(ring, g),
        covers(ring, h),
    ensures
        poly_sum(ring, poly_sum(ring, f, g), h) == poly_sum(ring, f, poly_sum(ring, g, h)),
{
    lemma_concat_admits(ring, 0, f, g);
    lemma_concat_admits(ring, 0, g, h);
    lemma_normal_form(ring, f + g);
    lemma_normal_form(ring, g + h);
    let fg = normal_form(ring, f + g);
    let gh = normal_form(ring, g + h);
    lemma_concat_admits(ring, 0, fg, h);
    lemma_concat_admits(ring, 0, f, gh);
    lemma_concat_admits(ring, 0, f + g, h);
    lemma_concat_admits(ring, 0, f, g + h);
    lemma_concat_same(ring, fg, f + g, h, h);
    lemma_concat_same(ring, f, f, g + h, gh);
    assert((f + g) + h =~= f + (g + h));
    lemma_same_transitive(ring, fg + h, (f + g) + h, f + gh);
    lemma_normal_form_same(ring, fg + h, f + gh);
}

/// A polynomial and its negative add up to zero.
pub proof fn law_sum_negation<R: Ring>(ring: &R, f: Seq<TermValue<R::Value>>)
    requires
        ring.wf(),
        covers(ring, f),
    ensures
        poly_sum(ring, f, poly_negation(ring, f)) == poly_zero::<R::Value>(),
        poly_difference(ring, f, f) == poly_zero::<R::Value>(),
{
    let zero = poly_zero::<R::Value>();
    lemma_negated(ring, f, exactly(seq![]));
    let nf = negated(ring, f);
    lemma_normal_form(ring, nf);
    let neg = normal_form(ring, nf);
    lemma_concat_admits(ring, 0, f, nf);
    lemma_concat_admits(ring, 0, f, neg);
    assert forall|m: Seq<u64>| coeff(ring, f + nf, m) == coeff(ring, zero, m) by {
        lemma_coeff_concat(ring, f, nf, m);
        lemma_negated(ring, f, exactly(m));
    }
    lemma_concat_same(ring, f, f, neg, nf);
    lemma_same_transitive(ring, f + neg, f + nf, zero);
    lemma_normal_form_same(ring, f + neg, zero);
    lemma_normal_form_same(ring, f + nf, zero);
    lemma_normal_form_fixed(ring, zero);
}

/// Subtracting is adding the negative.
pub proof fn law_difference<R: Ring>(
    ring: &R,
    f: Seq<TermValue<R::Value>>,
    g: Seq<TermValue<R::Value>>,
)
    requires
        ring.wf(),
        covers(ring, f),
        covers(ring, g),
    ensures
        poly_difference(ring, f, g) == poly_sum(ring, f, poly_negation(ring, g)),
{
    let ng = negated(ring, g);
    lemma_negated(ring, g, exactly(seq![]));
    lemma_normal_form(ring, ng);
    let neg = normal_form(ring, ng);
    lemma_concat_admits(ring, 0, f, ng);
    lemma_concat_admits(ring, 0, f, neg);
    lemma_concat_same(ring, f, f, ng, neg);
    lemma_normal_form_same(ring, f + ng, f + neg);
}

/// The negative of a canonical list is the list with each coefficient
/// negated.
pub proof fn law_negation_canonical<R: Ring>(ring: &R, f: Seq<TermValue<R::Value>>)
    requires
        ring.wf(),
        canonical(ring, f),
        covers(ring, f),
    ensures
        poly_negation(ring, f) == negated(ring, f),
{
    let out = negated(ring, f);
    lemma_negated(ring, f, exactly(seq![]));
    assert(ordered(out)) by {
        assert forall|i: int, j: int| 0 <= i < j < out.len() implies precedes(
            (#[trigger] out[i]).exponents,
            (#[trigger] out[j]).exponents,
        ) by {
            assert(precedes(f[i].exponents, f[j].exponents));
        }
    }
    assert(zero_free(ring, out)) by {
        assert forall|i: int| 0 <= i < out.len() implies (#[trigger] out[i]).coeff
            != ring.zero_value() by {
            if ring.negation(f[i].coeff) == ring.zero_value() {
                lemma_negation_zero(ring, f[i].coeff);
            }
        }
    }
    lemma_normal_form_fixed(ring, out);
}

/// Multiplication is associative.
pub proof fn law_product_associative<R: Ring>(
    ring: &R,
    n: nat,
    f: Seq<TermValue<R::Value>>,
    g: Seq<TermValue<R::Value>>,
    h: Seq<TermValue<R::Value>>,
)
    requires
        ring.wf(),
        covers(ring, f),
        covers(ring, g),
        covers(ring, h),
        uniform(n, f),
        uniform(n, g),
        uniform(n, h),
    ensures
        poly_product(ring, poly_product(ring, f, g), h) == poly_product(
            ring,
            f,
            poly_product(ring, g, h),
        ),
{
    let efg = expansion(ring, f, g);
    let egh = expansion(ring, g, h);
    lemma_expansion_admits(ring, n, f, g);
    lemma_expansion_admits(ring, n, g, h);
    lemma_normal_form(ring, efg);
    lemma_normal_form(ring, egh);
    let fg = normal_form(ring, efg);
    let gh = normal_form(ring, egh);
    lemma_expansion_left(ring, fg, efg, h);
    lemma_expansion_right(ring, f, egh, gh);
    lemma_expansion_associative(ring, n, f, g, h);
    lemma_weights_polynomial(ring, expansion(ring, fg, h), expansion(ring, efg, h));
    lemma_weights_polynomial(ring, expansion(ring, f, egh), expansion(ring, f, gh));
    lemma_same_transitive(
        ring,
        expansion(ring, fg, h),
        expansion(ring, efg, h),
        expansion(ring, f, gh),
    );
    lemma_expansion_admits(ring, n, fg, h);
    lemma_expansion_admits(ring, n, f, gh);
    lemma_normal_form_same(ring, expansion(ring, fg, h), expansion(ring, f, gh));
}

/// Over a commutative ring, multiplication is commutative.
pub proof fn law_product_commutative<R: Ring>(
    ring: &R,
    n: nat,
    f: Seq<TermValue<R::Value>>,
    g: Seq<TermValue<R::Value>>,
)
    requires
        ring.wf(),
        is_commutative(ring),
        covers(ring, f),
        covers(ring, g),
        uniform(n, f),
        uniform(n, g),
    ensures
        poly_product(ring, f, g) == poly_product(ring, g, f),
{
    lemma_expansion_commutative(ring, n, f, g);
    lemma_weights_polynomial(ring, expansion(ring, f, g), expansion(ring, g, f));
    lemma_expansion_admits(ring, n, f, g);
    lemma_expansion_admits(ring, n, g, f);
    lemma_normal_form_same(ring, expansion(ring, f, g), expansion(ring, g, f));
}

/// The polynomials over a commutative ring multiply in either order, so the
/// ring they form is commutative again.
pub proof fn law_polynomials_commutative<'a, R: Ring>(ring: &PolynomialRing<'a, R>)
    requires
        ring.wf(),
        is_commutative(ring.ground()),
    ensures
        is_commutative(ring),
{
    assert forall|a: Seq<TermValue<R::Value>>, b: Seq<TermValue<R::Value>>|
        ring.contains(a) && ring.contains(b) implies #[trigger] ring.product(a, b)
        == ring.product(b, a) by {
        law_product_commutative(ring.ground(), ring.count(), a, b);
    }
}

/// Multiplication distributes over addition from the left.
pub proof fn law_distributive_left<R: Ring>(
    ring: &R,
    f: Seq<TermValue<R::Value>>,
    g: Seq<TermValue<R::Value>>,
    h: Seq<TermValue<R::Value>>,
)
    requires
        ring.wf(),
        covers(ring, f),
        covers(ring, g),
        covers(ring, h),
    ensures
        poly_product(ring, f, poly_sum(ring, g, h)) == poly_sum(
            ring,
            poly_product(ring, f, g),
            poly_product(ring, f, h),
        ),
{
    lemma_concat_admits(ring, 0, g, h);
    lemma_normal_form(ring, g + h);
    let gh = normal_form(ring, g + h);
    let efg = expansion(ring, f, g);
    let efh = expansion(ring, f, h);
    lemma_expansion_admits(ring, 0, f, g);
    lemma_expansion_admits(ring, 0, f, h);
    lemma_expansion_admits(ring, 0, f, gh);
    lemma_expansion_admits(ring, 0, f, g + h);
    lemma_normal_form(ring, efg);
    lemma_normal_form(ring, efh);
    let fg = normal_form(ring, efg);
    let fh = normal_form(ring, efh);
    lemma_expansion_right(ring, f, gh, g + h);
    lemma_weights_polynomial(ring, expansion(ring, f, gh), expansion(ring, f, g + h));
    lemma_expansion_split(ring, f, g, h);
    lemma_weights_polynomial(ring, expansion(ring, f, g + h), efg + efh);
    lemma_concat_admits(ring, 0, efg, efh);
    lemma_concat_admits(ring, 0, fg, fh);
    lemma_concat_same(ring, efg, fg, efh, fh);
    lemma_same_transitive(ring, expansion(ring, f, gh), expansion(ring, f, g + h), efg + efh);
    lemma_same_transitive(ring, expansion(ring, f, gh), efg + efh, fg + fh);
    lemma_normal_form_same(ring, expansion(ring, f, gh), fg + fh);
}

/// Multiplication distributes over addition from the right.
pub proof fn law_distributive_right<R: Ring>(
    ring: &R,
    f: Seq<TermValue<R::Value>>,
    g: Seq<TermValue<R::Value>>,
    h: Seq<TermValue<R::Value>>,
)
    requires
        ring.wf(),
        covers(ring, f),
        covers(ring, g),
        covers(ring, h),
    ensures
        poly_product(ring, poly_sum(ring, f, g), h) == poly_sum(
            ring,
            poly_product(ring, f, h),
            poly_product(ring, g, h),
        ),
{
    lemma_concat_admits(ring, 0, f, g);
    lemma_normal_form(ring, f + g);
    let fg = normal_form(ring, f + g);
    let efh = expansion(ring, f, h);
    let egh = expansion(ring, g, h);
    lemma_expansion_admits(ring, 0, f, h);
    lemma_expansion_admits(ring, 0, g, h);
    lemma_expansion_admits(ring, 0, fg, h);
    lemma_expansion_admits(ring, 0, f + g, h);
    lemma_normal_form(ring, efh);
    lemma_normal_form(ring, egh);
    let fh = normal_form(ring, efh);
    let gh = normal_form(ring, egh);
    lemma_expansion_left(ring, fg, f + g, h);
    lemma_weights_polynomial(ring, expansion(ring, fg, h), expansion(ring, f + g, h));
    lemma_expansion_concat(ring, f, g, h);
    lemma_concat_admits(ring, 0, efh, egh);
    lemma_concat_admits(ring, 0, fh, gh);
    lemma_concat_same(ring, efh, fh, egh, gh);
    lemma_same_transitive(ring, expansion(ring, fg, h), efh + egh, fh + gh);
    lemma_normal_form_same(ring, expansion(ring, fg, h), fh + gh);
}

/// Expanding against the single term of the polynomial one gives back the
/// list.
pub proof fn lemma_expansion_unit<R: Ring>(ring: &R, n: nat, f: Seq<TermValue<R::Value>>)
    requires
        ring.wf(),
        covers(ring, f),
        uniform(n, f),
    ensures
        expansion(ring, f, seq![unit_term(ring, n)]) == f,
        expansion(ring, seq![unit_term(ring, n)], f) == f,
    decreases f.len(),
{
    let u = unit_term(ring, n);
    let one = seq![u];
    assert(one.drop_last() =~= Seq::<TermValue<R::Value>>::empty());
    assert(expansion(ring, one.drop_last(), f) =~= Seq::<TermValue<R::Value>>::empty());
    assert(scaled(ring, u, f) =~= f) by {
        assert forall|i: int| 0 <= i < f.len() implies #[trigger] scaled(ring, u, f)[i]
            == f[i] by {
            lemma_times_unit(f[i].exponents);
            ring.lemma_product_one(f[i].coeff);
        }
    }
    assert(expansion(ring, one, f) =~= f);
    if f.len() == 0 {
        assert(expansion(ring, f, one) =~= f);
    } else {
        let f0 = f.drop_last();
        let t = f.last();
        assert(covers(ring, f0) && uniform(n, f0)) by {
            assert forall|i: int| 0 <= i < f0.len() implies ring.contains(
                (#[trigger] f0[i]).coeff,
            ) && f0[i].exponents.len() == n by {
                assert(f0[i] == f[i]);
            }
        }
        lemma_expansion_unit(ring, n, f0);
        lemma_times_unit(t.exponents);
        ring.lemma_product_one(t.coeff);
        assert(term_product(ring, t, u) == t);
        assert(scaled(ring, t, one) =~= seq![t]);
        assert(expansion(ring, f, one) =~= f);
    }
}

/// Multiplying by one, on either side, changes nothing.
pub proof fn law_product_one<R: Ring>(ring: &R, n: nat, f: Seq<TermValue<R::Value>>)
    requires
        ring.wf(),
        canonical(ring, f),
        covers(ring, f),
        uniform(n, f),
    ensures
        poly_product(ring, f, poly_one(ring, n)) == f,
        poly_product(ring, poly_one(ring, n), f) == f,
{
    let one = seq![unit_term(ring, n)];
    ring.lemma_identities();
    assert(covers(ring, one));
    lemma_normal_form(ring, one);
    let nf = normal_form(ring, one);
    lemma_expansion_right(ring, f, nf, one);
    lemma_expansion_left(ring, nf, one, f);
    lemma_weights_polynomial(ring, expansion(ring, f, nf), expansion(ring, f, one));
    lemma_weights_polynomial(ring, expansion(ring, nf, f), expansion(ring, one, f));
    lemma_expansion_unit(ring, n, f);
    lemma_expansion_admits(ring, 0, f, nf);
    lemma_expansion_admits(ring, 0, nf, f);
    lemma_normal_form_same(ring, expansion(ring, f, nf), f);
    lemma_normal_form_same(ring, expansion(ring, nf, f), f);
    lemma_normal_form_fixed(ring, f);
}

/// What the operations give is canonical, over the ring, and in the number
/// of variables of what they are given.
pub proof fn law_closed<R: Ring>(
    ring: &R,
    n: nat,
    f: Seq<TermValue<R::Value>>,
    g: Seq<TermValue<R::Value>>,
)
    requires
        ring.wf(),
        covers(ring, f),
        covers(ring, g),
        uniform(n, f),
        uniform(n, g),
    ensures
        is_normal_form(ring, poly_sum(ring, f, g), f + g),
        is_normal_form(ring, poly_negation(ring, f), negated(ring, f)),
        is_normal_form(ring, poly_difference(ring, f, g), f + negated(ring, g)),
        is_normal_form(ring, poly_product(ring, f, g), expansion(ring, f, g)),
        is_normal_form(ring, poly_one(ring, n), seq![unit_term(ring, n)]),
        uniform(n, poly_sum(ring, f, g)),
        uniform(n, poly_negation(ring, f)),
        uniform(n, poly_difference(ring, f, g)),
        uniform(n, poly_product(ring, f, g)),
        uniform(n, poly_one(ring, n)),
{
    ring.lemma_identities();
    lemma_negated(ring, f, exactly(seq![]));
    lemma_negated(ring, g, exactly(seq![]));
    assert(uniform(n, negated(ring, f)));
    assert(uniform(n, negated(ring, g)));
    lemma_concat_admits(ring, n, f, g);
    lemma_concat_admits(ring, n, f, negated(ring, g));
    lemma_expansion_admits(ring, n, f, g);
    let one = seq![unit_term(ring, n)];
    assert(covers(ring, one) && uniform(n, one));
    lemma_normal_form(ring, f + g);
    lemma_normal_form(ring, negated(ring, f));
    lemma_normal_form(ring, f + negated(ring, g));
    lemma_normal_form(ring, expansion(ring, f, g));
    lemma_normal_form(ring, one);
    lemma_normal_form_uniform(ring, n, f + g);
    lemma_normal_form_uniform(ring, n, negated(ring, f));
    lemma_normal_form_uniform(ring, n, f + negated(ring, g));
    lemma_normal_form_uniform(ring, n, expansion(ring, f, g));
    lemma_normal_form_uniform(ring, n, one);
}

} // verus!
