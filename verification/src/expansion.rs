//! Products and negatives of term lists.
//!
//! The product of two lists is their full expansion: every term of the first
//! times every term of the second.  This module shows that the expansion only
//! depends on the polynomials that the lists denote, and how it behaves
//! towards concatenation, nesting and exchange of the factors.

use crate::monomial::{lemma_times_associative, lemma_times_commutative, times};
use crate::ring::{is_commutative, Ring};
use crate::terms::{
    covers, lemma_product_zero, lemma_same_weights, lemma_sum_interchange, lemma_weight_agree,
    lemma_weight_concat, lemma_weight_member, lemma_weight_push, same_polynomial, same_weights,
    share, uniform, weight, TermValue,
};
use vstd::prelude::*;

verus! {

/// The product of two terms.
pub open spec fn term_product<R: Ring>(
    ring: &R,
    t: TermValue<R::Value>,
    u: TermValue<R::Value>,
) -> TermValue<R::Value> {
    TermValue {
        exponents: times(t.exponents, u.exponents),
        coeff: ring.product(t.coeff, u.coeff),
    }
}

/// The term `t` times each term of `g`, in the order of `g`.
pub open spec fn scaled<R: Ring>(
    ring: &R,
    t: TermValue<R::Value>,
    g: Seq<TermValue<R::Value>>,
) -> Seq<TermValue<R::Value>> {
    Seq::new(g.len(), |j: int| term_product(ring, t, g[j]))
}

/// Every term of `f` times every term of `g`: the terms of `f` in turn, each
/// with the terms of `g` in turn.
pub open spec fn expansion<R: Ring>(
    ring: &R,
    f: Seq<TermValue<R::Value>>,
    g: Seq<TermValue<R::Value>>,
) -> Seq<TermValue<R::Value>>
    decreases f.len(),
{
    if f.len() == 0 {
        Seq::empty()
    } else {
        expansion(ring, f.drop_last(), g) + scaled(ring, f.last(), g)
    }
}

/// Each term of `f` with its coefficient negated.
pub open spec fn negated<R: Ring>(ring: &R, f: Seq<TermValue<R::Value>>) -> Seq<
    TermValue<R::Value>,
> {
    Seq::new(
        f.len(),
        |i: int| TermValue { exponents: f[i].exponents, coeff: ring.negation(f[i].coeff) },
    )
}

/// The condition `s`, asked of `e` times a monomial.
pub open spec fn after(s: spec_fn(Seq<u64>) -> bool, e: Seq<u64>) -> spec_fn(Seq<u64>) -> bool {
    |x: Seq<u64>| s(times(e, x))
}

/// The condition `s`, asked of a monomial times `e`.
pub open spec fn before(s: spec_fn(Seq<u64>) -> bool, e: Seq<u64>) -> spec_fn(Seq<u64>) -> bool {
    |x: Seq<u64>| s(times(x, e))
}

/// A scaled list stays over the ring and keeps the number of variables.
pub proof fn lemma_scaled_admits<R: Ring>(
    ring: &R,
    n: nat,
    t: TermValue<R::Value>,
    g: Seq<TermValue<R::Value>>,
)
    requires
        ring.wf(),
        ring.contains(t.coeff),
        covers(ring, g),
    ensures
        covers(ring, scaled(ring, t, g)),
        t.exponents.len() == n ==> uniform(n, scaled(ring, t, g)),
{
    let out = scaled(ring, t, g);
    assert forall|j: int| 0 <= j < out.len() implies ring.contains((#[trigger] out[j]).coeff) by {
        ring.lemma_closed(t.coeff, g[j].coeff);
    }
}

/// An expansion stays over the ring and keeps the number of variables.
pub proof fn lemma_expansion_admits<R: Ring>(
    ring: &R,
    n: nat,
    f: Seq<TermValue<R::Value>>,
    g: Seq<TermValue<R::Value>>,
)
    requires
        ring.wf(),
        covers(ring, f),
        covers(ring, g),
    ensures
        covers(ring, expansion(ring, f, g)),
        uniform(n, f) ==> uniform(n, expansion(ring, f, g)),
    decreases f.len(),
{
    if f.len() > 0 {
        let rest = f.drop_last();
        assert(covers(ring, rest)) by {
            assert forall|i: int| 0 <= i < rest.len() implies ring.contains(
                (#[trigger] rest[i]).coeff,
            ) by {
                assert(rest[i] == f[i]);
            }
        }
        if uniform(n, f) {
            assert(uniform(n, rest)) by {
                assert forall|i: int| 0 <= i < rest.len() implies (
                #[trigger] rest[i]).exponents.len() == n by {
                    assert(rest[i] == f[i]);
                }
            }
        }
        lemma_expansion_admits(ring, n, rest, g);
        lemma_scaled_admits(ring, n, f.last(), g);
        let a = expansion(ring, rest, g);
        let b = scaled(ring, f.last(), g);
        let out = a + b;
        assert forall|i: int| 0 <= i < out.len() implies ring.contains(
            (#[trigger] out[i]).coeff,
        ) by {
            if i < a.len() {
                assert(out[i] == a[i]);
            } else {
                assert(out[i] == b[i - a.len()]);
            }
        }
        if uniform(n, f) {
            assert forall|i: int| 0 <= i < out.len() implies (#[trigger] out[i]).exponents.len()
                == n by {
                if i < a.len() {
                    assert(out[i] == a[i]);
                } else {
                    assert(out[i] == b[i - a.len()]);
                }
            }
        }
    }
}

/// One more term in the first list adds its scaled copy of the second.
pub proof fn lemma_expansion_push<R: Ring>(
    ring: &R,
    f: Seq<TermValue<R::Value>>,
    t: TermValue<R::Value>,
    g: Seq<TermValue<R::Value>>,
)
    ensures
        expansion(ring, f.push(t), g) == expansion(ring, f, g) + scaled(ring, t, g),
{
    assert(f.push(t).drop_last() =~= f);
}

/// The expansion of a concatenation in the first place is the concatenation
/// of the expansions.
pub proof fn lemma_expansion_concat<R: Ring>(
    ring: &R,
    a: Seq<TermValue<R::Value>>,
    b: Seq<TermValue<R::Value>>,
    g: Seq<TermValue<R::Value>>,
)
    ensures
        expansion(ring, a + b, g) == expansion(ring, a, g) + expansion(ring, b, g),
    decreases b.len(),
{
    if b.len() == 0 {
        assert(a + b =~= a);
        assert(expansion(ring, a, g) + expansion(ring, b, g) =~= expansion(ring, a, g));
    } else {
        let b0 = b.drop_last();
        assert((a + b).drop_last() =~= a + b0);
        lemma_expansion_concat(ring, a, b0, g);
        assert((expansion(ring, a, g) + expansion(ring, b0, g)) + scaled(ring, b.last(), g)
            =~= expansion(ring, a, g) + (expansion(ring, b0, g) + scaled(ring, b.last(), g)));
    }
}

/// A scaled concatenation is the concatenation of the scaled parts.
pub proof fn lemma_scaled_concat<R: Ring>(
    ring: &R,
    t: TermValue<R::Value>,
    a: Seq<TermValue<R::Value>>,
    b: Seq<TermValue<R::Value>>,
)
    ensures
        scaled(ring, t, a + b) == scaled(ring, t, a) + scaled(ring, t, b),
{
    assert(scaled(ring, t, a + b) =~= scaled(ring, t, a) + scaled(ring, t, b));
}

/// The weight of a scaled list: the coefficient of the term times the weight
/// that the list has under the condition asked after multiplying.
pub proof fn lemma_scaled_weight<R: Ring>(
    ring: &R,
    t: TermValue<R::Value>,
    g: Seq<TermValue<R::Value>>,
    s: spec_fn(Seq<u64>) -> bool,
)
    requires
        ring.wf(),
        ring.contains(t.coeff),
        covers(ring, g),
    ensures
        weight(ring, scaled(ring, t, g), s) == ring.product(
            t.coeff,
            weight(ring, g, after(s, t.exponents)),
        ),
    decreases g.len(),
{
    let s2 = after(s, t.exponents);
    if g.len() == 0 {
        lemma_product_zero(ring, t.coeff);
    } else {
        let g0 = g.drop_last();
        let u = g.last();
        assert(covers(ring, g0)) by {
            assert forall|i: int| 0 <= i < g0.len() implies ring.contains(
                (#[trigger] g0[i]).coeff,
            ) by {
                assert(g0[i] == g[i]);
            }
        }
        assert(scaled(ring, t, g).drop_last() =~= scaled(ring, t, g0));
        assert(scaled(ring, t, g).last() == term_product(ring, t, u));
        lemma_scaled_weight(ring, t, g0, s);
        lemma_weight_member(ring, g0, s2);
        if s2(u.exponents) {
            ring.lemma_distributive(t.coeff, weight(ring, g0, s2), u.coeff);
        }
    }
}

/// The expansion does not tell apart second lists of the same polynomial.
pub proof fn lemma_expansion_right<R: Ring>(
    ring: &R,
    f: Seq<TermValue<R::Value>>,
    a: Seq<TermValue<R::Value>>,
    b: Seq<TermValue<R::Value>>,
)
    requires
        ring.wf(),
        covers(ring, f),
        covers(ring, a),
        covers(ring, b),
        same_polynomial(ring, a, b),
    ensures
        same_weights(ring, expansion(ring, f, a), expansion(ring, f, b)),
    decreases f.len(),
{
    if f.len() > 0 {
        let f0 = f.drop_last();
        let t = f.last();
        assert(covers(ring, f0)) by {
            assert forall|i: int| 0 <= i < f0.len() implies ring.contains(
                (#[trigger] f0[i]).coeff,
            ) by {
                assert(f0[i] == f[i]);
            }
        }
        lemma_expansion_right(ring, f0, a, b);
        lemma_same_weights(ring, a, b);
        lemma_expansion_admits(ring, 0, f0, a);
        lemma_expansion_admits(ring, 0, f0, b);
        lemma_scaled_admits(ring, 0, t, a);
        lemma_scaled_admits(ring, 0, t, b);
        assert forall|s: spec_fn(Seq<u64>) -> bool| weight(ring, expansion(ring, f, a), s)
            == weight(ring, expansion(ring, f, b), s) by {
            lemma_weight_concat(ring, expansion(ring, f0, a), scaled(ring, t, a), s);
            lemma_weight_concat(ring, expansion(ring, f0, b), scaled(ring, t, b), s);
            lemma_scaled_weight(ring, t, a, s);
            lemma_scaled_weight(ring, t, b, s);
            assert(weight(ring, a, after(s, t.exponents)) == weight(
                ring,
                b,
                after(s, t.exponents),
            ));
            assert(weight(ring, expansion(ring, f0, a), s) == weight(
                ring,
                expansion(ring, f0, b),
                s,
            ));
        }
    }
}

/// The weight of an expansion, summed up along the second list: for each of
/// its terms, the weight that the first list has under the condition asked
/// after multiplying, times the coefficient of the term.
pub open spec fn cross<R: Ring>(
    ring: &R,
    f: Seq<TermValue<R::Value>>,
    g: Seq<TermValue<R::Value>>,
    s: spec_fn(Seq<u64>) -> bool,
) -> R::Value
    decreases g.len(),
{
    if g.len() == 0 {
        ring.zero_value()
    } else {
        ring.sum(
            cross(ring, f, g.drop_last(), s),
            ring.product(weight(ring, f, before(s, g.last().exponents)), g.last().coeff),
        )
    }
}

/// A cross sum is a member of the ring.
pub proof fn lemma_cross_member<R: Ring>(
    ring: &R,
    f: Seq<TermValue<R::Value>>,
    g: Seq<TermValue<R::Value>>,
    s: spec_fn(Seq<u64>) -> bool,
)
    requires
        ring.wf(),
        covers(ring, f),
        covers(ring, g),
    ensures
        ring.contains(cross(ring, f, g, s)),
    decreases g.len(),
{
    ring.lemma_identities();
    if g.len() > 0 {
        let g0 = g.drop_last();
        assert(covers(ring, g0)) by {
            assert forall|i: int| 0 <= i < g0.len() implies ring.contains(
                (#[trigger] g0[i]).coeff,
            ) by {
                assert(g0[i] == g[i]);
            }
        }
        lemma_cross_member(ring, f, g0, s);
        let w = weight(ring, f, before(s, g.last().exponents));
        lemma_weight_member(ring, f, before(s, g.last().exponents));
        ring.lemma_closed(w, g.last().coeff);
        ring.lemma_closed(cross(ring, f, g0, s), ring.product(w, g.last().coeff));
    }
}

/// One more term in the first list adds the weight of its scaled copy of the
/// second list to the cross sum.
pub proof fn lemma_cross_push<R: Ring>(
    ring: &R,
    f: Seq<TermValue<R::Value>>,
    t: TermValue<R::Value>,
    g: Seq<TermValue<R::Value>>,
    s: spec_fn(Seq<u64>) -> bool,
)
    requires
        ring.wf(),
        covers(ring, f),
        ring.contains(t.coeff),
        covers(ring, g),
    ensures
        cross(ring, f.push(t), g, s) == ring.sum(
            cross(ring, f, g, s),
            weight(ring, scaled(ring, t, g), s),
        ),
    decreases g.len(),
{
    ring.lemma_identities();
    if g.len() == 0 {
        ring.lemma_sum_zero(ring.zero_value());
    } else {
        let g0 = g.drop_last();
        let u = g.last();
        assert(covers(ring, g0)) by {
            assert forall|i: int| 0 <= i < g0.len() implies ring.contains(
                (#[trigger] g0[i]).coeff,
            ) by {
                assert(g0[i] == g[i]);
            }
        }
        lemma_cross_push(ring, f, t, g0, s);
        let cond = before(s, u.exponents);
        let w = weight(ring, f, cond);
        let x = cross(ring, f, g0, s);
        let y = weight(ring, scaled(ring, t, g0), s);
        let tu = term_product(ring, t, u);
        lemma_weight_member(ring, f, cond);
        lemma_cross_member(ring, f, g0, s);
        lemma_scaled_admits(ring, 0, t, g0);
        lemma_weight_member(ring, scaled(ring, t, g0), s);
        lemma_weight_push(ring, f, t, cond);
        ring.lemma_closed(t.coeff, u.coeff);
        ring.lemma_closed(w, u.coeff);
        assert(scaled(ring, t, g) =~= scaled(ring, t, g0).push(tu));
        lemma_weight_push(ring, scaled(ring, t, g0), tu, s);
        // cross(f.push(t), g) = (x + y) + (w + share(t)) * u
        // target             = (x + w * u) + (y + share(tu))
        ring.lemma_distributive(w, share(ring, t, cond), u.coeff);
        if cond(t.exponents) {
            assert(share(ring, tu, s) == ring.product(t.coeff, u.coeff));
        } else {
            lemma_product_zero(ring, u.coeff);
            assert(share(ring, tu, s) == ring.zero_value());
        }
        lemma_sum_interchange(ring, x, y, ring.product(w, u.coeff), share(ring, tu, s));
    }
}

/// The cross sum over an empty first list is zero.
pub proof fn lemma_cross_empty<R: Ring>(
    ring: &R,
    g: Seq<TermValue<R::Value>>,
    s: spec_fn(Seq<u64>) -> bool,
)
    requires
        ring.wf(),
        covers(ring, g),
    ensures
        cross(ring, Seq::<TermValue<R::Value>>::empty(), g, s) == ring.zero_value(),
    decreases g.len(),
{
    ring.lemma_identities();
    if g.len() > 0 {
        let g0 = g.drop_last();
        assert(covers(ring, g0)) by {
            assert forall|i: int| 0 <= i < g0.len() implies ring.contains(
                (#[trigger] g0[i]).coeff,
            ) by {
                assert(g0[i] == g[i]);
            }
        }
        lemma_cross_empty(ring, g0, s);
        lemma_product_zero(ring, g.last().coeff);
        ring.lemma_sum_zero(ring.zero_value());
    }
}

/// The weight of an expansion is its cross sum.
pub proof fn lemma_expansion_cross<R: Ring>(
    ring: &R,
    f: Seq<TermValue<R::Value>>,
    g: Seq<TermValue<R::Value>>,
    s: spec_fn(Seq<u64>) -> bool,
)
    requires
        ring.wf(),
        covers(ring, f),
        covers(ring, g),
    ensures
        weight(ring, expansion(ring, f, g), s) == cross(ring, f, g, s),
    decreases f.len(),
{
    if f.len() == 0 {
        assert(f =~= Seq::<TermValue<R::Value>>::empty());
        lemma_cross_empty(ring, g, s);
    } else {
        let f0 = f.drop_last();
        let t = f.last();
        assert(covers(ring, f0)) by {
            assert forall|i: int| 0 <= i < f0.len() implies ring.contains(
                (#[trigger] f0[i]).coeff,
            ) by {
                assert(f0[i] == f[i]);
            }
        }
        lemma_expansion_cross(ring, f0, g, s);
        lemma_expansion_admits(ring, 0, f0, g);
        lemma_scaled_admits(ring, 0, t, g);
        lemma_weight_concat(ring, expansion(ring, f0, g), scaled(ring, t, g), s);
        assert(f =~= f0.push(t));
        lemma_cross_push(ring, f0, t, g, s);
    }
}

/// The cross sum does not tell apart first lists with the same weights.
pub proof fn lemma_cross_same<R: Ring>(
    ring: &R,
    a: Seq<TermValue<R::Value>>,
    b: Seq<TermValue<R::Value>>,
    g: Seq<TermValue<R::Value>>,
    s: spec_fn(Seq<u64>) -> bool,
)
    requires
        same_weights(ring, a, b),
    ensures
        cross(ring, a, g, s) == cross(ring, b, g, s),
    decreases g.len(),
{
    if g.len() > 0 {
        lemma_cross_same(ring, a, b, g.drop_last(), s);
        assert(weight(ring, a, before(s, g.last().exponents)) == weight(
            ring,
            b,
            before(s, g.last().exponents),
        ));
    }
}

/// The expansion does not tell apart first lists of the same polynomial.
pub proof fn lemma_expansion_left<R: Ring>(
    ring: &R,
    a: Seq<TermValue<R::Value>>,
    b: Seq<TermValue<R::Value>>,
    g: Seq<TermValue<R::Value>>,
)
    requires
        ring.wf(),
        covers(ring, a),
        covers(ring, b),
        covers(ring, g),
        same_polynomial(ring, a, b),
    ensures
        same_weights(ring, expansion(ring, a, g), expansion(ring, b, g)),
{
    lemma_same_weights(ring, a, b);
    assert forall|s: spec_fn(Seq<u64>) -> bool| weight(ring, expansion(ring, a, g), s) == weight(
        ring,
        expansion(ring, b, g),
        s,
    ) by {
        lemma_expansion_cross(ring, a, g, s);
        lemma_expansion_cross(ring, b, g, s);
        lemma_cross_same(ring, a, b, g, s);
    }
}

/// Expanding against a concatenation gives the weights of the two expansions
/// put together.
pub proof fn lemma_expansion_split<R: Ring>(
    ring: &R,
    f: Seq<TermValue<R::Value>>,
    a: Seq<TermValue<R::Value>>,
    b: Seq<TermValue<R::Value>>,
)
    requires
        ring.wf(),
        covers(ring, f),
        covers(ring, a),
        covers(ring, b),
    ensures
        same_weights(
            ring,
            expansion(ring, f, a + b),
            expansion(ring, f, a) + expansion(ring, f, b),
        ),
    decreases f.len(),
{
    if f.len() == 0 {
        assert(expansion(ring, f, a) + expansion(ring, f, b) =~= expansion(ring, f, a + b));
    } else {
        let f0 = f.drop_last();
        let t = f.last();
        assert(covers(ring, f0)) by {
            assert forall|i: int| 0 <= i < f0.len() implies ring.contains(
                (#[trigger] f0[i]).coeff,
            ) by {
                assert(f0[i] == f[i]);
            }
        }
        assert(covers(ring, a + b)) by {
            assert forall|i: int| 0 <= i < (a + b).len() implies ring.contains(
                (#[trigger] (a + b)[i]).coeff,
            ) by {
                if i < a.len() {
                    assert((a + b)[i] == a[i]);
                } else {
                    assert((a + b)[i] == b[i - a.len()]);
                }
            }
        }
        lemma_expansion_split(ring, f0, a, b);
        lemma_scaled_concat(ring, t, a, b);
        lemma_expansion_admits(ring, 0, f0, a);
        lemma_expansion_admits(ring, 0, f0, b);
        lemma_expansion_admits(ring, 0, f0, a + b);
        lemma_expansion_admits(ring, 0, f, a);
        lemma_expansion_admits(ring, 0, f, b);
        lemma_scaled_admits(ring, 0, t, a);
        lemma_scaled_admits(ring, 0, t, b);
        lemma_scaled_admits(ring, 0, t, a + b);
        let xa = expansion(ring, f0, a);
        let xb = expansion(ring, f0, b);
        let sa = scaled(ring, t, a);
        let sb = scaled(ring, t, b);
        assert forall|s: spec_fn(Seq<u64>) -> bool| weight(ring, expansion(ring, f, a + b), s)
            == weight(ring, expansion(ring, f, a) + expansion(ring, f, b), s) by {
            lemma_weight_concat(ring, expansion(ring, f0, a + b), sa + sb, s);
            assert(weight(ring, expansion(ring, f0, a + b), s) == weight(ring, xa + xb, s));
            lemma_weight_concat(ring, xa, xb, s);
            lemma_weight_concat(ring, sa, sb, s);
            lemma_weight_concat(ring, expansion(ring, f, a), expansion(ring, f, b), s);
            lemma_weight_concat(ring, xa, sa, s);
            lemma_weight_concat(ring, xb, sb, s);
            lemma_weight_member(ring, xa, s);
            lemma_weight_member(ring, xb, s);
            lemma_weight_member(ring, sa, s);
            lemma_weight_member(ring, sb, s);
            lemma_sum_interchange(
                ring,
                weight(ring, xa, s),
                weight(ring, xb, s),
                weight(ring, sa, s),
                weight(ring, sb, s),
            );
        }
    }
}

/// Scaling by a product of terms is scaling twice.
pub proof fn lemma_scaled_twice<R: Ring>(
    ring: &R,
    n: nat,
    t: TermValue<R::Value>,
    u: TermValue<R::Value>,
    h: Seq<TermValue<R::Value>>,
)
    requires
        ring.wf(),
        ring.contains(t.coeff),
        ring.contains(u.coeff),
        covers(ring, h),
        t.exponents.len() == n,
        u.exponents.len() == n,
        uniform(n, h),
    ensures
        scaled(ring, term_product(ring, t, u), h) == scaled(ring, t, scaled(ring, u, h)),
{
    let a = scaled(ring, term_product(ring, t, u), h);
    let b = scaled(ring, t, scaled(ring, u, h));
    assert forall|k: int| 0 <= k < a.len() implies a[k] == b[k] by {
        lemma_times_associative(t.exponents, u.exponents, h[k].exponents);
        ring.lemma_product_associative(t.coeff, u.coeff, h[k].coeff);
    }
    assert(a =~= b);
}

/// Scaling an expansion is expanding the scaled first list.
pub proof fn lemma_scaled_expansion<R: Ring>(
    ring: &R,
    n: nat,
    t: TermValue<R::Value>,
    g: Seq<TermValue<R::Value>>,
    h: Seq<TermValue<R::Value>>,
)
    requires
        ring.wf(),
        ring.contains(t.coeff),
        covers(ring, g),
        covers(ring, h),
        t.exponents.len() == n,
        uniform(n, g),
        uniform(n, h),
    ensures
        expansion(ring, scaled(ring, t, g), h) == scaled(ring, t, expansion(ring, g, h)),
    decreases g.len(),
{
    if g.len() == 0 {
        assert(scaled(ring, t, g) =~= Seq::<TermValue<R::Value>>::empty());
        assert(scaled(ring, t, expansion(ring, g, h)) =~= Seq::<TermValue<R::Value>>::empty());
    } else {
        let g0 = g.drop_last();
        let u = g.last();
        assert(covers(ring, g0) && uniform(n, g0)) by {
            assert forall|i: int| 0 <= i < g0.len() implies ring.contains(
                (#[trigger] g0[i]).coeff,
            ) && g0[i].exponents.len() == n by {
                assert(g0[i] == g[i]);
            }
        }
        lemma_scaled_expansion(ring, n, t, g0, h);
        assert(scaled(ring, t, g) =~= scaled(ring, t, g0).push(term_product(ring, t, u)));
        lemma_expansion_push(ring, scaled(ring, t, g0), term_product(ring, t, u), h);
        lemma_scaled_twice(ring, n, t, u, h);
        lemma_scaled_concat(ring, t, expansion(ring, g0, h), scaled(ring, u, h));
    }
}

/// Expansions can be nested either way: the two give the same list.
pub proof fn lemma_expansion_associative<R: Ring>(
    ring: &R,
    n: nat,
    f: Seq<TermValue<R::Value>>,
    g: Seq<TermValue<R::Value>>,
    h: Seq<TermValue<R::Value>>,
)
    requires
        ring.wf(),
        covers(ring, f),
        covers(ring, g),
        covers(ring, h),
        uniform(n, f),
        uniform(n, g),
        uniform(n, h),
    ensures
        expansion(ring, expansion(ring, f, g), h) == expansion(ring, f, expansion(ring, g, h)),
    decreases f.len(),
{
    if f.len() > 0 {
        let f0 = f.drop_last();
        let t = f.last();
        assert(covers(ring, f0) && uniform(n, f0)) by {
            assert forall|i: int| 0 <= i < f0.len() implies ring.contains(
                (#[trigger] f0[i]).coeff,
            ) && f0[i].exponents.len() == n by {
                assert(f0[i] == f[i]);
            }
        }
        lemma_expansion_associative(ring, n, f0, g, h);
        lemma_expansion_concat(ring, expansion(ring, f0, g), scaled(ring, t, g), h);
        lemma_scaled_expansion(ring, n, t, g, h);
    }
}

/// Over a commutative ring the two expansions of two lists have the same
/// weights.
pub proof fn lemma_expansion_commutative<R: Ring>(
    ring: &R,
    n: nat,
    f: Seq<TermValue<R::Value>>,
    g: Seq<TermValue<R::Value>>,
)
    requires
        ring.wf(),
        is_commutative(ring),
        covers(ring, f),
        covers(ring, g),
        uniform(n, f),
        uniform(n, g),
    ensures
        same_weights(ring, expansion(ring, f, g), expansion(ring, g, f)),
{
    assert forall|s: spec_fn(Seq<u64>) -> bool| weight(ring, expansion(ring, f, g), s) == weight(
        ring,
        expansion(ring, g, f),
        s,
    ) by {
        lemma_expansion_cross(ring, f, g, s);
        lemma_cross_commutative(ring, n, f, g, s);
    }
}

proof fn lemma_cross_commutative<R: Ring>(
    ring: &R,
    n: nat,
    f: Seq<TermValue<R::Value>>,
    g: Seq<TermValue<R::Value>>,
    s: spec_fn(Seq<u64>) -> bool,
)
    requires
        ring.wf(),
        is_commutative(ring),
        covers(ring, f),
        covers(ring, g),
        uniform(n, f),
        uniform(n, g),
    ensures
        cross(ring, f, g, s) == weight(ring, expansion(ring, g, f), s),
    decreases g.len(),
{
    if g.len() > 0 {
        let g0 = g.drop_last();
        let u = g.last();
        assert(covers(ring, g0) && uniform(n, g0)) by {
            assert forall|i: int| 0 <= i < g0.len() implies ring.contains(
                (#[trigger] g0[i]).coeff,
            ) && g0[i].exponents.len() == n by {
                assert(g0[i] == g[i]);
            }
        }
        lemma_cross_commutative(ring, n, f, g0, s);
        lemma_expansion_admits(ring, 0, g0, f);
        lemma_scaled_admits(ring, 0, u, f);
        lemma_weight_concat(ring, expansion(ring, g0, f), scaled(ring, u, f), s);
        lemma_scaled_weight(ring, u, f, s);
        assert forall|i: int| 0 <= i < f.len() implies before(s, u.exponents)(
            (#[trigger] f[i]).exponents,
        ) == after(s, u.exponents)(f[i].exponents) by {
            lemma_times_commutative(f[i].exponents, u.exponents);
        }
        lemma_weight_agree(ring, f, before(s, u.exponents), after(s, u.exponents));
        lemma_weight_member(ring, f, after(s, u.exponents));
        assert(ring.product(weight(ring, f, after(s, u.exponents)), u.coeff) == ring.product(
            u.coeff,
            weight(ring, f, after(s, u.exponents)),
        ));
    }
}

/// Negating the terms of a list keeps it over the ring and negates its
/// weights.
pub proof fn lemma_negated<R: Ring>(
    ring: &R,
    f: Seq<TermValue<R::Value>>,
    s: spec_fn(Seq<u64>) -> bool,
)
    requires
        ring.wf(),
        covers(ring, f),
    ensures
        covers(ring, negated(ring, f)),
        ring.sum(weight(ring, f, s), weight(ring, negated(ring, f), s)) == ring.zero_value(),
    decreases f.len(),
{
    ring.lemma_identities();
    let out = negated(ring, f);
    assert forall|i: int| 0 <= i < out.len() implies ring.contains((#[trigger] out[i]).coeff) by {
        ring.lemma_closed(f[i].coeff, f[i].coeff);
    }
    if f.len() == 0 {
        ring.lemma_sum_zero(ring.zero_value());
    } else {
        let f0 = f.drop_last();
        let t = f.last();
        assert(covers(ring, f0)) by {
            assert forall|i: int| 0 <= i < f0.len() implies ring.contains(
                (#[trigger] f0[i]).coeff,
            ) by {
                assert(f0[i] == f[i]);
            }
        }
        lemma_negated(ring, f0, s);
        assert(out.drop_last() =~= negated(ring, f0));
        lemma_weight_member(ring, f0, s);
        lemma_weight_member(ring, negated(ring, f0), s);
        if s(t.exponents) {
            ring.lemma_closed(t.coeff, t.coeff);
            ring.lemma_sum_negation(t.coeff);
            lemma_sum_interchange(
                ring,
                weight(ring, f0, s),
                t.coeff,
                weight(ring, negated(ring, f0), s),
                ring.negation(t.coeff),
            );
            ring.lemma_sum_zero(ring.zero_value());
        }
    }
}

} // verus!
