//! Polynomial rings and their elements.
//!
//! A [`PolynomialRing`] is made once, from the names of its variables and a
//! base ring, and is the context for every polynomial over it.  Term data
//! from a caller comes in as [`Unreduced`]; what the ring hands out is a
//! [`Polynomial`], whose terms are always in canonical form.

use crate::algebra::{
    law_closed, law_difference, law_distributive_left, law_distributive_right,
    law_negation_canonical,
    law_product_associative, law_product_one, law_reduce_keeps_reduced, law_sum_associative,
    law_sum_commutative, law_sum_negation, law_sum_zero, lemma_concat_admits, poly_difference,
    poly_negation, poly_one, poly_product, poly_sum, poly_zero, unit_term,
};
use crate::expansion::{
    expansion, lemma_expansion_admits, lemma_expansion_push, lemma_negated, lemma_scaled_admits,
    negated, scaled,
};
use crate::monomial::{lemma_precedes_transitive, precedes, Monomial, Place};
use crate::ring::{ring_equal, Ring};
use crate::terms::{
    absorbed, canonical, coeff, covers, distinct, exactly, lemma_absorbed, lemma_coeff_absent,
    lemma_coeff_distinct, lemma_normal_form_unique, lemma_ordered_distinct, lemma_weight_concat,
    lemma_weight_member, lemma_weight_push, lemma_weights_polynomial, normal_form, ordered,
    same_weights, splits_at, uniform, weight, zero_free, TermValue,
};
use crate::text::{monomial_text, names_of, polynomial_text, render_monomial, term_text, terms_text};
use vstd::prelude::*;
use vstd::string::*;

verus! {

/// A monomial with its coefficient.
#[derive(Clone, Debug)]
pub struct Term<E> {
    pub monomial: Monomial,
    pub coeff: E,
}

impl<E> Term<E> {
    /// The term `coeff * monomial`.
    pub fn new(monomial: Monomial, coeff: E) -> (t: Self)
        ensures
            t.monomial == monomial,
            t.coeff == coeff,
    {
        Term { monomial, coeff }
    }
}

/// What a term denotes, its coefficient read in the ring `R`.
pub open spec fn term_value<R: Ring>(t: Term<R::Elem>) -> TermValue<R::Value> {
    TermValue { exponents: t.monomial@, coeff: R::value(&t.coeff) }
}

/// What a list of terms denotes, term by term.
pub open spec fn terms_value<R: Ring>(ts: Seq<Term<R::Elem>>) -> Seq<TermValue<R::Value>> {
    Seq::new(ts.len(), |i: int| term_value::<R>(ts[i]))
}

/// Term data as a caller wrote it down: a monomial may occur more than once
/// and a coefficient may be zero.
#[derive(Clone, Debug)]
pub struct Unreduced<E> {
    pub terms: Vec<Term<E>>,
}

impl<E> Unreduced<E> {
    /// The polynomial written down by `terms`.
    pub fn new(terms: Vec<Term<E>>) -> (raw: Self)
        ensures
            raw.terms == terms,
    {
        Unreduced { terms }
    }
}

/// A polynomial in canonical form: its terms ascend in the term order, so no
/// monomial occurs twice, and no coefficient is zero.  Only a polynomial ring
/// makes one.
#[derive(Clone, Debug)]
pub struct Polynomial<E> {
    raw: Unreduced<E>,
}

impl<E> Polynomial<E> {
    /// The terms, in the term order.
    pub closed spec fn entries(&self) -> Seq<Term<E>> {
        self.raw.terms@
    }

    /// The number of terms.
    pub fn len(&self) -> (n: usize)
        ensures
            n == self.entries().len(),
    {
        self.raw.terms.len()
    }

    /// The term at position `i` of the term order.
    pub fn term(&self, i: usize) -> (t: &Term<E>)
        requires
            i < self.entries().len(),
        ensures
            *t == self.entries()[i as int],
    {
        &self.raw.terms[i]
    }

    /// The terms as plain term data, in the term order.
    pub fn as_unreduced(&self) -> (raw: &Unreduced<E>)
        ensures
            raw.terms@ == self.entries(),
    {
        &self.raw
    }

    /// The terms as plain term data, in the term order.
    pub fn into_unreduced(self) -> (raw: Unreduced<E>)
        ensures
            raw.terms@ == self.entries(),
    {
        self.raw
    }
}

/// Why term data could not be taken as a polynomial as it stands: a monomial
/// occurs twice or a coefficient is zero.  The data comes back in `terms`.
#[derive(Clone, Debug)]
pub struct NotReduced<E> {
    pub terms: Unreduced<E>,
}

/// The ring of polynomials in the variables `vars` with coefficients in the
/// ring `base`.
pub struct PolynomialRing<'a, R: Ring> {
    vars: Vec<String>,
    base: &'a R,
}

/// Lists with the same weights keep the same weights when one term is put at
/// the end of both.
proof fn lemma_push_same_weights<R: Ring>(
    ring: &R,
    a: Seq<TermValue<R::Value>>,
    b: Seq<TermValue<R::Value>>,
    t: TermValue<R::Value>,
)
    requires
        ring.wf(),
        covers(ring, a),
        covers(ring, b),
        ring.contains(t.coeff),
        same_weights(ring, a, b),
    ensures
        same_weights(ring, a.push(t), b.push(t)),
{
    assert forall|s: spec_fn(Seq<u64>) -> bool| weight(ring, a.push(t), s) == weight(
        ring,
        b.push(t),
        s,
    ) by {
        lemma_weight_push(ring, a, t, s);
        lemma_weight_push(ring, b, t, s);
        assert(weight(ring, a, s) == weight(ring, b, s));
    }
}

/// Takes the term `coeff * monomial` into the ordered list `acc`: added to the
/// term with that monomial, if there is one, and put in at its place
/// otherwise.
fn absorb<R: Ring>(base: &R, acc: &mut Vec<Term<R::Elem>>, monomial: Monomial, coeff: R::Elem)
    requires
        base.wf(),
        ordered(terms_value::<R>(old(acc)@)),
        covers(base, terms_value::<R>(old(acc)@)),
        base.contains(R::value(&coeff)),
    ensures
        ordered(terms_value::<R>(final(acc)@)),
        covers(base, terms_value::<R>(final(acc)@)),
        same_weights(
            base,
            terms_value::<R>(final(acc)@),
            terms_value::<R>(old(acc)@).push(
                TermValue { exponents: monomial@, coeff: R::value(&coeff) },
            ),
        ),
        forall|n: nat|
            uniform(n, terms_value::<R>(old(acc)@)) && monomial@.len() == n ==> #[trigger] uniform(
                n,
                terms_value::<R>(final(acc)@),
            ),
{
    let ghost before = terms_value::<R>(acc@);
    let ghost t = TermValue { exponents: monomial@, coeff: R::value(&coeff) };
    let mut k: usize = acc.len();
    let mut hit = false;
    while k > 0
        invariant
            acc@ == old(acc)@,
            before == terms_value::<R>(acc@),
            ordered(before),
            k <= acc.len(),
            forall|i: int|
                k <= i < acc.len() ==> !precedes((#[trigger] before[i]).exponents, monomial@),
            hit ==> k < acc.len() && before[k as int].exponents == monomial@,
            !hit ==> forall|i: int|
                k <= i < acc.len() ==> (#[trigger] before[i]).exponents != monomial@,
        ensures
            k <= acc.len(),
            forall|i: int|
                k <= i < acc.len() ==> !precedes((#[trigger] before[i]).exponents, monomial@),
            k > 0 ==> precedes(before[k - 1].exponents, monomial@),
            hit ==> k < acc.len() && before[k as int].exponents == monomial@,
            !hit ==> forall|i: int|
                k <= i < acc.len() ==> (#[trigger] before[i]).exponents != monomial@,
        decreases k,
    {
        let p = acc[k - 1].monomial.place(&monomial);
        assert(before[k - 1].exponents == acc@[k - 1].monomial@);
        match p {
            Place::Before => {
                break ;
            },
            Place::Same => {
                proof {
                    crate::monomial::lemma_precedes_irreflexive(monomial@);
                    assert forall|i: int| k <= i < acc.len() implies (
                    #[trigger] before[i]).exponents != monomial@ by {
                        assert(precedes(before[k - 1].exponents, before[i].exponents));
                    }
                }
                hit = true;
            },
            Place::After => {
                proof {
                    crate::monomial::lemma_precedes_asymmetric(monomial@, before[k - 1].exponents);
                }
                assert(!hit) by {
                    if hit {
                        assert(precedes(before[k - 1].exponents, before[k as int].exponents));
                        crate::monomial::lemma_precedes_asymmetric(
                            monomial@,
                            before[k - 1].exponents,
                        );
                    }
                }
            },
        }
        k = k - 1;
    }
    proof {
        assert forall|i: int| 0 <= i < k implies precedes(
            (#[trigger] before[i]).exponents,
            monomial@,
        ) by {
            if i < k - 1 {
                assert(precedes(before[i].exponents, before[k - 1].exponents));
                lemma_precedes_transitive(
                    before[i].exponents,
                    before[k - 1].exponents,
                    monomial@,
                );
            }
        }
        assert(splits_at(before, monomial@, k as int));
        lemma_absorbed(base, before, k as int, t);
    }
    if hit {
        let c = base.add(&acc[k].coeff, &coeff);
        acc.set(k, Term { monomial, coeff: c });
    } else {
        acc.insert(k, Term { monomial, coeff });
    }
    proof {
        let after = terms_value::<R>(acc@);
        assert(after =~= absorbed(base, before, k as int, t));
        assert forall|n: nat| uniform(n, before) && monomial@.len() == n implies #[trigger] uniform(
            n,
            terms_value::<R>(acc@),
        ) by {
            assert forall|i: int| 0 <= i < after.len() implies (
            #[trigger] after[i]).exponents.len() == n by {
                if hit {
                    if i != k {
                        assert(after[i] == before[i]);
                    }
                } else {
                    if i < k {
                        assert(after[i] == before[i]);
                    } else if i > k {
                        assert(after[i] == before[i - 1]);
                    }
                }
            }
        }
    }
}

/// Takes the ordered list `acc` and drops its terms with a zero coefficient.
fn settle<R: Ring>(base: &R, acc: Vec<Term<R::Elem>>) -> (out: Vec<Term<R::Elem>>)
    requires
        base.wf(),
        ordered(terms_value::<R>(acc@)),
        covers(base, terms_value::<R>(acc@)),
    ensures
        canonical(base, terms_value::<R>(out@)),
        covers(base, terms_value::<R>(out@)),
        same_weights(base, terms_value::<R>(out@), terms_value::<R>(acc@)),
        forall|n: nat|
            uniform(n, terms_value::<R>(acc@)) ==> #[trigger] uniform(n, terms_value::<R>(out@)),
{
    let ghost start = terms_value::<R>(acc@);
    let mut out = acc;
    let mut i: usize = out.len();
    while i > 0
        invariant
            base.wf(),
            i <= out.len(),
            ordered(terms_value::<R>(out@)),
            covers(base, terms_value::<R>(out@)),
            same_weights(base, terms_value::<R>(out@), start),
            forall|j: int|
                i <= j < out.len() ==> (#[trigger] terms_value::<R>(out@)[j]).coeff
                    != base.zero_value(),
            forall|n: nat| uniform(n, start) ==> #[trigger] uniform(n, terms_value::<R>(out@)),
        decreases i,
    {
        i = i - 1;
        let ghost prev = terms_value::<R>(out@);
        assert(prev[i as int] == term_value::<R>(out@[i as int]));
        if base.is_zero(&out[i].coeff) {
            out.remove(i);
            proof {
                let now = terms_value::<R>(out@);
                assert(now =~= prev.remove(i as int));
                assert(prev =~= now.insert(i as int, prev[i as int]));
                assert(ordered(now)) by {
                    assert forall|p: int, q: int| 0 <= p < q < now.len() implies precedes(
                        (#[trigger] now[p]).exponents,
                        (#[trigger] now[q]).exponents,
                    ) by {
                        let from_p = if p < i { p } else { p + 1 };
                        let from_q = if q < i { q } else { q + 1 };
                        assert(now[p] == prev[from_p] && now[q] == prev[from_q]);
                        assert(precedes(prev[from_p].exponents, prev[from_q].exponents));
                    }
                }
                assert(covers(base, now)) by {
                    assert forall|p: int| 0 <= p < now.len() implies base.contains(
                        (#[trigger] now[p]).coeff,
                    ) by {
                        let from_p = if p < i { p } else { p + 1 };
                        assert(now[p] == prev[from_p]);
                    }
                }
                assert forall|j: int| i <= j < out.len() implies (#[trigger] now[j]).coeff
                    != base.zero_value() by {
                    assert(now[j] == prev[j + 1]);
                }
                assert forall|s: spec_fn(Seq<u64>) -> bool| weight(base, now, s) == weight(
                    base,
                    start,
                    s,
                ) by {
                    crate::algebra::lemma_weight_insert(base, now, i as int, prev[i as int], s);
                    lemma_weight_member(base, now, s);
                    base.lemma_sum_zero(weight(base, now, s));
                    assert(weight(base, prev, s) == weight(base, start, s));
                }
                assert forall|n: nat| uniform(n, start) implies #[trigger] uniform(n, now) by {
                    assert(uniform(n, prev));
                    assert forall|p: int| 0 <= p < now.len() implies (
                    #[trigger] now[p]).exponents.len() == n by {
                        let from_p = if p < i { p } else { p + 1 };
                        assert(now[p] == prev[from_p]);
                    }
                }
            }
        }
    }
    out
}

/// Takes every term of `ts` into the ordered list `acc`, each with its
/// coefficient negated where `negate` is set.
fn gather<R: Ring>(base: &R, acc: &mut Vec<Term<R::Elem>>, ts: &Vec<Term<R::Elem>>, negate: bool)
    requires
        base.wf(),
        ordered(terms_value::<R>(old(acc)@)),
        covers(base, terms_value::<R>(old(acc)@)),
        covers(base, terms_value::<R>(ts@)),
    ensures
        ordered(terms_value::<R>(final(acc)@)),
        covers(base, terms_value::<R>(final(acc)@)),
        same_weights(
            base,
            terms_value::<R>(final(acc)@),
            terms_value::<R>(old(acc)@) + (if negate {
                negated(base, terms_value::<R>(ts@))
            } else {
                terms_value::<R>(ts@)
            }),
        ),
        forall|n: nat|
            uniform(n, terms_value::<R>(old(acc)@)) && uniform(n, terms_value::<R>(ts@))
                ==> #[trigger] uniform(n, terms_value::<R>(final(acc)@)),
{
    let ghost start = terms_value::<R>(acc@);
    let ghost more = if negate {
        negated(base, terms_value::<R>(ts@))
    } else {
        terms_value::<R>(ts@)
    };
    proof {
        lemma_negated(base, terms_value::<R>(ts@), exactly(seq![]));
        assert(start + more.take(0) =~= start);
    }
    let mut i: usize = 0;
    while i < ts.len()
        invariant
            base.wf(),
            i <= ts.len(),
            more.len() == ts.len(),
            more == if negate {
                negated(base, terms_value::<R>(ts@))
            } else {
                terms_value::<R>(ts@)
            },
            covers(base, terms_value::<R>(ts@)),
            covers(base, start),
            covers(base, more),
            ordered(terms_value::<R>(acc@)),
            covers(base, terms_value::<R>(acc@)),
            same_weights(base, terms_value::<R>(acc@), start + more.take(i as int)),
            forall|n: nat|
                uniform(n, start) && uniform(n, terms_value::<R>(ts@)) ==> #[trigger] uniform(
                    n,
                    terms_value::<R>(acc@),
                ),
        decreases ts.len() - i,
    {
        let t = &ts[i];
        let ghost prev = terms_value::<R>(acc@);
        let ghost sofar = start + more.take(i as int);
        assert(terms_value::<R>(ts@)[i as int] == term_value::<R>(*t));
        let c = if negate {
            base.neg(&t.coeff)
        } else {
            base.duplicate(&t.coeff)
        };
        let m = t.monomial.duplicate();
        let ghost tv = TermValue { exponents: m@, coeff: R::value(&c) };
        assert(tv == more[i as int]);
        absorb(base, acc, m, c);
        proof {
            assert(covers(base, sofar)) by {
                lemma_concat_admits(base, 0, start, more.take(i as int));
            }
            lemma_push_same_weights(base, prev, sofar, tv);
            assert(sofar.push(tv) =~= start + more.take(i + 1));
            let now = terms_value::<R>(acc@);
            assert forall|s: spec_fn(Seq<u64>) -> bool| weight(base, now, s) == weight(
                base,
                start + more.take(i + 1),
                s,
            ) by {
                assert(weight(base, now, s) == weight(base, prev.push(tv), s));
                assert(weight(base, prev.push(tv), s) == weight(base, sofar.push(tv), s));
            }
            assert forall|n: nat|
                uniform(n, start) && uniform(n, terms_value::<R>(ts@)) implies #[trigger] uniform(
                n,
                now,
            ) by {
                assert(uniform(n, prev));
                assert(terms_value::<R>(ts@)[i as int].exponents.len() == n);
            }
        }
        i = i + 1;
    }
    proof {
        assert(more.take(i as int) =~= more);
    }
}

impl<'a, R: Ring> PolynomialRing<'a, R> {
    /// The number of variables.
    pub closed spec fn count(&self) -> nat {
        self.vars@.len()
    }

    /// The ring of the coefficients.
    pub closed spec fn ground(&self) -> &R {
        self.base
    }

    /// The names of the variables.
    pub closed spec fn names(&self) -> Seq<Seq<char>> {
        names_of(self.vars@)
    }

    /// Whether term data can be read in this ring: every coefficient is a
    /// member of the base ring and every monomial has one exponent for each
    /// variable.
    pub open spec fn accepts(&self, ts: Seq<TermValue<R::Value>>) -> bool {
        covers(self.ground(), ts) && uniform(self.count(), ts)
    }

    /// The ring of polynomials in the variables `vars` over `base`.
    pub fn new(vars: Vec<String>, base: &'a R) -> (ring: Self)
        ensures
            ring.count() == vars@.len(),
            ring.names() == names_of(vars@),
            ring.ground() == base,
            base.wf() ==> ring.wf(),
    {
        PolynomialRing { vars, base }
    }

    /// The number of variables.
    pub fn arity(&self) -> (n: usize)
        ensures
            n == self.count(),
    {
        self.vars.len()
    }

    /// The ring of the coefficients.
    pub fn base(&self) -> (base: &'a R)
        ensures
            base == self.ground(),
    {
        self.base
    }

    /// The name of the variable at position `i`.
    pub fn variable(&self, i: usize) -> (name: &String)
        requires
            i < self.count(),
        ensures
            name@ == self.names()[i as int],
    {
        &self.vars[i]
    }

    /// Term data under this ring, as the caller wrote it down.
    pub fn from_terms(&self, terms: Vec<Term<R::Elem>>) -> (raw: Unreduced<R::Elem>)
        ensures
            raw.terms == terms,
    {
        Unreduced { terms }
    }

    /// Whether the term data can be read in this ring.
    pub fn check(&self, raw: &Unreduced<R::Elem>) -> (b: bool)
        requires
            self.wf(),
        ensures
            b == self.accepts(terms_value::<R>(raw.terms@)),
    {
        let ghost tv = terms_value::<R>(raw.terms@);
        let mut i: usize = 0;
        while i < raw.terms.len()
            invariant
                self.wf(),
                i <= raw.terms.len(),
                tv == terms_value::<R>(raw.terms@),
                forall|j: int|
                    0 <= j < i ==> self.ground().contains((#[trigger] tv[j]).coeff)
                        && tv[j].exponents.len() == self.count(),
            decreases raw.terms.len() - i,
        {
            let t = &raw.terms[i];
            assert(tv[i as int] == term_value::<R>(*t));
            if t.monomial.arity() != self.vars.len() || !self.base.is_member(&t.coeff) {
                return false;
            }
            i = i + 1;
        }
        true
    }

    /// The canonical form of the term data: terms with the same monomial are
    /// added up, and the terms whose coefficient comes out as zero are
    /// dropped.
    pub fn reduce(&self, raw: &Unreduced<R::Elem>) -> (p: Polynomial<R::Elem>)
        requires
            self.wf(),
            self.accepts(terms_value::<R>(raw.terms@)),
        ensures
            self.contains(Self::value(&p)),
            Self::value(&p) == normal_form(self.ground(), terms_value::<R>(raw.terms@)),
    {
        let ghost tv = terms_value::<R>(raw.terms@);
        let mut acc: Vec<Term<R::Elem>> = Vec::new();
        assert(terms_value::<R>(acc@) =~= Seq::empty());
        gather(self.base, &mut acc, &raw.terms, false);
        let ghost mid = terms_value::<R>(acc@);
        assert(terms_value::<R>(Seq::<Term<R::Elem>>::empty()) + tv =~= tv);
        let out = settle(self.base, acc);
        proof {
            let v = terms_value::<R>(out@);
            assert(uniform(self.count(), mid));
            assert(uniform(self.count(), v));
            assert forall|s: spec_fn(Seq<u64>) -> bool| weight(self.base, v, s) == weight(
                self.base,
                tv,
                s,
            ) by {
                assert(weight(self.base, v, s) == weight(self.base, mid, s));
                assert(weight(self.base, mid, s) == weight(self.base, tv, s));
            }
            lemma_weights_polynomial(self.base, v, tv);
            lemma_normal_form_unique(self.base, v, tv);
        }
        Polynomial { raw: Unreduced { terms: out } }
    }

    /// Takes the term data as a polynomial if it is in reduced form already:
    /// no monomial twice, no coefficient zero.  Otherwise the data comes back
    /// as it was.
    pub fn try_as_reduced(&self, raw: Unreduced<R::Elem>) -> (r: Result<
        Polynomial<R::Elem>,
        NotReduced<R::Elem>,
    >)
        requires
            self.wf(),
            self.accepts(terms_value::<R>(raw.terms@)),
        ensures
            r is Ok <==> distinct(terms_value::<R>(raw.terms@)) && zero_free(
                self.ground(),
                terms_value::<R>(raw.terms@),
            ),
            r matches Ok(p) ==> self.contains(Self::value(&p)) && Self::value(&p) == normal_form(
                self.ground(),
                terms_value::<R>(raw.terms@),
            ) && Self::value(&p).to_multiset() == terms_value::<R>(raw.terms@).to_multiset(),
            r matches Err(e) ==> e.terms == raw,
    {
        let ghost tv = terms_value::<R>(raw.terms@);
        let mut i: usize = 0;
        while i < raw.terms.len()
            invariant
                self.wf(),
                i <= raw.terms.len(),
                tv == terms_value::<R>(raw.terms@),
                self.accepts(tv),
                forall|p: int, q: int|
                    0 <= p < q < i ==> (#[trigger] tv[p]).exponents != (
                    #[trigger] tv[q]).exponents,
                forall|p: int|
                    0 <= p < i ==> (#[trigger] tv[p]).coeff != self.ground().zero_value(),
            decreases raw.terms.len() - i,
        {
            assert(tv[i as int] == term_value::<R>(raw.terms@[i as int]));
            if self.base.is_zero(&raw.terms[i].coeff) {
                return Err(NotReduced { terms: raw });
            }
            let mut j: usize = 0;
            while j < i
                invariant
                    j <= i,
                    i < raw.terms.len(),
                    tv == terms_value::<R>(raw.terms@),
                    forall|p: int|
                        0 <= p < j ==> (#[trigger] tv[p]).exponents != tv[i as int].exponents,
                decreases i - j,
            {
                assert(tv[j as int] == term_value::<R>(raw.terms@[j as int]));
                assert(tv[i as int] == term_value::<R>(raw.terms@[i as int]));
                let p = raw.terms[j].monomial.place(&raw.terms[i].monomial);
                if p == Place::Same {
                    return Err(NotReduced { terms: raw });
                }
                j = j + 1;
            }
            i = i + 1;
        }
        proof {
            law_reduce_keeps_reduced(self.base, tv);
        }
        Ok(self.reduce(&raw))
    }

    /// The sum of two polynomials, each given as term data in any form.
    pub fn add_terms(&self, a: &Unreduced<R::Elem>, b: &Unreduced<R::Elem>) -> (r: Polynomial<
        R::Elem,
    >)
        requires
            self.wf(),
            self.accepts(terms_value::<R>(a.terms@)),
            self.accepts(terms_value::<R>(b.terms@)),
        ensures
            self.contains(Self::value(&r)),
            Self::value(&r) == poly_sum(
                self.ground(),
                terms_value::<R>(a.terms@),
                terms_value::<R>(b.terms@),
            ),
    {
        let ghost av = terms_value::<R>(a.terms@);
        let ghost bv = terms_value::<R>(b.terms@);
        let mut acc: Vec<Term<R::Elem>> = Vec::new();
        assert(terms_value::<R>(acc@) =~= Seq::empty());
        gather(self.base, &mut acc, &a.terms, false);
        let ghost first = terms_value::<R>(acc@);
        gather(self.base, &mut acc, &b.terms, false);
        let ghost mid = terms_value::<R>(acc@);
        let out = settle(self.base, acc);
        proof {
            let v = terms_value::<R>(out@);
            assert(Seq::<TermValue<R::Value>>::empty() + av =~= av);
            assert(uniform(self.count(), first));
            assert(uniform(self.count(), mid));
            assert(uniform(self.count(), v));
            lemma_concat_admits(self.base, self.count(), av, bv);
            assert forall|s: spec_fn(Seq<u64>) -> bool| weight(self.base, v, s) == weight(
                self.base,
                av + bv,
                s,
            ) by {
                assert(weight(self.base, v, s) == weight(self.base, mid, s));
                assert(weight(self.base, mid, s) == weight(self.base, first + bv, s));
                assert(weight(self.base, first, s) == weight(self.base, av, s));
                lemma_weight_concat(self.base, first, bv, s);
                lemma_weight_concat(self.base, av, bv, s);
            }
            lemma_weights_polynomial(self.base, v, av + bv);
            lemma_normal_form_unique(self.base, v, av + bv);
        }
        Polynomial { raw: Unreduced { terms: out } }
    }

    /// The negative of a polynomial given as term data in any form.
    pub fn neg_terms(&self, a: &Unreduced<R::Elem>) -> (r: Polynomial<R::Elem>)
        requires
            self.wf(),
            self.accepts(terms_value::<R>(a.terms@)),
        ensures
            self.contains(Self::value(&r)),
            Self::value(&r) == poly_negation(self.ground(), terms_value::<R>(a.terms@)),
    {
        let ghost av = terms_value::<R>(a.terms@);
        let ghost na = negated(self.ground(), av);
        let mut acc: Vec<Term<R::Elem>> = Vec::new();
        assert(terms_value::<R>(acc@) =~= Seq::empty());
        gather(self.base, &mut acc, &a.terms, true);
        let ghost mid = terms_value::<R>(acc@);
        let out = settle(self.base, acc);
        proof {
            let v = terms_value::<R>(out@);
            assert(Seq::<TermValue<R::Value>>::empty() + na =~= na);
            lemma_negated(self.base, av, exactly(seq![]));
            assert(uniform(self.count(), mid));
            assert(uniform(self.count(), v));
            assert forall|s: spec_fn(Seq<u64>) -> bool| weight(self.base, v, s) == weight(
                self.base,
                na,
                s,
            ) by {
                assert(weight(self.base, v, s) == weight(self.base, mid, s));
                assert(weight(self.base, mid, s) == weight(self.base, na, s));
            }
            lemma_weights_polynomial(self.base, v, na);
            lemma_normal_form_unique(self.base, v, na);
        }
        Polynomial { raw: Unreduced { terms: out } }
    }

    /// The difference of two polynomials, each given as term data in any
    /// form: the coefficients of the second are negated and the terms added
    /// to those of the first.
    pub fn sub_terms(&self, a: &Unreduced<R::Elem>, b: &Unreduced<R::Elem>) -> (r: Polynomial<
        R::Elem,
    >)
        requires
            self.wf(),
            self.accepts(terms_value::<R>(a.terms@)),
            self.accepts(terms_value::<R>(b.terms@)),
        ensures
            self.contains(Self::value(&r)),
            Self::value(&r) == poly_difference(
                self.ground(),
                terms_value::<R>(a.terms@),
                terms_value::<R>(b.terms@),
            ),
    {
        let ghost av = terms_value::<R>(a.terms@);
        let ghost bv = terms_value::<R>(b.terms@);
        let ghost nb = negated(self.ground(), bv);
        let mut acc: Vec<Term<R::Elem>> = Vec::new();
        assert(terms_value::<R>(acc@) =~= Seq::empty());
        gather(self.base, &mut acc, &a.terms, false);
        let ghost first = terms_value::<R>(acc@);
        gather(self.base, &mut acc, &b.terms, true);
        let ghost mid = terms_value::<R>(acc@);
        let out = settle(self.base, acc);
        proof {
            let v = terms_value::<R>(out@);
            assert(Seq::<TermValue<R::Value>>::empty() + av =~= av);
            assert(uniform(self.count(), first));
            assert(uniform(self.count(), mid));
            assert(uniform(self.count(), v));
            lemma_negated(self.base, bv, exactly(seq![]));
            lemma_concat_admits(self.base, self.count(), av, nb);
            assert forall|s: spec_fn(Seq<u64>) -> bool| weight(self.base, v, s) == weight(
                self.base,
                av + nb,
                s,
            ) by {
                assert(weight(self.base, v, s) == weight(self.base, mid, s));
                assert(weight(self.base, mid, s) == weight(self.base, first + nb, s));
                assert(weight(self.base, first, s) == weight(self.base, av, s));
                lemma_weight_concat(self.base, first, nb, s);
                lemma_weight_concat(self.base, av, nb, s);
            }
            lemma_weights_polynomial(self.base, v, av + nb);
            lemma_normal_form_unique(self.base, v, av + nb);
        }
        Polynomial { raw: Unreduced { terms: out } }
    }

    /// The product of two polynomials, each given as term data in any form:
    /// every term of the first is multiplied with every term of the second,
    /// and the products are added up monomial by monomial.
    pub fn mul_terms(&self, a: &Unreduced<R::Elem>, b: &Unreduced<R::Elem>) -> (r: Polynomial<
        R::Elem,
    >)
        requires
            self.wf(),
            self.accepts(terms_value::<R>(a.terms@)),
            self.accepts(terms_value::<R>(b.terms@)),
        ensures
            self.contains(Self::value(&r)),
            Self::value(&r) == poly_product(
                self.ground(),
                terms_value::<R>(a.terms@),
                terms_value::<R>(b.terms@),
            ),
    {
        let ghost av = terms_value::<R>(a.terms@);
        let ghost bv = terms_value::<R>(b.terms@);
        let ghost n = self.count();
        let mut acc: Vec<Term<R::Elem>> = Vec::new();
        proof {
            assert(terms_value::<R>(acc@) =~= Seq::empty());
            assert(av.take(0) =~= Seq::empty());
            assert(terms_value::<R>(acc@) =~= expansion(self.ground(), av.take(0), bv));
        }
        let mut i: usize = 0;
        while i < a.terms.len()
            invariant
                self.wf(),
                i <= a.terms.len(),
                n == self.count(),
                av == terms_value::<R>(a.terms@),
                bv == terms_value::<R>(b.terms@),
                self.accepts(av),
                self.accepts(bv),
                ordered(terms_value::<R>(acc@)),
                covers(self.ground(), terms_value::<R>(acc@)),
                uniform(n, terms_value::<R>(acc@)),
                same_weights(
                    self.ground(),
                    terms_value::<R>(acc@),
                    expansion(self.ground(), av.take(i as int), bv),
                ),
            decreases a.terms.len() - i,
        {
            let t = &a.terms[i];
            let ghost tv = av[i as int];
            assert(tv == term_value::<R>(*t));
            let ghost done = expansion(self.ground(), av.take(i as int), bv);
            let ghost row = scaled(self.ground(), tv, bv);
            proof {
                assert(covers(self.ground(), av.take(i as int)));
                lemma_expansion_admits(self.base, n, av.take(i as int), bv);
                lemma_scaled_admits(self.base, n, tv, bv);
                assert(done + row.take(0) =~= done);
            }
            let mut j: usize = 0;
            while j < b.terms.len()
                invariant
                    self.wf(),
                    i < a.terms.len(),
                    j <= b.terms.len(),
                    n == self.count(),
                    av == terms_value::<R>(a.terms@),
                    bv == terms_value::<R>(b.terms@),
                    self.accepts(av),
                    self.accepts(bv),
                    tv == av[i as int],
                    tv == term_value::<R>(*t),
                    row == scaled(self.ground(), tv, bv),
                    covers(self.ground(), done),
                    covers(self.ground(), row),
                    ordered(terms_value::<R>(acc@)),
                    covers(self.ground(), terms_value::<R>(acc@)),
                    uniform(n, terms_value::<R>(acc@)),
                    same_weights(self.ground(), terms_value::<R>(acc@), done + row.take(j as int)),
                decreases b.terms.len() - j,
            {
                let u = &b.terms[j];
                let ghost uv = bv[j as int];
                assert(uv == term_value::<R>(*u));
                let m = t.monomial.product(&u.monomial);
                let c = self.base.mul(&t.coeff, &u.coeff);
                let ghost prev = terms_value::<R>(acc@);
                let ghost sofar = done + row.take(j as int);
                let ghost pv = TermValue { exponents: m@, coeff: R::value(&c) };
                assert(pv == row[j as int]);
                absorb(self.base, &mut acc, m, c);
                proof {
                    lemma_concat_admits(self.base, 0, done, row.take(j as int));
                    lemma_push_same_weights(self.base, prev, sofar, pv);
                    assert(sofar.push(pv) =~= done + row.take(j + 1));
                    let now = terms_value::<R>(acc@);
                    assert forall|s: spec_fn(Seq<u64>) -> bool| weight(self.base, now, s)
                        == weight(self.base, done + row.take(j + 1), s) by {
                        assert(weight(self.base, now, s) == weight(self.base, prev.push(pv), s));
                        assert(weight(self.base, prev.push(pv), s) == weight(
                            self.base,
                            sofar.push(pv),
                            s,
                        ));
                    }
                    assert(uniform(n, now));
                }
                j = j + 1;
            }
            proof {
                assert(row.take(j as int) =~= row);
                assert(av.take(i + 1) =~= av.take(i as int).push(tv));
                lemma_expansion_push(self.base, av.take(i as int), tv, bv);
            }
            i = i + 1;
        }
        let ghost mid = terms_value::<R>(acc@);
        let out = settle(self.base, acc);
        proof {
            let v = terms_value::<R>(out@);
            assert(av.take(i as int) =~= av);
            let full = expansion(self.ground(), av, bv);
            lemma_expansion_admits(self.base, n, av, bv);
            assert(uniform(n, v));
            assert forall|s: spec_fn(Seq<u64>) -> bool| weight(self.base, v, s) == weight(
                self.base,
                full,
                s,
            ) by {
                assert(weight(self.base, v, s) == weight(self.base, mid, s));
                assert(weight(self.base, mid, s) == weight(self.base, full, s));
            }
            lemma_weights_polynomial(self.base, v, full);
            lemma_normal_form_unique(self.base, v, full);
        }
        Polynomial { raw: Unreduced { terms: out } }
    }

    /// Writes the monomial `m` in the variables of this ring.
    pub fn render_monomial(&self, m: &Monomial) -> (s: String)
        requires
            m@.len() == self.count(),
        ensures
            s@ == monomial_text(self.names(), m@),
    {
        render_monomial(&self.vars, m)
    }

    /// The coefficient that the polynomial `p` gives to the monomial `m`:
    /// that of the term with this monomial, and zero where there is none.
    pub fn coefficient(&self, p: &Polynomial<R::Elem>, m: &Monomial) -> (c: R::Elem)
        requires
            self.wf(),
            self.contains(Self::value(p)),
        ensures
            R::value(&c) == coeff(self.ground(), Self::value(p), m@),
    {
        let ghost v = Self::value(p);
        proof {
            lemma_ordered_distinct(v);
        }
        let mut i: usize = 0;
        while i < p.raw.terms.len()
            invariant
                self.wf(),
                i <= p.raw.terms.len(),
                v == terms_value::<R>(p.raw.terms@),
                covers(self.ground(), v),
                distinct(v),
                forall|j: int| 0 <= j < i ==> (#[trigger] v[j]).exponents != m@,
            decreases p.raw.terms.len() - i,
        {
            let t = &p.raw.terms[i];
            assert(v[i as int] == term_value::<R>(*t));
            if t.monomial.place(m) == Place::Same {
                proof {
                    lemma_coeff_distinct(self.base, v, i as int);
                }
                return self.base.duplicate(&t.coeff);
            }
            i = i + 1;
        }
        proof {
            lemma_coeff_absent(self.base, v, m@);
        }
        self.base.zero()
    }

    /// Whether two polynomials of this ring are the same.
    pub fn same(&self, f: &Polynomial<R::Elem>, g: &Polynomial<R::Elem>) -> (b: bool)
        requires
            self.wf(),
            self.contains(Self::value(f)),
            self.contains(Self::value(g)),
        ensures
            b == (Self::value(f) == Self::value(g)),
    {
        let ghost fv = Self::value(f);
        let ghost gv = Self::value(g);
        if f.raw.terms.len() != g.raw.terms.len() {
            assert(fv.len() != gv.len());
            return false;
        }
        let mut i: usize = 0;
        while i < f.raw.terms.len()
            invariant
                self.wf(),
                i <= f.raw.terms.len(),
                f.raw.terms.len() == g.raw.terms.len(),
                fv == terms_value::<R>(f.raw.terms@),
                gv == terms_value::<R>(g.raw.terms@),
                covers(self.ground(), fv),
                covers(self.ground(), gv),
                forall|j: int| 0 <= j < i ==> fv[j] == gv[j],
            decreases f.raw.terms.len() - i,
        {
            let t = &f.raw.terms[i];
            let u = &g.raw.terms[i];
            assert(fv[i as int] == term_value::<R>(*t));
            assert(gv[i as int] == term_value::<R>(*u));
            let p = t.monomial.place(&u.monomial);
            if p != Place::Same {
                return false;
            }
            if !ring_equal(self.base, &t.coeff, &u.coeff) {
                return false;
            }
            i = i + 1;
        }
        assert(fv =~= gv);
        true
    }
}

impl<'a, R: Ring> Ring for PolynomialRing<'a, R> {
    type Elem = Polynomial<R::Elem>;

    type Value = Seq<TermValue<R::Value>>;

    open spec fn value(e: &Polynomial<R::Elem>) -> Seq<TermValue<R::Value>> {
        terms_value::<R>(e.entries())
    }

    open spec fn wf(&self) -> bool {
        self.ground().wf()
    }

    open spec fn contains(&self, v: Seq<TermValue<R::Value>>) -> bool {
        canonical(self.ground(), v) && self.accepts(v)
    }

    open spec fn zero_value(&self) -> Seq<TermValue<R::Value>> {
        poly_zero()
    }

    open spec fn one_value(&self) -> Seq<TermValue<R::Value>> {
        poly_one(self.ground(), self.count())
    }

    open spec fn sum(
        &self,
        a: Seq<TermValue<R::Value>>,
        b: Seq<TermValue<R::Value>>,
    ) -> Seq<TermValue<R::Value>> {
        poly_sum(self.ground(), a, b)
    }

    open spec fn negation(&self, a: Seq<TermValue<R::Value>>) -> Seq<TermValue<R::Value>> {
        poly_negation(self.ground(), a)
    }

    open spec fn product(
        &self,
        a: Seq<TermValue<R::Value>>,
        b: Seq<TermValue<R::Value>>,
    ) -> Seq<TermValue<R::Value>> {
        poly_product(self.ground(), a, b)
    }

    open spec fn text(&self, e: &Polynomial<R::Elem>) -> Seq<char> {
        polynomial_text(self.ground(), self.names(), e.entries())
    }

    proof fn lemma_identities(&self) {
        law_closed(self.ground(), self.count(), poly_zero(), poly_zero());
    }

    proof fn lemma_closed(&self, a: Seq<TermValue<R::Value>>, b: Seq<TermValue<R::Value>>) {
        law_closed(self.ground(), self.count(), a, b);
    }

    proof fn lemma_sum_commutative(
        &self,
        a: Seq<TermValue<R::Value>>,
        b: Seq<TermValue<R::Value>>,
    ) {
        law_sum_commutative(self.ground(), a, b);
    }

    proof fn lemma_sum_associative(
        &self,
        a: Seq<TermValue<R::Value>>,
        b: Seq<TermValue<R::Value>>,
        c: Seq<TermValue<R::Value>>,
    ) {
        law_sum_associative(self.ground(), a, b, c);
    }

    proof fn lemma_sum_zero(&self, a: Seq<TermValue<R::Value>>) {
        law_sum_zero(self.ground(), a);
    }

    proof fn lemma_sum_negation(&self, a: Seq<TermValue<R::Value>>) {
        law_sum_negation(self.ground(), a);
    }

    proof fn lemma_product_associative(
        &self,
        a: Seq<TermValue<R::Value>>,
        b: Seq<TermValue<R::Value>>,
        c: Seq<TermValue<R::Value>>,
    ) {
        law_product_associative(self.ground(), self.count(), a, b, c);
    }

    proof fn lemma_product_one(&self, a: Seq<TermValue<R::Value>>) {
        law_product_one(self.ground(), self.count(), a);
    }

    proof fn lemma_distributive(
        &self,
        a: Seq<TermValue<R::Value>>,
        b: Seq<TermValue<R::Value>>,
        c: Seq<TermValue<R::Value>>,
    ) {
        law_distributive_left(self.ground(), a, b, c);
        law_distributive_right(self.ground(), a, b, c);
    }

    fn is_member(&self, e: &Polynomial<R::Elem>) -> (b: bool) {
        let ghost v = Self::value(e);
        let mut i: usize = 0;
        while i < e.raw.terms.len()
            invariant
                self.wf(),
                i <= e.raw.terms.len(),
                v == terms_value::<R>(e.raw.terms@),
                ordered(v.take(i as int)),
                forall|j: int|
                    0 <= j < i ==> self.ground().contains((#[trigger] v[j]).coeff)
                        && v[j].exponents.len() == self.count() && v[j].coeff
                        != self.ground().zero_value(),
            decreases e.raw.terms.len() - i,
        {
            let t = &e.raw.terms[i];
            assert(v[i as int] == term_value::<R>(*t));
            if t.monomial.arity() != self.vars.len() || !self.base.is_member(&t.coeff) {
                return false;
            }
            if self.base.is_zero(&t.coeff) {
                return false;
            }
            if i > 0 {
                assert(v[i - 1] == term_value::<R>(e.raw.terms@[i - 1]));
                let p = e.raw.terms[i - 1].monomial.place(&t.monomial);
                if p != Place::Before {
                    return false;
                }
            }
            proof {
                let now = v.take(i + 1);
                let was = v.take(i as int);
                assert forall|p: int, q: int| 0 <= p < q < now.len() implies precedes(
                    (#[trigger] now[p]).exponents,
                    (#[trigger] now[q]).exponents,
                ) by {
                    if q < i {
                        assert(precedes(was[p].exponents, was[q].exponents));
                    } else if p < i - 1 {
                        assert(precedes(was[p].exponents, was[i - 1].exponents));
                        lemma_precedes_transitive(
                            v[p].exponents,
                            v[i - 1].exponents,
                            v[i as int].exponents,
                        );
                    }
                }
            }
            i = i + 1;
        }
        assert(v.take(i as int) =~= v);
        true
    }

    fn zero(&self) -> (r: Polynomial<R::Elem>)
        ensures
            self.contains(Self::value(&r)),
    {
        let r = Polynomial { raw: Unreduced { terms: Vec::new() } };
        assert(Self::value(&r) =~= poly_zero());
        r
    }

    fn one(&self) -> (r: Polynomial<R::Elem>)
        ensures
            self.contains(Self::value(&r)),
            self.ground().one_value() != self.ground().zero_value() ==> Self::value(&r)
                == seq![unit_term(self.ground(), self.count())],
    {
        let c = self.base.one();
        let mut terms: Vec<Term<R::Elem>> = Vec::new();
        proof {
            self.base.lemma_identities();
        }
        let ghost single = seq![unit_term(self.ground(), self.count())];
        if !self.base.is_zero(&c) {
            terms.push(Term { monomial: Monomial::unit(self.vars.len()), coeff: c });
            proof {
                assert(terms_value::<R>(terms@) =~= single);
                lemma_normal_form_unique(self.base, single, single);
            }
        } else {
            proof {
                let none = terms_value::<R>(terms@);
                assert(none =~= Seq::empty());
                assert forall|s: spec_fn(Seq<u64>) -> bool| weight(self.base, none, s) == weight(
                    self.base,
                    single,
                    s,
                ) by {
                    assert(single.drop_last() =~= none);
                    self.base.lemma_sum_zero(self.base.zero_value());
                }
                lemma_weights_polynomial(self.base, none, single);
                lemma_normal_form_unique(self.base, none, single);
            }
        }
        Polynomial { raw: Unreduced { terms } }
    }

    fn is_zero(&self, a: &Polynomial<R::Elem>) -> (b: bool) {
        let b = a.raw.terms.len() == 0;
        proof {
            assert(Self::value(a).len() == a.raw.terms@.len());
            if b {
                assert(Self::value(a) =~= poly_zero());
            }
        }
        b
    }

    fn is_one(&self, a: &Polynomial<R::Elem>) -> (b: bool) {
        let one = self.one();
        self.same(a, &one)
    }

    fn duplicate(&self, a: &Polynomial<R::Elem>) -> (r: Polynomial<R::Elem>) {
        let ghost v = Self::value(a);
        let mut terms: Vec<Term<R::Elem>> = Vec::new();
        let mut i: usize = 0;
        while i < a.raw.terms.len()
            invariant
                self.wf(),
                i <= a.raw.terms.len(),
                v == terms_value::<R>(a.raw.terms@),
                covers(self.ground(), v),
                terms.len() == i,
                terms_value::<R>(terms@) == v.take(i as int),
            decreases a.raw.terms.len() - i,
        {
            let t = &a.raw.terms[i];
            assert(v[i as int] == term_value::<R>(*t));
            let ghost prev = terms@;
            terms.push(
                Term { monomial: t.monomial.duplicate(), coeff: self.base.duplicate(&t.coeff) },
            );
            i = i + 1;
            proof {
                let now = terms_value::<R>(terms@);
                assert forall|j: int| 0 <= j < now.len() implies now[j] == v.take(i as int)[j] by {
                    if j < i - 1 {
                        assert(terms@[j] == prev[j]);
                        assert(terms_value::<R>(prev)[j] == v.take(i - 1)[j]);
                    }
                }
                assert(now =~= v.take(i as int));
            }
        }
        assert(v.take(i as int) =~= v);
        Polynomial { raw: Unreduced { terms } }
    }

    fn add(&self, a: &Polynomial<R::Elem>, b: &Polynomial<R::Elem>) -> (r: Polynomial<R::Elem>)
        ensures
            self.contains(Self::value(&r)),
    {
        self.add_terms(&a.raw, &b.raw)
    }

    fn neg(&self, a: &Polynomial<R::Elem>) -> (r: Polynomial<R::Elem>)
        ensures
            self.contains(Self::value(&r)),
            Self::value(&r) == negated(self.ground(), Self::value(a)),
    {
        let ghost v = Self::value(a);
        let mut terms: Vec<Term<R::Elem>> = Vec::new();
        let mut i: usize = 0;
        while i < a.raw.terms.len()
            invariant
                self.wf(),
                i <= a.raw.terms.len(),
                v == terms_value::<R>(a.raw.terms@),
                covers(self.ground(), v),
                terms.len() == i,
                terms_value::<R>(terms@) == negated(self.ground(), v).take(i as int),
            decreases a.raw.terms.len() - i,
        {
            let t = &a.raw.terms[i];
            assert(v[i as int] == term_value::<R>(*t));
            let ghost prev = terms@;
            terms.push(Term { monomial: t.monomial.duplicate(), coeff: self.base.neg(&t.coeff) });
            i = i + 1;
            proof {
                let now = terms_value::<R>(terms@);
                let goal = negated(self.ground(), v);
                assert forall|j: int| 0 <= j < now.len() implies now[j] == goal.take(
                    i as int,
                )[j] by {
                    if j < i - 1 {
                        assert(terms@[j] == prev[j]);
                        assert(terms_value::<R>(prev)[j] == goal.take(i - 1)[j]);
                    }
                }
                assert(now =~= goal.take(i as int));
            }
        }
        proof {
            assert(negated(self.ground(), v).take(i as int) =~= negated(self.ground(), v));
            law_negation_canonical(self.base, v);
            law_closed(self.base, self.count(), v, v);
        }
        Polynomial { raw: Unreduced { terms } }
    }

    fn sub(&self, a: &Polynomial<R::Elem>, b: &Polynomial<R::Elem>) -> (r: Polynomial<R::Elem>)
        ensures
            self.contains(Self::value(&r)),
            Self::value(&r) == poly_difference(self.ground(), Self::value(a), Self::value(b)),
    {
        proof {
            law_difference(self.base, Self::value(a), Self::value(b));
        }
        self.sub_terms(&a.raw, &b.raw)
    }

    fn mul(&self, a: &Polynomial<R::Elem>, b: &Polynomial<R::Elem>) -> (r: Polynomial<R::Elem>)
        ensures
            self.contains(Self::value(&r)),
    {
        self.mul_terms(&a.raw, &b.raw)
    }

    fn add_assign(&self, a: &mut Polynomial<R::Elem>, b: &Polynomial<R::Elem>)
        ensures
            self.contains(Self::value(final(a))),
    {
        let r = self.add(a, b);
        *a = r;
    }

    fn sub_assign(&self, a: &mut Polynomial<R::Elem>, b: &Polynomial<R::Elem>)
        ensures
            self.contains(Self::value(final(a))),
    {
        let r = self.sub(a, b);
        *a = r;
    }

    fn mul_assign(&self, a: &mut Polynomial<R::Elem>, b: &Polynomial<R::Elem>)
        ensures
            self.contains(Self::value(final(a))),
    {
        let r = self.mul(a, b);
        *a = r;
    }

    fn render(&self, a: &Polynomial<R::Elem>) -> (s: String) {
        let ghost v = Self::value(a);
        let ghost names = self.names();
        if a.raw.terms.len() == 0 {
            proof {
                reveal_strlit("0");
            }
            let zero = String::from_str("0");
            assert(zero@ =~= seq!['0']);
            return zero;
        }
        let mut s = String::new();
        let mut i: usize = 0;
        while i < a.raw.terms.len()
            invariant
                self.wf(),
                i <= a.raw.terms.len(),
                v == terms_value::<R>(a.raw.terms@),
                names == self.names(),
                self.accepts(v),
                s@ == terms_text(self.ground(), names, a.raw.terms@.take(i as int)),
            decreases a.raw.terms.len() - i,
        {
            let t = &a.raw.terms[i];
            let ghost tv = v[i as int];
            assert(tv == term_value::<R>(*t));
            let ghost so_far = s@;
            proof {
                reveal_strlit("+");
                reveal_strlit("*");
            }
            if !self.base.is_one(&t.coeff) {
                let c = self.base.render(&t.coeff);
                if i > 0 {
                    let signed = c.as_str().unicode_len() > 0 && c.as_str().get_char(0) == '-';
                    if !signed {
                        s.append("+");
                    }
                }
                s.append(c.as_str());
                s.append("*");
            } else if i > 0 {
                s.append("+");
            }
            let m = self.render_monomial(&t.monomial);
            s.append(m.as_str());
            proof {
                let now = a.raw.terms@.take(i + 1);
                assert(now.drop_last() =~= a.raw.terms@.take(i as int));
                assert(now.last() == *t);
                assert(s@ =~= so_far + term_text(self.ground(), names, *t, i == 0));
            }
            i = i + 1;
        }
        assert(a.raw.terms@.take(i as int) =~= a.raw.terms@);
        s
    }
}

} // verus!
