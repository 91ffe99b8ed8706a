//! How monomials and polynomials are written out.
//!
//! A monomial is the product of its variables with an exponent other than
//! zero, joined by `*`; an exponent of one is not written, and the monomial
//! without variables is `1`.  A polynomial is its terms in the term order; a
//! coefficient of one is not written, and every term after the first brings
//! its sign.  The polynomial without terms is `0`.

use crate::monomial::Monomial;
use crate::polynomial::Term;
use crate::ring::Ring;
use vstd::prelude::*;
use vstd::string::*;

verus! {

/// The character of a decimal digit.
pub open spec fn digit(d: nat) -> char {
    if d == 0 {
        '0'
    } else if d == 1 {
        '1'
    } else if d == 2 {
        '2'
    } else if d == 3 {
        '3'
    } else if d == 4 {
        '4'
    } else if d == 5 {
        '5'
    } else if d == 6 {
        '6'
    } else if d == 7 {
        '7'
    } else if d == 8 {
        '8'
    } else {
        '9'
    }
}

/// A natural number in decimal digits, without leading zeros.
pub open spec fn decimal(n: nat) -> Seq<char>
    decreases n,
{
    if n < 10 {
        seq![digit(n)]
    } else {
        decimal(n / 10).push(digit(n % 10))
    }
}

/// An integer in decimal digits, with `-` in front where it is negative.
pub open spec fn signed_decimal(v: int) -> Seq<char> {
    if v < 0 {
        seq!['-'] + decimal((-v) as nat)
    } else {
        decimal(v as nat)
    }
}

/// A variable with its exponent; the exponent one is not written.
pub open spec fn power_text(name: Seq<char>, e: u64) -> Seq<char> {
    if e == 1 {
        name
    } else {
        name + seq!['^'] + decimal(e as nat)
    }
}

/// The powers of the first `k` variables that have an exponent other than
/// zero, each written out.
pub open spec fn factors(names: Seq<Seq<char>>, m: Seq<u64>, k: int) -> Seq<Seq<char>>
    decreases k,
{
    if k <= 0 {
        Seq::empty()
    } else if m[k - 1] == 0 {
        factors(names, m, k - 1)
    } else {
        factors(names, m, k - 1).push(power_text(names[k - 1], m[k - 1]))
    }
}

/// The parts in a row, with `sep` between each two.
pub open spec fn joined(parts: Seq<Seq<char>>, sep: char) -> Seq<char>
    decreases parts.len(),
{
    if parts.len() == 0 {
        Seq::empty()
    } else if parts.len() == 1 {
        parts[0]
    } else {
        joined(parts.drop_last(), sep) + seq![sep] + parts.last()
    }
}

/// A monomial written out in the variables `names`.
pub open spec fn monomial_text(names: Seq<Seq<char>>, m: Seq<u64>) -> Seq<char> {
    let parts = factors(names, m, m.len() as int);
    if parts.len() == 0 {
        seq!['1']
    } else {
        joined(parts, '*')
    }
}

/// A coefficient written with its sign: as it is where it starts with `-`,
/// and with `+` in front otherwise.
pub open spec fn with_sign(c: Seq<char>) -> Seq<char> {
    if c.len() > 0 && c[0] == '-' {
        c
    } else {
        seq!['+'] + c
    }
}

/// One term written out.  A coefficient of one is left out; a term that is
/// not the first brings its sign.
pub open spec fn term_text<R: Ring>(
    base: &R,
    names: Seq<Seq<char>>,
    t: Term<R::Elem>,
    first: bool,
) -> Seq<char> {
    let m = monomial_text(names, t.monomial@);
    if R::value(&t.coeff) == base.one_value() {
        if first {
            m
        } else {
            seq!['+'] + m
        }
    } else if first {
        base.text(&t.coeff) + seq!['*'] + m
    } else {
        with_sign(base.text(&t.coeff)) + seq!['*'] + m
    }
}

/// The terms written out one after the other.
pub open spec fn terms_text<R: Ring>(
    base: &R,
    names: Seq<Seq<char>>,
    ts: Seq<Term<R::Elem>>,
) -> Seq<char>
    decreases ts.len(),
{
    if ts.len() == 0 {
        Seq::empty()
    } else {
        terms_text(base, names, ts.drop_last()) + term_text(
            base,
            names,
            ts.last(),
            ts.len() == 1,
        )
    }
}

/// A polynomial written out: `0` where it has no term.
pub open spec fn polynomial_text<R: Ring>(
    base: &R,
    names: Seq<Seq<char>>,
    ts: Seq<Term<R::Elem>>,
) -> Seq<char> {
    if ts.len() == 0 {
        seq!['0']
    } else {
        terms_text(base, names, ts)
    }
}

/// The names of variables, as text.
pub open spec fn names_of(vars: Seq<String>) -> Seq<Seq<char>> {
    Seq::new(vars.len(), |i: int| vars[i]@)
}

/// The digit `d` as a string.
fn digit_str(d: u64) -> (s: &'static str)
    requires
        d < 10,
    ensures
        s@ == seq![digit(d as nat)],
{
    proof {
        reveal_strlit("0");
        reveal_strlit("1");
        reveal_strlit("2");
        reveal_strlit("3");
        reveal_strlit("4");
        reveal_strlit("5");
        reveal_strlit("6");
        reveal_strlit("7");
        reveal_strlit("8");
        reveal_strlit("9");
    }
    let s = if d == 0 {
        "0"
    } else if d == 1 {
        "1"
    } else if d == 2 {
        "2"
    } else if d == 3 {
        "3"
    } else if d == 4 {
        "4"
    } else if d == 5 {
        "5"
    } else if d == 6 {
        "6"
    } else if d == 7 {
        "7"
    } else if d == 8 {
        "8"
    } else {
        "9"
    };
    assert(s@ =~= seq![digit(d as nat)]);
    s
}

/// Writes `n` in decimal digits.
pub fn render_decimal(n: u64) -> (s: String)
    ensures
        s@ == decimal(n as nat),
    decreases n,
{
    if n < 10 {
        String::from_str(digit_str(n))
    } else {
        let mut s = render_decimal(n / 10);
        s.append(digit_str(n % 10));
        assert(s@ =~= decimal(n as nat));
        s
    }
}

/// Writes the monomial `m` in the variables `vars`.
pub fn render_monomial(vars: &Vec<String>, m: &Monomial) -> (s: String)
    requires
        m@.len() == vars@.len(),
    ensures
        s@ == monomial_text(names_of(vars@), m@),
{
    let ghost names = names_of(vars@);
    let mut s = String::new();
    let mut written: usize = 0;
    let mut k: usize = 0;
    while k < m.arity()
        invariant
            k <= m@.len(),
            m@.len() == vars@.len(),
            names == names_of(vars@),
            written == factors(names, m@, k as int).len(),
            written <= k,
            s@ == joined(factors(names, m@, k as int), '*'),
        decreases m@.len() - k,
    {
        let p = m.power(k);
        let ghost parts = factors(names, m@, k as int);
        if p != 0 {
            proof {
                reveal_strlit("*");
                reveal_strlit("^");
            }
            if written > 0 {
                s.append("*");
            }
            s.append(vars[k].as_str());
            if p != 1 {
                s.append("^");
                let e = render_decimal(p);
                s.append(e.as_str());
            }
            written = written + 1;
            proof {
                let more = parts.push(power_text(names[k as int], p));
                assert(more.drop_last() =~= parts);
                assert(factors(names, m@, k + 1) == more);
                assert(s@ =~= joined(more, '*'));
            }
        }
        k = k + 1;
    }
    if written == 0 {
        proof {
            reveal_strlit("1");
        }
        let one = String::from_str("1");
        assert(one@ =~= seq!['1']);
        one
    } else {
        s
    }
}

} // verus!
