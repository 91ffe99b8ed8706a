//! Sparse multivariate polynomials over an abstract coefficient ring.
//!
//! A ring context names what is allowed as a coefficient; a polynomial ring
//! built over a context is a context again, so rings of polynomials can be
//! stacked.  Every polynomial that an operation hands out is in canonical
//! form: its terms are ordered, no monomial occurs twice and no coefficient
//! is zero.
//!
//! - [`ring`]: what a coefficient ring has to offer, and the laws it obeys.
//! - [`monomial`]: power products, their divisibility and the term order.
//! - [`terms`]: term lists, the polynomial they denote, the canonical form.
//! - [`expansion`]: products and negatives of term lists.
//! - [`algebra`]: the operations on polynomials and the ring laws they obey.
//! - [`polynomial`]: polynomial rings and the polynomials they compute with.
//! - [`text`]: how monomials and polynomials are written out.
//! - [`integer`], [`rational`], [`word`]: numbers to use as coefficients.

pub mod algebra;
pub mod expansion;
pub mod integer;
pub mod monomial;
pub mod polynomial;
pub mod rational;
pub mod ring;
pub mod terms;
pub mod text;
pub mod word;
