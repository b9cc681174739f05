//! Multivariate polynomials over the Boolean ring (algebraic normal form):
//! square-free monomials over a shared variable space, three monomial
//! orderings, and polynomials kept as duplicate-free, ordered sums.
pub mod mon;
pub mod order;
pub mod poly;
pub mod ring;
pub mod sorted;
pub mod var;
