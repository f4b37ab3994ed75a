//! Polynomials as sequences of coefficients: evaluation in one and in several
//! variables, multiplication, the product of many polynomials, and the
//! Chebyshev polynomials.
//!
//! Coefficients and points are `i128`. All arithmetic is modulo 2^128, so every
//! operation is defined on every input; see [`modular`].

pub mod array_polynomial;
pub mod chebyshev_polynomial;
pub mod modular;
pub mod mul_polynomial;
pub mod polynomial;
pub mod polynomial_nd;
pub mod product_polynomial;

pub use array_polynomial::ArrayPolynomial;
pub use chebyshev_polynomial::ChebyshevPolynomial;
pub use mul_polynomial::MulPolynomial;
pub use polynomial::Polynomial;
pub use polynomial_nd::{sum_dims, CoefficientTensor, PolynomialNd};
pub use product_polynomial::{polynomial_product_length, Coefficients, ProductPolynomial};
