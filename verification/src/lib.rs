//! Numerical methods over an abstract scalar, with contracts that pin every
//! result down.
//!
//! The centre of the library computes eigenvalues of a dense real matrix:
//! a pivoted LU factorisation with its solve ([`lu`]), the power method
//! ([`power_method`]), the shifted inverse power method
//! ([`inverse_power_method`]), and the reduction to Hessenberg form with the
//! shifted QR algorithm ([`qr_algorithm`]). Around it stand solvers for
//! linear systems behind small access traits ([`matrix`], [`lu_decomposition`],
//! [`qr_decomposition`], [`iterative_methods`]), root finding
//! ([`localize_root`], [`newton_method`], [`newton_method_n`]) and
//! interpolation ([`polynomial`], [`points`], [`spline`]).
//!
//! Every algorithm is generic over a scalar type that implements
//! [`scalar::Numerical`]. No law of algebra is asked of the arithmetic, so
//! the contracts hold for rounded arithmetic as they stand: they name the
//! result as the value of a specification function that performs the same
//! operations in the same order. What follows from the structure of an
//! algorithm alone is proved on top of that: that the pivots of a
//! factorisation form a permutation and its factors are triangular, that a
//! reduced column is zero below the subdiagonal, that the eigenvalues come
//! out in ascending order, and when an iteration reports that it has not
//! converged.
//!
//! What an algorithm is for is proved where the arithmetic is known to be
//! exact. Under the laws of exact arithmetic the factors multiply to the
//! matrix and `solve` returns the solution of the system ([`lu_product`],
//! [`lu_solution`]). For diagonal matrices the factorisation, the two
//! power methods and the QR algorithm are followed to their results
//! ([`diagonal`], [`diagonal_inverse`], [`diagonal_qr`]), under premises
//! that say which values the arithmetic has to treat as exact arithmetic
//! does.

pub mod scalar;
pub mod function;
pub mod layout;
pub mod vector;

pub mod lu;
pub mod lu_product;
pub mod lu_solution;
pub mod power_method;
pub mod diagonal;
pub mod inverse_power_method;
pub mod diagonal_inverse;
pub mod qr_algorithm;
pub mod diagonal_qr;
pub mod rand_matrix;

pub mod representation;
pub mod matrix;
pub mod lu_decomposition;
pub mod qr_decomposition;
pub mod iterative_methods;

pub mod interval;
pub mod localize_root;
pub mod newton_method;
pub mod newton_method_n;

pub mod polynomial;
pub mod points;
pub mod spline;
