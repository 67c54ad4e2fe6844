//! Implicitization of planar parametric Bezier curves through resultant
//! (Bezout-style) matrices, carried out in exact rational arithmetic.
//!
//! A Bezier curve given by a control polygon of homogeneous points is turned
//! into a square matrix of linear forms (`implicitize_bezier`); for curves of
//! even degree the structural rank excess of that matrix is removed
//! (`reduce_rank`); evaluating the full or reduced matrix at a query point
//! (`calc_deviation`) yields a scalar deviation that vanishes exactly on the
//! curve.

pub mod rational;
pub mod linear_form;
pub mod bezier_curve;
pub mod determinant;
pub mod bezier_implicitize;
pub mod bezout_matrix;

pub use rational::Rat;
pub use linear_form::LinearFormVector;
pub use bezier_curve::{factorial, binary_coef, bezier_curve};
pub use bezier_implicitize::{
    ResultantMatrix, ImplicitizeError, implicitize_bezier, reduce_rank, calc_deviation,
};
pub use bezout_matrix::gen_bezout_matrix;
