//! Fixed-size matrices whose shape is carried by dimension tag types, with the determinant,
//! cofactors and inverse computed by Laplace expansion.
pub mod matrix;
pub mod utils;
