//! Normal modes of an anisotropic elastic network, in exact integer
//! arithmetic.
//!
//! Every pair of atoms closer than a cutoff is joined by a harmonic spring.
//! `AnisotropicNetworkModel::build_hessian_matrix` assembles the Hessian of
//! that network, and `AnisotropicNetworkModel::calculate_normal_modes`
//! orders the outcome of a symmetric eigen-decomposition of it and drops
//! the six rigid-body modes.
//!
//! Lengths, spring constants and masses are fixed-point integers, counted
//! in the units of `model`; `quantize` counts a binary64 value in such a
//! unit. The Hessian is therefore symmetric, and each of its rows of blocks
//! sums to zero, exactly. The matrix that a floating-point solver takes,
//! the eigenvalues and eigenvectors that it hands over, and the frequencies
//! worked out from the eigenvalues pass through as binary64 bit patterns,
//! which `ordering` ranks by numeric value.
pub mod assembly;
mod dense;
pub mod error;
pub mod hessian;
pub mod model;
pub mod modes;
pub mod ordering;
mod progress;
pub mod quantize;
pub mod roots;
pub mod sorting;
pub mod spring;
pub mod symmetry;

pub use error::EnmError;
pub use hessian::Hessian;
pub use model::AnisotropicNetworkModel;
pub use modes::Decomposition;
pub use symmetry::FloatMatrix;
