use vstd::prelude::*;

verus! {

/// Number of Cartesian components carried by each atom.
pub const AXES: usize = 3;

/// Coordinate and cutoff counts per length unit: lengths are counted in
/// thousandths.
pub const LENGTH_UNIT: u64 = 1_000;

/// Spring-constant counts per stiffness unit. Hessian entries are counted in
/// the same unit as `gamma`.
pub const STIFFNESS_UNIT: i64 = 1_000_000_000;

/// Mass counts per mass unit: masses are counted in millionths.
pub const MASS_UNIT: u64 = 1_000_000;

/// Mass assumed for every atom when no masses are given: 12.011 mass units,
/// the mass of a carbon atom.
pub const DEFAULT_MASS: u64 = 12_011_000;

/// Anisotropic Network Model: every pair of atoms closer than `cutoff` is
/// joined by a harmonic spring of constant `gamma`.
///
/// All quantities are fixed-point integers. Coordinates and `cutoff` share
/// one length unit, so only their ratio matters to the Hessian.
#[derive(Debug, Clone, Copy)]
pub struct AnisotropicNetworkModel {
    /// Distance below which two atoms are joined, in counts of `LENGTH_UNIT`.
    pub cutoff: u64,
    /// Spring constant, in counts of `STIFFNESS_UNIT`.
    pub gamma: i64,
    /// Whether each spring is divided by the geometric mean of the two masses.
    pub mass_weighted: bool,
}

impl Default for AnisotropicNetworkModel {
    /// A cutoff of 15 length units, a spring constant of 1 and no mass
    /// weighting.
    fn default() -> (model: Self)
        ensures
            model.cutoff == 15 * LENGTH_UNIT,
            model.gamma == STIFFNESS_UNIT,
            !model.mass_weighted,
    {
        AnisotropicNetworkModel { cutoff: 15 * LENGTH_UNIT, gamma: STIFFNESS_UNIT, mass_weighted: false }
    }
}

} // verus!
