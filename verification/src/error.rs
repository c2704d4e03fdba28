use vstd::prelude::*;

verus! {

/// Why an operation of the elastic-network kernel was refused.
#[derive(Debug, Clone, Copy, PartialEq, Eq, Structural)]
pub enum EnmError {
    /// Fewer than two atoms were supplied, or the masses do not pair up with
    /// the coordinates one to one.
    InvalidInput,
    /// The eigen-decomposition handed over is missing or incomplete.
    DecompositionError,
}

} // verus!
