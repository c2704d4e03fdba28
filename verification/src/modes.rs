use crate::error::EnmError;
use crate::model::AnisotropicNetworkModel;
use crate::ordering::rank;
use crate::sorting::{
    comes_before, is_ascending_order, lemma_sorted_indices_ascend, sort_indices, sorted_indices,
};
use crate::symmetry::FloatMatrix;
use vstd::prelude::*;

verus! {

/// Number of rigid-body modes of a free network: three translations and
/// three rotations. They are the lowest modes and are dropped by position.
pub const RIGID_BODY_MODES: usize = 6;

/// The square root of an eigenvalue of a mass-weighted Hessian times this
/// factor is a frequency in reciprocal centimetres. The factor is 1302.79,
/// counted in hundredths.
pub const FREQUENCY_FACTOR: u64 = 130_279;

/// What a symmetric eigen-decomposition of a matrix of `order()` rows hands
/// over. Every number is the bit pattern of an IEEE 754 binary64 value.
pub struct Decomposition {
    /// The eigenvalues, in the order in which the solver found them.
    pub eigenvalues: Vec<u64>,
    /// The eigenvectors, one after the other: the components of the
    /// eigenvector of `eigenvalues[k]` start at `k * order()`.
    pub eigenvectors: Vec<u64>,
    /// The frequency that each eigenvalue stands for: its square root times
    /// `FREQUENCY_FACTOR` hundredths, `frequencies[k]` being that of
    /// `eigenvalues[k]`. Read with mass weighting only.
    pub frequencies: Vec<u64>,
}

impl Decomposition {
    /// Number of eigenvalues.
    pub open spec fn order(&self) -> nat {
        self.eigenvalues@.len()
    }

    /// There is one whole eigenvector for each eigenvalue.
    pub open spec fn is_complete(&self) -> bool {
        self.eigenvectors@.len() == self.order() * self.order()
    }

    /// There is one frequency for each eigenvalue.
    pub open spec fn has_frequencies(&self) -> bool {
        self.frequencies@.len() == self.order()
    }

    /// What the mode of `eigenvalues[index]` carries as its value: the
    /// frequency with mass weighting, the eigenvalue itself without.
    pub open spec fn mode_value(&self, mass_weighted: bool, index: int) -> u64 {
        if mass_weighted {
            self.frequencies@[index]
        } else {
            self.eigenvalues@[index]
        }
    }

    /// The eigenvector of `eigenvalues[index]`.
    pub open spec fn column(&self, index: int) -> Seq<u64> {
        self.eigenvectors@.subrange(index * self.order(), index * self.order() + self.order())
    }

    /// Tells whether there is one whole eigenvector for each eigenvalue.
    pub fn complete(&self) -> (whole: bool)
        ensures
            whole == self.is_complete(),
    {
        let n: usize = self.eigenvalues.len();
        assert(n * n <= u128::MAX) by (nonlinear_arith)
            requires
                0 <= n <= 0xFFFF_FFFF_FFFF_FFFF,
        ;
        (n as u128) * (n as u128) == self.eigenvectors.len() as u128
    }

    /// A copy of the eigenvector of `eigenvalues[index]`.
    pub fn copy_column(&self, index: usize) -> (vector: Vec<u64>)
        requires
            self.is_complete(),
            index < self.order(),
        ensures
            vector@ == self.column(index as int),
    {
        let n: usize = self.eigenvalues.len();
        assert(0 <= index * n && index * n + n <= n * n) by (nonlinear_arith)
            requires
                0 <= index < n,
        ;
        let total: usize = self.eigenvectors.len();
        assert(index * n + n <= total);
        let start: usize = index * n;
        let mut vector: Vec<u64> = Vec::new();
        let mut t: usize = 0;
        while t < n
            invariant
                n == self.order(),
                start == index * n,
                start + n <= total == self.eigenvectors@.len(),
                t <= n,
                vector@ == self.eigenvectors@.subrange(start as int, start + t),
            decreases n - t,
        {
            vector.push(self.eigenvectors[start + t]);
            proof {
                assert(vector@ =~= self.eigenvectors@.subrange(start as int, start + t + 1));
            }
            t += 1;
        }
        vector
    }
}

/// Number of modes that are left of `order` once the rigid-body modes are
/// dropped.
pub open spec fn retained_count(order: nat) -> nat {
    if order >= RIGID_BODY_MODES {
        (order - RIGID_BODY_MODES) as nat
    } else {
        0
    }
}

/// Where the `k`-th retained mode stands in the decomposition: it is the
/// `k + 6`-th in ascending order of eigenvalue.
pub open spec fn retained_index(d: Decomposition, k: int) -> int {
    sorted_indices(d.eigenvalues@)[k + RIGID_BODY_MODES] as int
}

/// `modes` are the modes of `d` in ascending order of eigenvalue, without
/// the six lowest: each the value of a mode with the eigenvector of the
/// same eigenvalue. With mass weighting the value is the frequency of the
/// eigenvalue, without it the eigenvalue itself.
pub open spec fn are_retained_modes(
    mass_weighted: bool,
    d: Decomposition,
    modes: Seq<(u64, Vec<u64>)>,
) -> bool {
    &&& modes.len() == retained_count(d.order())
    &&& forall|k: int|
        0 <= k < modes.len() ==> (#[trigger] modes[k]).0 == d.mode_value(
            mass_weighted,
            retained_index(d, k),
        ) && modes[k].1@ == d.column(retained_index(d, k))
}

/// `decomposition` is there, and it is a whole decomposition of a symmetric
/// `hessian`: one eigenvalue and one whole eigenvector for each row and,
/// with mass weighting, one frequency for each eigenvalue.
pub open spec fn is_decomposition_of(
    mass_weighted: bool,
    hessian: FloatMatrix,
    decomposition: Option<Decomposition>,
) -> bool {
    &&& hessian.is_symmetric()
    &&& decomposition matches Some(d) && d.is_complete() && d.order() == hessian.order && (
    mass_weighted ==> d.has_frequencies())
}

/// A network of `atoms` atoms, three or more, has `3 * atoms - 6` modes
/// that are retained.
pub proof fn lemma_mode_count(atoms: nat)
    requires
        atoms >= 3,
    ensures
        retained_count(3 * atoms) == 3 * atoms - 6,
{
}

/// The retained modes come in ascending order of eigenvalue; without mass
/// weighting, where the eigenvalue is the value of the mode, in ascending
/// order of value.
pub proof fn lemma_retained_modes_ascend(
    mass_weighted: bool,
    d: Decomposition,
    modes: Seq<(u64, Vec<u64>)>,
    k1: int,
    k2: int,
)
    requires
        are_retained_modes(mass_weighted, d, modes),
        d.order() <= usize::MAX,
        0 <= k1 <= k2 < modes.len(),
    ensures
        rank(d.eigenvalues@[retained_index(d, k1)]) <= rank(d.eigenvalues@[retained_index(d, k2)]),
        !mass_weighted ==> rank(modes[k1].0) <= rank(modes[k2].0),
{
    lemma_sorted_indices_ascend(d.eigenvalues@);
    let order = sorted_indices(d.eigenvalues@);
    if k1 < k2 {
        assert(comes_before(
            d.eigenvalues@,
            order[k1 + RIGID_BODY_MODES] as int,
            order[k2 + RIGID_BODY_MODES] as int,
        ));
    }
}

/// A decomposition has one sequence of retained modes only: the same
/// values with the same eigenvectors, however often they are taken.
pub proof fn lemma_retained_modes_determined(
    mass_weighted: bool,
    d: Decomposition,
    first: Seq<(u64, Vec<u64>)>,
    second: Seq<(u64, Vec<u64>)>,
    k: int,
)
    requires
        are_retained_modes(mass_weighted, d, first),
        are_retained_modes(mass_weighted, d, second),
        0 <= k < first.len(),
    ensures
        first.len() == second.len(),
        first[k].0 == second[k].0,
        first[k].1@ == second[k].1@,
{
}

impl AnisotropicNetworkModel {
    /// The factor that turns the square root of an eigenvalue into its
    /// frequency, in hundredths: with mass weighting the frequencies of a
    /// decomposition are read, and they are to be filled in with this
    /// factor; without it none is read.
    pub fn frequency_factor(&self) -> (factor: Option<u64>)
        ensures
            factor == if self.mass_weighted {
                Some(FREQUENCY_FACTOR)
            } else {
                None
            },
    {
        if self.mass_weighted {
            Some(FREQUENCY_FACTOR)
        } else {
            None
        }
    }

    /// The normal modes of a network from its Hessian and the
    /// eigen-decomposition of it: the modes in ascending order of
    /// eigenvalue, without the six lowest. NaN ranks above every number, and
    /// equal eigenvalues keep the order in which they came.
    ///
    /// Each mode is a value with the eigenvector of its eigenvalue. Without
    /// mass weighting the value is the eigenvalue as it was handed in. With
    /// mass weighting it is the frequency handed in for that eigenvalue,
    /// for every retained mode alike; the frequencies of the six dropped
    /// modes are not read.
    ///
    /// Fails with `DecompositionError` where the Hessian is not symmetric,
    /// where there is no decomposition, where the decomposition does not
    /// hold one whole eigenvector for each row of the Hessian, and, with
    /// mass weighting, where it does not hold one frequency for each
    /// eigenvalue.
    pub fn calculate_normal_modes(
        &self,
        hessian: FloatMatrix,
        decomposition: Option<Decomposition>,
    ) -> (result: Result<Vec<(u64, Vec<u64>)>, EnmError>)
        ensures
            match result {
                Ok(modes) => {
                    &&& is_decomposition_of(self.mass_weighted, hessian, decomposition)
                    &&& decomposition matches Some(d) && are_retained_modes(
                        self.mass_weighted,
                        d,
                        modes@,
                    ) && is_ascending_order(d.eigenvalues@, sorted_indices(d.eigenvalues@))
                        && forall|k1: int, k2: int|
                        0 <= k1 <= k2 < modes@.len() ==> rank(
                            d.eigenvalues@[#[trigger] retained_index(d, k1)],
                        ) <= rank(d.eigenvalues@[#[trigger] retained_index(d, k2)])
                    &&& modes@.len() == retained_count(hessian.order as nat)
                    &&& !self.mass_weighted ==> forall|k1: int, k2: int|
                        0 <= k1 <= k2 < modes@.len() ==> rank(#[trigger] modes@[k1].0) <= rank(
                            #[trigger] modes@[k2].0,
                        )
                },
                Err(e) => e == EnmError::DecompositionError && !is_decomposition_of(
                    self.mass_weighted,
                    hessian,
                    decomposition,
                ),
            },
    {
        if !hessian.symmetric() {
            return Err(EnmError::DecompositionError);
        }
        let d = match decomposition {
            Some(d) => d,
            None => {
                return Err(EnmError::DecompositionError);
            },
        };
        if d.eigenvalues.len() != hessian.order || !d.complete() {
            return Err(EnmError::DecompositionError);
        }
        if self.mass_weighted && d.frequencies.len() != d.eigenvalues.len() {
            return Err(EnmError::DecompositionError);
        }
        let n: usize = d.eigenvalues.len();
        let order: Vec<usize> = sort_indices(&d.eigenvalues);
        let mut modes: Vec<(u64, Vec<u64>)> = Vec::new();
        let mut k: usize = RIGID_BODY_MODES;
        while k < n
            invariant
                n == d.order(),
                d.is_complete(),
                is_ascending_order(d.eigenvalues@, order@),
                order@ == sorted_indices(d.eigenvalues@),
                RIGID_BODY_MODES <= k,
                n >= RIGID_BODY_MODES ==> k <= n,
                n < RIGID_BODY_MODES ==> modes@.len() == 0,
                k <= n ==> modes@.len() == k - RIGID_BODY_MODES,
                self.mass_weighted ==> d.has_frequencies(),
                forall|t: int|
                    0 <= t < modes@.len() ==> (#[trigger] modes@[t]).0 == d.mode_value(
                        self.mass_weighted,
                        retained_index(d, t),
                    ) && modes@[t].1@ == d.column(retained_index(d, t)),
            decreases n - k,
        {
            let index: usize = order[k];
            let vector: Vec<u64> = d.copy_column(index);
            let value: u64 = if self.mass_weighted {
                d.frequencies[index]
            } else {
                d.eigenvalues[index]
            };
            modes.push((value, vector));
            k += 1;
        }
        proof {
            assert forall|k1: int, k2: int| 0 <= k1 <= k2 < modes@.len() implies rank(
                d.eigenvalues@[#[trigger] retained_index(d, k1)],
            ) <= rank(d.eigenvalues@[#[trigger] retained_index(d, k2)]) by {
                if k1 < k2 {
                    assert(comes_before(
                        d.eigenvalues@,
                        order@[k1 + RIGID_BODY_MODES] as int,
                        order@[k2 + RIGID_BODY_MODES] as int,
                    ));
                }
            }
            if !self.mass_weighted {
                assert forall|k1: int, k2: int| 0 <= k1 <= k2 < modes@.len() implies rank(
                    #[trigger] modes@[k1].0,
                ) <= rank(#[trigger] modes@[k2].0) by {
                    assert(rank(d.eigenvalues@[retained_index(d, k1)]) <= rank(
                        d.eigenvalues@[retained_index(d, k2)],
                    ));
                }
            }
        }
        Ok(modes)
    }
}

} // verus!
