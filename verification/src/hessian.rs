use crate::assembly::{
    hessian_entry, is_translation, lemma_beyond_cutoff_excluded, lemma_hessian_entry_symmetric,
    lemma_hessian_entry_translated, lemma_hessian_row_sums_to_zero, lemma_total_pointwise,
    lemma_unlinked_mirrored, off_diagonal_entry, total,
};
use crate::dense::{in_square, matrix_cells, matrix_get, matrix_order, matrix_set, matrix_zeros, SquareMatrix};
use crate::error::EnmError;
use crate::model::AnisotropicNetworkModel;
use crate::progress::{
    agrees, lemma_entry_written, lemma_everything_written, lemma_nothing_written,
    lemma_partial_entry_bounded, lemma_same_stage, written, Progress,
};
use crate::spring::{
    element_bound, lemma_spring_element_bounded, mass_view, masses_usable, spring_element,
    squared_distance,
};
use vstd::prelude::*;

verus! {

/// The Hessian of a network of `atom_count()` atoms: a square matrix of
/// `3 * atom_count()` rows, one 3x3 block for each pair of atoms.
pub struct Hessian {
    atoms: usize,
    grid: SquareMatrix,
}

impl Hessian {
    #[verifier::type_invariant]
    spec fn well_formed(self) -> bool {
        matrix_order(self.grid) == 3 * self.atoms && 3 * self.atoms <= usize::MAX
    }

    /// Number of atoms of the network.
    pub closed spec fn atom_count(self) -> nat {
        self.atoms as nat
    }

    /// Entry `(row, col)`, in the unit of the spring constant.
    pub closed spec fn cell(self, row: int, col: int) -> int {
        matrix_cells(self.grid)[(row, col)]
    }

    /// The matrix is the Hessian of the network of `model` over `coords`
    /// with `masses`.
    pub open spec fn is_hessian_of(
        self,
        model: AnisotropicNetworkModel,
        coords: Seq<[i32; 3]>,
        masses: Option<Seq<u64>>,
    ) -> bool {
        &&& self.atom_count() == coords.len()
        &&& forall|row: int, col: int|
            0 <= row < 3 * coords.len() && 0 <= col < 3 * coords.len() ==> self.cell(row, col)
                == #[trigger] hessian_entry(model, coords, masses, row, col)
    }

    /// Entry `(a, b)` of block `(i, j)` where `j` is another atom than `i`,
    /// and zero in place of the diagonal block.
    pub open spec fn off_diagonal_cell(self, i: int, j: int, a: int, b: int) -> int {
        if j != i {
            self.cell(3 * i + a, 3 * j + b)
        } else {
            0
        }
    }

    /// Sum, over every atom `j` other than `i`, of entry `(a, b)` of block
    /// `(i, j)`.
    pub open spec fn off_diagonal_sum(self, i: int, a: int, b: int) -> int {
        total(|j: int| self.off_diagonal_cell(i, j, a, b), self.atom_count() as int)
    }

    /// Number of atoms of the network.
    pub fn atoms(&self) -> (n: usize)
        ensures
            n == self.atom_count(),
    {
        self.atoms
    }

    /// Number of rows, which is also the number of columns.
    pub fn dim(&self) -> (d: usize)
        ensures
            d == 3 * self.atom_count(),
    {
        proof {
            use_type_invariant(self);
        }
        3 * self.atoms
    }

    /// Entry `(row, col)`, or `None` outside the matrix.
    pub fn entry(&self, row: usize, col: usize) -> (value: Option<i128>)
        ensures
            match value {
                Some(v) => row < 3 * self.atom_count() && col < 3 * self.atom_count() && v
                    == self.cell(row as int, col as int),
                None => row >= 3 * self.atom_count() || col >= 3 * self.atom_count(),
            },
    {
        proof {
            use_type_invariant(self);
        }
        let d: usize = 3 * self.atoms;
        if row < d && col < d {
            Some(matrix_get(&self.grid, row, col))
        } else {
            None
        }
    }
}

/// The inputs that the builder accepts: at least two atoms, and one mass for
/// each atom where masses are given.
pub open spec fn inputs_accepted(coords: Seq<[i32; 3]>, masses: Option<Seq<u64>>) -> bool {
    coords.len() >= 2 && (masses matches Some(m) ==> m.len() == coords.len())
}

/// Writes entry `(a, b)` of the spring between atoms `i` and `j`: `v` into
/// both off-diagonal blocks, and off both diagonal blocks.
fn write_entry(grid: &mut SquareMatrix, i: usize, j: usize, a: usize, b: usize, v: i128)
    requires
        i != j,
        a < 3,
        b < 3,
        3 * i + 2 < matrix_order(*old(grid)) <= usize::MAX,
        3 * j + 2 < matrix_order(*old(grid)),
        i128::MIN <= matrix_cells(*old(grid))[(3 * i + a, 3 * i + b)] - v <= i128::MAX,
        i128::MIN <= matrix_cells(*old(grid))[(3 * j + a, 3 * j + b)] - v <= i128::MAX,
    ensures
        matrix_order(*final(grid)) == matrix_order(*old(grid)),
        written(
            matrix_cells(*old(grid)),
            matrix_cells(*final(grid)),
            matrix_order(*old(grid)) as int,
            i as int,
            j as int,
            a as int,
            b as int,
            v as int,
        ),
{
    let ia: usize = 3 * i + a;
    let ib: usize = 3 * i + b;
    let ja: usize = 3 * j + a;
    let jb: usize = 3 * j + b;
    matrix_set(grid, ia, jb, v);
    matrix_set(grid, ja, ib, v);
    let own: i128 = matrix_get(grid, ia, ib);
    matrix_set(grid, ia, ib, own - v);
    let other: i128 = matrix_get(grid, ja, jb);
    matrix_set(grid, ja, jb, other - v);
}

impl AnisotropicNetworkModel {
    /// Builds the Hessian of the network over `coords`.
    ///
    /// Every pair of atoms closer than the cutoff contributes the block
    /// `-(gamma / d2) * (r (x) r)`, `r` being the vector between the two and
    /// `d2` its squared length, to both off-diagonal blocks of the pair, and
    /// its negation to both diagonal blocks. With `mass_weighted` the block is
    /// first divided by the geometric mean of the two masses.
    ///
    /// Fails with `InvalidInput` on fewer than two atoms, and where `masses`
    /// are given but are not one for each atom.
    pub fn build_hessian_matrix(&self, coords: &[[i32; 3]], masses: Option<&[u64]>) -> (result:
        Result<Hessian, EnmError>)
        requires
            9 * coords@.len() * coords@.len() <= usize::MAX,
            masses_usable(self.mass_weighted, mass_view(masses)),
        ensures
            match result {
                Ok(hessian) => inputs_accepted(coords@, mass_view(masses)) && hessian.is_hessian_of(
                    *self,
                    coords@,
                    mass_view(masses),
                ),
                Err(e) => e == EnmError::InvalidInput && !inputs_accepted(
                    coords@,
                    mass_view(masses),
                ),
            },
    {
        let n: usize = coords.len();
        if n < 2 {
            return Err(EnmError::InvalidInput);
        }
        match masses {
            Some(m) => {
                if m.len() != n {
                    return Err(EnmError::InvalidInput);
                }
            },
            None => {},
        }
        let ghost weights = mass_view(masses);
        proof {
            assert(3 * n <= usize::MAX && (3 * n) * (3 * n) == 9 * n * n && n < 0x8000_0000)
                by (nonlinear_arith)
                requires
                    9 * n * n <= usize::MAX,
                    usize::MAX <= 0xFFFF_FFFF_FFFF_FFFF,
                    n >= 2,
            ;
        }
        let dim: usize = 3 * n;
        let mut grid = matrix_zeros(dim);
        proof {
            assert forall|row: int, col: int| 0 <= row < 3 * n && 0 <= col < 3 * n implies (
            #[trigger] matrix_cells(grid)[(row, col)]) == 0 by {
                assert(in_square(dim as nat, (row, col)));
            }
            lemma_nothing_written(matrix_cells(grid), *self, coords@, weights);
        }
        let mut i: usize = 0;
        while i < n
            invariant
                n == coords@.len(),
                2 <= n < 0x8000_0000,
                i <= n,
                weights == mass_view(masses),
                weights matches Some(m) ==> m.len() == n,
                masses_usable(self.mass_weighted, weights),
                matrix_order(grid) == 3 * n <= usize::MAX,
                agrees(matrix_cells(grid), *self, coords@, weights, Progress { i: i as int, j: 0, a: 0, b: 0 }),
            decreases n - i,
        {
            let mut j: usize = 0;
            while j < i
                invariant
                    n == coords@.len(),
                    2 <= n < 0x8000_0000,
                    j <= i < n,
                    weights == mass_view(masses),
                    weights matches Some(m) ==> m.len() == n,
                    masses_usable(self.mass_weighted, weights),
                    matrix_order(grid) == 3 * n <= usize::MAX,
                    agrees(
                        matrix_cells(grid),
                        *self,
                        coords@,
                        weights,
                        Progress { i: i as int, j: j as int, a: 0, b: 0 },
                    ),
                decreases i - j,
            {
                match self.find_link(coords, masses, i, j) {
                    Some(link) => {
                        let mut a: usize = 0;
                        while a < 3
                            invariant
                                n == coords@.len(),
                                2 <= n < 0x8000_0000,
                                j < i < n,
                                a <= 3,
                                weights == mass_view(masses),
                                weights matches Some(m) ==> m.len() == n,
                                masses_usable(self.mass_weighted, weights),
                                link.joins(*self, coords@, weights, i as int, j as int),
                                matrix_order(grid) == 3 * n <= usize::MAX,
                                agrees(
                                    matrix_cells(grid),
                                    *self,
                                    coords@,
                                    weights,
                                    Progress { i: i as int, j: j as int, a: a as int, b: 0 },
                                ),
                            decreases 3 - a,
                        {
                            let mut b: usize = 0;
                            while b < 3
                                invariant
                                    n == coords@.len(),
                                    2 <= n < 0x8000_0000,
                                    j < i < n,
                                    a < 3,
                                    b <= 3,
                                    weights == mass_view(masses),
                                    weights matches Some(m) ==> m.len() == n,
                                    masses_usable(self.mass_weighted, weights),
                                    link.joins(*self, coords@, weights, i as int, j as int),
                                    matrix_order(grid) == 3 * n <= usize::MAX,
                                    agrees(
                                        matrix_cells(grid),
                                        *self,
                                        coords@,
                                        weights,
                                        Progress {
                                            i: i as int,
                                            j: j as int,
                                            a: a as int,
                                            b: b as int,
                                        },
                                    ),
                                decreases 3 - b,
                            {
                                let v: i128 = self.link_element(&link, a, b);
                                let ghost at = Progress {
                                    i: i as int,
                                    j: j as int,
                                    a: a as int,
                                    b: b as int,
                                };
                                let ghost before = matrix_cells(grid);
                                proof {
                                    self.lemma_entries_fit(coords@, weights, before, at, 3 * i + a, 3 * i + b);
                                    self.lemma_entries_fit(coords@, weights, before, at, 3 * j + a, 3 * j + b);
                                }
                                write_entry(&mut grid, i, j, a, b, v);
                                proof {
                                    lemma_entry_written(
                                        before,
                                        matrix_cells(grid),
                                        *self,
                                        coords@,
                                        weights,
                                        at,
                                    );
                                }
                                b += 1;
                            }
                            proof {
                                lemma_same_stage(
                                    matrix_cells(grid),
                                    *self,
                                    coords@,
                                    weights,
                                    Progress { i: i as int, j: j as int, a: a as int, b: 3 },
                                    Progress { i: i as int, j: j as int, a: a + 1, b: 0 },
                                );
                            }
                            a += 1;
                        }
                        proof {
                            lemma_same_stage(
                                matrix_cells(grid),
                                *self,
                                coords@,
                                weights,
                                Progress { i: i as int, j: j as int, a: 3, b: 0 },
                                Progress { i: i as int, j: j + 1, a: 0, b: 0 },
                            );
                        }
                    },
                    None => {
                        proof {
                            lemma_unlinked_mirrored(*self, coords@, i as int, j as int);
                            lemma_same_stage(
                                matrix_cells(grid),
                                *self,
                                coords@,
                                weights,
                                Progress { i: i as int, j: j as int, a: 0, b: 0 },
                                Progress { i: i as int, j: j + 1, a: 0, b: 0 },
                            );
                        }
                    },
                }
                j += 1;
            }
            proof {
                lemma_same_stage(
                    matrix_cells(grid),
                    *self,
                    coords@,
                    weights,
                    Progress { i: i as int, j: i as int, a: 0, b: 0 },
                    Progress { i: i + 1, j: 0, a: 0, b: 0 },
                );
            }
            i += 1;
        }
        proof {
            lemma_everything_written(matrix_cells(grid), *self, coords@, weights);
        }
        Ok(Hessian { atoms: n, grid })
    }

    /// While the matrix is built, every entry leaves room for one more
    /// spring entry to be taken off it.
    proof fn lemma_entries_fit(
        &self,
        coords: Seq<[i32; 3]>,
        masses: Option<Seq<u64>>,
        cells: Map<(int, int), int>,
        at: Progress,
        row: int,
        col: int,
    )
        requires
            1 <= coords.len() < 0x8000_0000,
            masses matches Some(m) ==> m.len() == coords.len(),
            masses_usable(self.mass_weighted, masses),
            agrees(cells, *self, coords, masses, at),
            0 <= row < 3 * coords.len(),
            0 <= col < 3 * coords.len(),
        ensures
            forall|v: int|
                -element_bound() <= v <= element_bound() ==> i128::MIN <= #[trigger] (cells[(
                    row,
                    col,
                )] - v) <= i128::MAX,
    {
        let bound = element_bound();
        let n = coords.len() as int;
        assert forall|p: int, q: int, a: int, b: int|
            0 <= p < n && 0 <= q < n && 0 <= a < 3 && 0 <= b < 3 implies -bound
            <= #[trigger] spring_element(*self, coords, masses, p, q, a, b) <= bound by {
            lemma_spring_element_bounded(*self, coords, masses, p, q, a, b);
        }
        lemma_partial_entry_bounded(*self, coords, masses, row, col, at, bound);
        assert(n * bound + bound <= i128::MAX) by (nonlinear_arith)
            requires
                0 <= n < 0x8000_0000,
                bound == 0x8000_0000_0000_0000 * 1_000_000,
        ;
    }
}

/// A Hessian is symmetric: block `(i, j)` is the transpose of block
/// `(j, i)`.
pub proof fn lemma_hessian_symmetric(
    hessian: Hessian,
    model: AnisotropicNetworkModel,
    coords: Seq<[i32; 3]>,
    masses: Option<Seq<u64>>,
    row: int,
    col: int,
)
    requires
        hessian.is_hessian_of(model, coords, masses),
        0 <= row < 3 * coords.len(),
        0 <= col < 3 * coords.len(),
    ensures
        hessian.cell(row, col) == hessian.cell(col, row),
{
    lemma_hessian_entry_symmetric(model, coords, masses, row, col);
}

/// In a Hessian the off-diagonal blocks of every row of blocks add up to
/// the negation of the diagonal block, whichever pairs the cutoff joins.
pub proof fn lemma_hessian_rows_balance(
    hessian: Hessian,
    model: AnisotropicNetworkModel,
    coords: Seq<[i32; 3]>,
    masses: Option<Seq<u64>>,
    i: int,
    a: int,
    b: int,
)
    requires
        hessian.is_hessian_of(model, coords, masses),
        0 <= i < coords.len(),
        0 <= a < 3,
        0 <= b < 3,
    ensures
        hessian.off_diagonal_sum(i, a, b) == -hessian.cell(3 * i + a, 3 * i + b),
{
    let f = |j: int| hessian.off_diagonal_cell(i, j, a, b);
    let g = |j: int| off_diagonal_entry(model, coords, masses, i, j, a, b);
    assert forall|j: int| 0 <= j < coords.len() implies #[trigger] f(j) == g(j) by {}
    lemma_total_pointwise(f, g, coords.len() as int);
    lemma_hessian_row_sums_to_zero(model, coords, masses, i, a, b);
}

/// Shifting every atom by the same vector leaves the Hessian unchanged.
pub proof fn lemma_hessian_translation_invariant(
    hessian: Hessian,
    shifted: Hessian,
    model: AnisotropicNetworkModel,
    coords: Seq<[i32; 3]>,
    moved: Seq<[i32; 3]>,
    shift: Seq<int>,
    masses: Option<Seq<u64>>,
    row: int,
    col: int,
)
    requires
        hessian.is_hessian_of(model, coords, masses),
        shifted.is_hessian_of(model, moved, masses),
        is_translation(coords, moved, shift),
        0 <= row < 3 * coords.len(),
        0 <= col < 3 * coords.len(),
    ensures
        shifted.cell(row, col) == hessian.cell(row, col),
{
    lemma_hessian_entry_translated(model, coords, moved, shift, masses, row, col);
}

/// Two atoms at the cutoff distance or farther apart have zero blocks
/// `(i, j)` and `(j, i)`, and their spring adds nothing to either diagonal
/// block.
pub proof fn lemma_hessian_cutoff_excludes(
    hessian: Hessian,
    model: AnisotropicNetworkModel,
    coords: Seq<[i32; 3]>,
    masses: Option<Seq<u64>>,
    i: int,
    j: int,
    a: int,
    b: int,
)
    requires
        hessian.is_hessian_of(model, coords, masses),
        0 <= i < coords.len(),
        0 <= j < coords.len(),
        i != j,
        0 <= a < 3,
        0 <= b < 3,
        squared_distance(coords, i, j) >= model.cutoff * model.cutoff,
    ensures
        hessian.cell(3 * i + a, 3 * j + b) == 0,
        hessian.cell(3 * j + a, 3 * i + b) == 0,
        spring_element(model, coords, masses, i, j, a, b) == 0,
        spring_element(model, coords, masses, j, i, a, b) == 0,
{
    lemma_beyond_cutoff_excluded(model, coords, masses, i, j, a, b);
}

/// A network has one Hessian only: built twice from the same inputs, it is
/// the same entry by entry.
pub proof fn lemma_hessian_determined(
    first: Hessian,
    second: Hessian,
    model: AnisotropicNetworkModel,
    coords: Seq<[i32; 3]>,
    masses: Option<Seq<u64>>,
    row: int,
    col: int,
)
    requires
        first.is_hessian_of(model, coords, masses),
        second.is_hessian_of(model, coords, masses),
        0 <= row < 3 * coords.len(),
        0 <= col < 3 * coords.len(),
    ensures
        first.atom_count() == second.atom_count(),
        first.cell(row, col) == second.cell(row, col),
{
    assert(first.cell(row, col) == hessian_entry(model, coords, masses, row, col));
    assert(second.cell(row, col) == hessian_entry(model, coords, masses, row, col));
}

} // verus!
