use crate::model::AnisotropicNetworkModel;
use crate::spring::{displacement, is_linked, mass_of, spring_element, squared_distance};
use vstd::prelude::*;

verus! {

/// Sum of `f(0)`, ..., `f(upto - 1)`.
pub open spec fn total(f: spec_fn(int) -> int, upto: int) -> int
    decreases upto,
{
    if upto <= 0 {
        0
    } else {
        total(f, upto - 1) + f(upto - 1)
    }
}

/// Sum over every atom `k` of entry `(a, b)` of the block that the spring
/// between atoms `i` and `k` contributes.
pub open spec fn spring_sum(
    model: AnisotropicNetworkModel,
    coords: Seq<[i32; 3]>,
    masses: Option<Seq<u64>>,
    i: int,
    a: int,
    b: int,
) -> int {
    total(|k: int| spring_element(model, coords, masses, i, k, a, b), coords.len() as int)
}

/// Entry `(row, col)` of the Hessian. Row `3 * i + a` belongs to component
/// `a` of atom `i`. Off the diagonal blocks the entry is that of the spring
/// between the two atoms; on a diagonal block it is the negated sum of the
/// spring entries of the atom's row.
pub open spec fn hessian_entry(
    model: AnisotropicNetworkModel,
    coords: Seq<[i32; 3]>,
    masses: Option<Seq<u64>>,
    row: int,
    col: int,
) -> int {
    let i = row / 3;
    let j = col / 3;
    let a = row % 3;
    let b = col % 3;
    if i != j {
        spring_element(model, coords, masses, i, j, a, b)
    } else {
        -spring_sum(model, coords, masses, i, a, b)
    }
}

/// Two sums over the same range are equal where their terms are.
pub proof fn lemma_total_pointwise(f: spec_fn(int) -> int, g: spec_fn(int) -> int, upto: int)
    requires
        forall|k: int| 0 <= k < upto ==> #[trigger] f(k) == g(k),
    ensures
        total(f, upto) == total(g, upto),
    decreases upto,
{
    if upto > 0 {
        lemma_total_pointwise(f, g, upto - 1);
    }
}

/// Where one term of a sum changes, the sum changes by as much.
pub proof fn lemma_total_one_changed(
    f: spec_fn(int) -> int,
    g: spec_fn(int) -> int,
    upto: int,
    at: int,
)
    requires
        0 <= at < upto,
        forall|k: int| 0 <= k < upto && k != at ==> #[trigger] f(k) == g(k),
    ensures
        total(g, upto) == total(f, upto) + g(at) - f(at),
    decreases upto,
{
    if upto - 1 == at {
        lemma_total_pointwise(f, g, upto - 1);
    } else {
        lemma_total_one_changed(f, g, upto - 1, at);
    }
}

/// A sum of terms of magnitude at most `bound` has magnitude at most
/// `upto * bound`.
pub proof fn lemma_total_bounded(f: spec_fn(int) -> int, upto: int, bound: int)
    requires
        0 <= upto,
        0 <= bound,
        forall|k: int| 0 <= k < upto ==> -bound <= #[trigger] f(k) <= bound,
    ensures
        -(upto * bound) <= total(f, upto) <= upto * bound,
    decreases upto,
{
    if upto > 0 {
        lemma_total_bounded(f, upto - 1, bound);
        assert(upto * bound == (upto - 1) * bound + bound) by (nonlinear_arith);
    } else {
        assert(upto * bound == 0) by (nonlinear_arith)
            requires
                upto == 0,
        ;
    }
}

/// The spring between two atoms is the same seen from either end.
pub proof fn lemma_spring_element_mirrored(
    model: AnisotropicNetworkModel,
    coords: Seq<[i32; 3]>,
    masses: Option<Seq<u64>>,
    i: int,
    j: int,
    a: int,
    b: int,
)
    ensures
        spring_element(model, coords, masses, j, i, a, b) == spring_element(
            model,
            coords,
            masses,
            i,
            j,
            a,
            b,
        ),
{
    let x = displacement(coords, i, j, 0);
    let y = displacement(coords, i, j, 1);
    let z = displacement(coords, i, j, 2);
    assert((-x) * (-x) == x * x && (-y) * (-y) == y * y && (-z) * (-z) == z * z)
        by (nonlinear_arith);
    let ra = displacement(coords, i, j, a);
    let rb = displacement(coords, i, j, b);
    assert((-ra) * (-rb) == ra * rb) by (nonlinear_arith);
    let mi = mass_of(masses, i);
    let mj = mass_of(masses, j);
    assert(mj * mi == mi * mj) by (nonlinear_arith);
}

/// Two atoms that are not joined are not joined seen from the other end.
pub proof fn lemma_unlinked_mirrored(
    model: AnisotropicNetworkModel,
    coords: Seq<[i32; 3]>,
    i: int,
    j: int,
)
    ensures
        is_linked(model, coords, j, i) == is_linked(model, coords, i, j),
{
    let x = displacement(coords, i, j, 0);
    let y = displacement(coords, i, j, 1);
    let z = displacement(coords, i, j, 2);
    assert((-x) * (-x) == x * x && (-y) * (-y) == y * y && (-z) * (-z) == z * z)
        by (nonlinear_arith);
}

/// A spring block is symmetric.
pub proof fn lemma_spring_element_transposed(
    model: AnisotropicNetworkModel,
    coords: Seq<[i32; 3]>,
    masses: Option<Seq<u64>>,
    i: int,
    j: int,
    a: int,
    b: int,
)
    ensures
        spring_element(model, coords, masses, i, j, b, a) == spring_element(
            model,
            coords,
            masses,
            i,
            j,
            a,
            b,
        ),
{
    let ra = displacement(coords, i, j, a);
    let rb = displacement(coords, i, j, b);
    assert(rb * ra == ra * rb) by (nonlinear_arith);
}

/// The Hessian is symmetric: block `(i, j)` is the transpose of block
/// `(j, i)`, entry by entry.
pub proof fn lemma_hessian_entry_symmetric(
    model: AnisotropicNetworkModel,
    coords: Seq<[i32; 3]>,
    masses: Option<Seq<u64>>,
    row: int,
    col: int,
)
    ensures
        hessian_entry(model, coords, masses, row, col) == hessian_entry(
            model,
            coords,
            masses,
            col,
            row,
        ),
{
    let i = row / 3;
    let j = col / 3;
    let a = row % 3;
    let b = col % 3;
    if i != j {
        lemma_spring_element_mirrored(model, coords, masses, i, j, a, b);
        lemma_spring_element_transposed(model, coords, masses, j, i, a, b);
    } else {
        let f = |k: int| spring_element(model, coords, masses, i, k, a, b);
        let g = |k: int| spring_element(model, coords, masses, i, k, b, a);
        assert forall|k: int| 0 <= k < coords.len() implies #[trigger] f(k) == g(k) by {
            lemma_spring_element_transposed(model, coords, masses, i, k, a, b);
        }
        lemma_total_pointwise(f, g, coords.len() as int);
    }
}

/// `moved` is `coords` with every atom shifted by the same vector `shift`.
pub open spec fn is_translation(coords: Seq<[i32; 3]>, moved: Seq<[i32; 3]>, shift: Seq<int>) -> bool {
    &&& moved.len() == coords.len()
    &&& shift.len() == 3
    &&& forall|k: int, axis: int|
        0 <= k < coords.len() && 0 <= axis < 3 ==> #[trigger] moved[k][axis] == coords[k][axis]
            + shift[axis]
}

/// Shifting every atom by the same vector leaves every spring as it was.
pub proof fn lemma_spring_element_translated(
    model: AnisotropicNetworkModel,
    coords: Seq<[i32; 3]>,
    moved: Seq<[i32; 3]>,
    shift: Seq<int>,
    masses: Option<Seq<u64>>,
    i: int,
    j: int,
    a: int,
    b: int,
)
    requires
        is_translation(coords, moved, shift),
        0 <= i < coords.len(),
        0 <= j < coords.len(),
        0 <= a < 3,
        0 <= b < 3,
    ensures
        spring_element(model, moved, masses, i, j, a, b) == spring_element(
            model,
            coords,
            masses,
            i,
            j,
            a,
            b,
        ),
{
    assert forall|axis: int| 0 <= axis < 3 implies displacement(moved, i, j, axis)
        == displacement(coords, i, j, axis) by {
        assert(moved[j][axis] == coords[j][axis] + shift[axis]);
        assert(moved[i][axis] == coords[i][axis] + shift[axis]);
    }
}

/// Shifting every atom by the same vector leaves the Hessian unchanged.
pub proof fn lemma_hessian_entry_translated(
    model: AnisotropicNetworkModel,
    coords: Seq<[i32; 3]>,
    moved: Seq<[i32; 3]>,
    shift: Seq<int>,
    masses: Option<Seq<u64>>,
    row: int,
    col: int,
)
    requires
        is_translation(coords, moved, shift),
        0 <= row < 3 * coords.len(),
        0 <= col < 3 * coords.len(),
    ensures
        hessian_entry(model, moved, masses, row, col) == hessian_entry(
            model,
            coords,
            masses,
            row,
            col,
        ),
{
    let i = row / 3;
    let j = col / 3;
    let a = row % 3;
    let b = col % 3;
    if i != j {
        lemma_spring_element_translated(model, coords, moved, shift, masses, i, j, a, b);
    } else {
        let f = |k: int| spring_element(model, moved, masses, i, k, a, b);
        let g = |k: int| spring_element(model, coords, masses, i, k, a, b);
        assert forall|k: int| 0 <= k < coords.len() implies #[trigger] f(k) == g(k) by {
            lemma_spring_element_translated(model, coords, moved, shift, masses, i, k, a, b);
        }
        lemma_total_pointwise(f, g, coords.len() as int);
    }
}

/// Two atoms at the cutoff distance or farther apart contribute nothing: the
/// spring between them is zero seen from either end, and so are both
/// off-diagonal blocks of the pair.
pub proof fn lemma_beyond_cutoff_excluded(
    model: AnisotropicNetworkModel,
    coords: Seq<[i32; 3]>,
    masses: Option<Seq<u64>>,
    i: int,
    j: int,
    a: int,
    b: int,
)
    requires
        0 <= i < coords.len(),
        0 <= j < coords.len(),
        i != j,
        0 <= a < 3,
        0 <= b < 3,
        squared_distance(coords, i, j) >= model.cutoff * model.cutoff,
    ensures
        spring_element(model, coords, masses, i, j, a, b) == 0,
        spring_element(model, coords, masses, j, i, a, b) == 0,
        hessian_entry(model, coords, masses, 3 * i + a, 3 * j + b) == 0,
        hessian_entry(model, coords, masses, 3 * j + a, 3 * i + b) == 0,
{
    lemma_unlinked_mirrored(model, coords, i, j);
}

/// Entry `(a, b)` of block `(i, j)` of the Hessian where `j` is another atom
/// than `i`, and zero in place of the diagonal block.
pub open spec fn off_diagonal_entry(
    model: AnisotropicNetworkModel,
    coords: Seq<[i32; 3]>,
    masses: Option<Seq<u64>>,
    i: int,
    j: int,
    a: int,
    b: int,
) -> int {
    if j != i {
        hessian_entry(model, coords, masses, 3 * i + a, 3 * j + b)
    } else {
        0
    }
}

/// Sum, over every atom `j` other than `i`, of entry `(a, b)` of block
/// `(i, j)` of the Hessian.
pub open spec fn off_diagonal_sum(
    model: AnisotropicNetworkModel,
    coords: Seq<[i32; 3]>,
    masses: Option<Seq<u64>>,
    i: int,
    a: int,
    b: int,
) -> int {
    total(|j: int| off_diagonal_entry(model, coords, masses, i, j, a, b), coords.len() as int)
}

/// The off-diagonal blocks of a row of blocks add up to the negation of its
/// diagonal block, whichever pairs the cutoff joins.
pub proof fn lemma_hessian_row_sums_to_zero(
    model: AnisotropicNetworkModel,
    coords: Seq<[i32; 3]>,
    masses: Option<Seq<u64>>,
    i: int,
    a: int,
    b: int,
)
    requires
        0 <= i < coords.len(),
        0 <= a < 3,
        0 <= b < 3,
    ensures
        off_diagonal_sum(model, coords, masses, i, a, b) == -hessian_entry(
            model,
            coords,
            masses,
            3 * i + a,
            3 * i + b,
        ),
{
    let f = |j: int| off_diagonal_entry(model, coords, masses, i, j, a, b);
    let g = |k: int| spring_element(model, coords, masses, i, k, a, b);
    assert forall|k: int| 0 <= k < coords.len() implies #[trigger] f(k) == g(k) by {
        assert((3 * i + a) / 3 == i && (3 * i + a) % 3 == a);
        assert((3 * k + b) / 3 == k && (3 * k + b) % 3 == b);
    }
    lemma_total_pointwise(f, g, coords.len() as int);
}

} // verus!
