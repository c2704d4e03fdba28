use crate::assembly::{
    hessian_entry, lemma_spring_element_mirrored, lemma_total_bounded, lemma_total_one_changed,
    lemma_total_pointwise, total,
};
use crate::model::AnisotropicNetworkModel;
use crate::spring::{element_bound, spring_element};
use vstd::prelude::*;

verus! {

/// How far the builder has come: it walks the pairs `(i, j)` with `j < i`
/// row by row and, within a pair, the nine entries `(a, b)` of the block.
pub struct Progress {
    pub i: int,
    pub j: int,
    pub a: int,
    pub b: int,
}

/// Entry `(a, b)` of the spring between atoms `p` and `q` has been written.
pub open spec fn applied(p: int, q: int, a: int, b: int, at: Progress) -> bool {
    let hi = if p > q {
        p
    } else {
        q
    };
    let lo = if p > q {
        q
    } else {
        p
    };
    p != q && (hi < at.i || (hi == at.i && (lo < at.j || (lo == at.j && (a < at.a || (a == at.a
        && b < at.b))))))
}

/// What the spring between atoms `p` and `q` has contributed so far to
/// entry `(a, b)` of its block.
pub open spec fn partial_element(
    model: AnisotropicNetworkModel,
    coords: Seq<[i32; 3]>,
    masses: Option<Seq<u64>>,
    p: int,
    q: int,
    a: int,
    b: int,
    at: Progress,
) -> int {
    if applied(p, q, a, b, at) {
        spring_element(model, coords, masses, p, q, a, b)
    } else {
        0
    }
}

/// Entry `(row, col)` of the matrix as the builder has it at `at`.
pub open spec fn partial_entry(
    model: AnisotropicNetworkModel,
    coords: Seq<[i32; 3]>,
    masses: Option<Seq<u64>>,
    row: int,
    col: int,
    at: Progress,
) -> int {
    let p = row / 3;
    let q = col / 3;
    let a = row % 3;
    let b = col % 3;
    if p != q {
        partial_element(model, coords, masses, p, q, a, b, at)
    } else {
        -total(
            |k: int| partial_element(model, coords, masses, p, k, a, b, at),
            coords.len() as int,
        )
    }
}

/// The matrix holds what the builder has written up to `at`.
pub open spec fn agrees(
    cells: Map<(int, int), int>,
    model: AnisotropicNetworkModel,
    coords: Seq<[i32; 3]>,
    masses: Option<Seq<u64>>,
    at: Progress,
) -> bool {
    forall|row: int, col: int|
        0 <= row < 3 * coords.len() && 0 <= col < 3 * coords.len() ==> cells[(row, col)]
            == #[trigger] partial_entry(model, coords, masses, row, col, at)
}

/// The matrix after entry `(a, b)` of the spring between atoms `i` and `j`,
/// of value `v`, has been written into `before`: `v` in both off-diagonal
/// blocks, and taken off both diagonal blocks.
pub open spec fn written(
    before: Map<(int, int), int>,
    after: Map<(int, int), int>,
    order: int,
    i: int,
    j: int,
    a: int,
    b: int,
    v: int,
) -> bool {
    forall|row: int, col: int|
        0 <= row < order && 0 <= col < order ==> #[trigger] after[(row, col)] == (if (row == 3 * i
            + a && col == 3 * j + b) || (row == 3 * j + a && col == 3 * i + b) {
            v
        } else if (row == 3 * i + a && col == 3 * i + b) || (row == 3 * j + a && col == 3 * j
            + b) {
            before[(row, col)] - v
        } else {
            before[(row, col)]
        })
}

/// Two stages of the builder at which every spring has contributed the same
/// give the same matrix.
pub proof fn lemma_same_stage(
    cells: Map<(int, int), int>,
    model: AnisotropicNetworkModel,
    coords: Seq<[i32; 3]>,
    masses: Option<Seq<u64>>,
    at: Progress,
    next: Progress,
)
    requires
        agrees(cells, model, coords, masses, at),
        forall|p: int, q: int, a: int, b: int|
            0 <= p < coords.len() && 0 <= q < coords.len() && 0 <= a < 3 && 0 <= b < 3
                ==> #[trigger] partial_element(model, coords, masses, p, q, a, b, next)
                == partial_element(model, coords, masses, p, q, a, b, at),
    ensures
        agrees(cells, model, coords, masses, next),
{
    let n = coords.len() as int;
    assert forall|row: int, col: int| 0 <= row < 3 * n && 0 <= col < 3 * n implies cells[(
        row,
        col,
    )] == #[trigger] partial_entry(model, coords, masses, row, col, next) by {
        let p = row / 3;
        let q = col / 3;
        let a = row % 3;
        let b = col % 3;
        assert(cells[(row, col)] == partial_entry(model, coords, masses, row, col, at));
        if p == q {
            let f = |k: int| partial_element(model, coords, masses, p, k, a, b, at);
            let g = |k: int| partial_element(model, coords, masses, p, k, a, b, next);
            assert forall|k: int| 0 <= k < n implies #[trigger] g(k) == f(k) by {}
            lemma_total_pointwise(g, f, n);
        }
    }
}

/// Before the first pair the matrix of zeros is right.
pub proof fn lemma_nothing_written(
    cells: Map<(int, int), int>,
    model: AnisotropicNetworkModel,
    coords: Seq<[i32; 3]>,
    masses: Option<Seq<u64>>,
)
    requires
        forall|row: int, col: int|
            0 <= row < 3 * coords.len() && 0 <= col < 3 * coords.len() ==> #[trigger] cells[(
                row,
                col,
            )] == 0,
    ensures
        agrees(cells, model, coords, masses, Progress { i: 0, j: 0, a: 0, b: 0 }),
{
    let at = Progress { i: 0, j: 0, a: 0, b: 0 };
    let n = coords.len() as int;
    assert forall|row: int, col: int| 0 <= row < 3 * n && 0 <= col < 3 * n implies cells[(
        row,
        col,
    )] == #[trigger] partial_entry(model, coords, masses, row, col, at) by {
        let p = row / 3;
        let a = row % 3;
        let b = col % 3;
        let f = |k: int| partial_element(model, coords, masses, p, k, a, b, at);
        assert forall|k: int| 0 <= k < n implies -0 <= #[trigger] f(k) <= 0 by {}
        lemma_total_bounded(f, n, 0);
    }
}

/// After the last pair the matrix is the Hessian.
pub proof fn lemma_everything_written(
    cells: Map<(int, int), int>,
    model: AnisotropicNetworkModel,
    coords: Seq<[i32; 3]>,
    masses: Option<Seq<u64>>,
)
    requires
        agrees(
            cells,
            model,
            coords,
            masses,
            Progress { i: coords.len() as int, j: 0, a: 0, b: 0 },
        ),
    ensures
        forall|row: int, col: int|
            0 <= row < 3 * coords.len() && 0 <= col < 3 * coords.len() ==> cells[(row, col)]
                == #[trigger] hessian_entry(model, coords, masses, row, col),
{
    let n = coords.len() as int;
    let at = Progress { i: n, j: 0, a: 0, b: 0 };
    assert forall|row: int, col: int| 0 <= row < 3 * n && 0 <= col < 3 * n implies cells[(
        row,
        col,
    )] == #[trigger] hessian_entry(model, coords, masses, row, col) by {
        let p = row / 3;
        let a = row % 3;
        let b = col % 3;
        assert(cells[(row, col)] == partial_entry(model, coords, masses, row, col, at));
        let f = |k: int| partial_element(model, coords, masses, p, k, a, b, at);
        let g = |k: int| spring_element(model, coords, masses, p, k, a, b);
        assert forall|k: int| 0 <= k < n implies #[trigger] f(k) == g(k) by {}
        lemma_total_pointwise(f, g, n);
    }
}

/// Writing one entry of one spring takes the matrix from one stage to the
/// next.
pub proof fn lemma_entry_written(
    before: Map<(int, int), int>,
    after: Map<(int, int), int>,
    model: AnisotropicNetworkModel,
    coords: Seq<[i32; 3]>,
    masses: Option<Seq<u64>>,
    at: Progress,
)
    requires
        0 <= at.j < at.i < coords.len(),
        0 <= at.a < 3,
        0 <= at.b < 3,
        agrees(before, model, coords, masses, at),
        written(
            before,
            after,
            3 * (coords.len() as int),
            at.i,
            at.j,
            at.a,
            at.b,
            spring_element(model, coords, masses, at.i, at.j, at.a, at.b),
        ),
    ensures
        agrees(after, model, coords, masses, Progress { i: at.i, j: at.j, a: at.a, b: at.b + 1 }),
{
    let n = coords.len() as int;
    let next = Progress { i: at.i, j: at.j, a: at.a, b: at.b + 1 };
    let v = spring_element(model, coords, masses, at.i, at.j, at.a, at.b);
    lemma_spring_element_mirrored(model, coords, masses, at.i, at.j, at.a, at.b);
    assert forall|row: int, col: int| 0 <= row < 3 * n && 0 <= col < 3 * n implies after[(
        row,
        col,
    )] == #[trigger] partial_entry(model, coords, masses, row, col, next) by {
        let p = row / 3;
        let q = col / 3;
        let a = row % 3;
        let b = col % 3;
        assert(before[(row, col)] == partial_entry(model, coords, masses, row, col, at));
        if p == q {
            let f = |k: int| partial_element(model, coords, masses, p, k, a, b, at);
            let g = |k: int| partial_element(model, coords, masses, p, k, a, b, next);
            if a == at.a && b == at.b && (p == at.i || p == at.j) {
                let other = if p == at.i {
                    at.j
                } else {
                    at.i
                };
                assert forall|k: int| 0 <= k < n && k != other implies #[trigger] f(k) == g(k) by {}
                lemma_total_one_changed(f, g, n, other);
            } else {
                assert forall|k: int| 0 <= k < n implies #[trigger] f(k) == g(k) by {}
                lemma_total_pointwise(f, g, n);
            }
        }
    }
}

/// No entry of the matrix outgrows `coords.len() * element_bound()` while
/// it is built.
pub proof fn lemma_partial_entry_bounded(
    model: AnisotropicNetworkModel,
    coords: Seq<[i32; 3]>,
    masses: Option<Seq<u64>>,
    row: int,
    col: int,
    at: Progress,
    bound: int,
)
    requires
        coords.len() >= 1,
        0 <= bound,
        0 <= row < 3 * coords.len(),
        0 <= col < 3 * coords.len(),
        forall|p: int, q: int, a: int, b: int|
            0 <= p < coords.len() && 0 <= q < coords.len() && 0 <= a < 3 && 0 <= b < 3 ==> -bound
                <= #[trigger] spring_element(model, coords, masses, p, q, a, b) <= bound,
    ensures
        -(coords.len() * bound) <= partial_entry(model, coords, masses, row, col, at)
            <= coords.len() * bound,
{
    let n = coords.len() as int;
    let p = row / 3;
    let q = col / 3;
    let a = row % 3;
    let b = col % 3;
    assert(bound <= n * bound) by (nonlinear_arith)
        requires
            n >= 1,
            bound >= 0,
    ;
    if p == q {
        let f = |k: int| partial_element(model, coords, masses, p, k, a, b, at);
        assert forall|k: int| 0 <= k < n implies -bound <= #[trigger] f(k) <= bound by {}
        lemma_total_bounded(f, n, bound);
    }
}

} // verus!
