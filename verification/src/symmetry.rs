use crate::ordering::{
    float_rank, is_nan, lemma_scaled_magnitude_increases, magnitude_bits, rank, scaled_magnitude,
    FRACTION_RANGE, INFINITY_BITS, NAN_RANK, SIGN_BIT,
};
use vstd::arithmetic::power2::{lemma2_to64_rest, lemma_pow2_adds, lemma_pow2_pos, lemma_pow2_unfold, pow2};
use vstd::prelude::*;

verus! {

/// How far two mirrored entries of a matrix may lie apart and still count
/// as equal: this many steps from one binary64 value to the next. At two to
/// the power of 26 steps the two agree to about eight decimal places.
pub const SYMMETRY_TOLERANCE: i64 = 0x400_0000;

/// An entry is negligible where doubling it this many times does not take
/// it past the largest entry of the matrix: two to the power of 40 is about
/// twelve decimal places.
pub const NEGLIGIBLE_DOUBLINGS: u64 = 40;

/// Two binary64 bit patterns are numbers no more than `SYMMETRY_TOLERANCE`
/// representable values apart. A NaN is close to nothing.
pub open spec fn close_enough(a: u64, b: u64) -> bool {
    !is_nan(a) && !is_nan(b) && -SYMMETRY_TOLERANCE <= rank(a) - rank(b) <= SYMMETRY_TOLERANCE
}

/// The largest of the bit patterns of `entries`, their signs left out: the
/// bit pattern of the largest magnitude among them. Zero where there is no
/// entry.
pub open spec fn largest_magnitude(entries: Seq<u64>) -> int
    decreases entries.len(),
{
    if entries.len() == 0 {
        0
    } else {
        let before = largest_magnitude(entries.drop_last());
        let last = magnitude_bits(entries.last());
        if last > before {
            last
        } else {
            before
        }
    }
}

/// The number with bit pattern `x` is negligible beside a finite magnitude
/// with bit pattern `largest`: with its exponent raised by
/// `NEGLIGIBLE_DOUBLINGS` its bit pattern, the sign left out, still is no
/// larger.
pub open spec fn is_negligible(x: u64, largest: int) -> bool {
    largest < INFINITY_BITS && magnitude_bits(x) + NEGLIGIBLE_DOUBLINGS * FRACTION_RANGE <= largest
}

/// Two mirrored entries of a matrix whose largest magnitude has the bit
/// pattern `largest` count as equal: neither is a NaN, and they are close
/// enough to one another or both negligible beside the largest.
pub open spec fn mirrored(a: u64, b: u64, largest: int) -> bool {
    !is_nan(a) && !is_nan(b) && (close_enough(a, b) || (is_negligible(a, largest) && is_negligible(
        b,
        largest,
    )))
}

/// No entry has a larger magnitude than the largest.
pub proof fn lemma_largest_magnitude_bounds(entries: Seq<u64>, k: int)
    requires
        0 <= k < entries.len(),
    ensures
        magnitude_bits(entries[k]) <= largest_magnitude(entries),
    decreases entries.len(),
{
    if k < entries.len() - 1 {
        lemma_largest_magnitude_bounds(entries.drop_last(), k);
    }
}

/// The largest magnitude is that of one of the entries.
pub proof fn lemma_largest_magnitude_attained(entries: Seq<u64>)
    requires
        entries.len() > 0,
    ensures
        exists|k: int| 0 <= k < entries.len() && magnitude_bits(entries[k]) == largest_magnitude(entries),
    decreases entries.len(),
{
    let last = entries.len() - 1;
    let shorter = entries.drop_last();
    if largest_magnitude(entries) != magnitude_bits(entries[last]) {
        if shorter.len() == 0 {
            assert(largest_magnitude(shorter) == 0);
        }
        lemma_largest_magnitude_attained(shorter);
        let k = choose|k: int|
            0 <= k < shorter.len() && magnitude_bits(shorter[k]) == largest_magnitude(shorter);
        assert(shorter[k] == entries[k]);
        assert(magnitude_bits(entries[k]) == largest_magnitude(entries));
    }
}

/// A negligible number is smaller than the largest by a factor of two to
/// the power of 40, or more.
pub proof fn lemma_negligible_is_small(x: u64, largest: int)
    requires
        is_negligible(x, largest),
    ensures
        scaled_magnitude(magnitude_bits(x)) * 0x100_0000_0000 <= scaled_magnitude(largest),
{
    let range = FRACTION_RANGE as int;
    let m = magnitude_bits(x);
    let raised = m + NEGLIGIBLE_DOUBLINGS * range;
    let e = m / range;
    let f = m % range;
    lemma2_to64_rest();
    assert(raised / range == e + 40 && raised % range == f);
    let doubled = pow2(40) as int;
    if e == 0 {
        lemma_pow2_unfold(40);
        let half = pow2(39) as int;
        lemma_pow2_pos(39);
        assert(f * (2 * half) <= (range + f) * half) by (nonlinear_arith)
            requires
                0 <= f < range,
                half > 0,
        ;
        assert(scaled_magnitude(raised) == (range + f) * half);
    } else {
        let low = pow2((e - 1) as nat) as int;
        lemma_pow2_adds((e - 1) as nat, 40);
        assert(pow2((e + 40 - 1) as nat) == low * doubled);
        assert((range + f) * (low * doubled) == ((range + f) * low) * doubled)
            by (nonlinear_arith);
        assert(scaled_magnitude(raised) == scaled_magnitude(m) * doubled);
    }
    if raised < largest {
        lemma_scaled_magnitude_increases(raised, largest);
    }
}

/// Tells whether two binary64 bit patterns are numbers no more than
/// `SYMMETRY_TOLERANCE` representable values apart.
pub fn entries_close(a: u64, b: u64) -> (close: bool)
    ensures
        close == close_enough(a, b),
{
    let ra: i64 = float_rank(a);
    let rb: i64 = float_rank(b);
    if ra == NAN_RANK || rb == NAN_RANK {
        false
    } else {
        let apart: i128 = ra as i128 - rb as i128;
        -(SYMMETRY_TOLERANCE as i128) <= apart && apart <= SYMMETRY_TOLERANCE as i128
    }
}

/// The bit pattern without its sign bit.
pub fn magnitude_of(bits: u64) -> (magnitude: u64)
    ensures
        magnitude == magnitude_bits(bits),
{
    if bits >= SIGN_BIT {
        bits - SIGN_BIT
    } else {
        bits
    }
}

/// Tells whether two mirrored entries of a matrix whose largest magnitude
/// has the bit pattern `largest` count as equal.
pub fn entries_mirrored(a: u64, b: u64, largest: u64) -> (equal: bool)
    ensures
        equal == mirrored(a, b, largest as int),
{
    if entries_close(a, b) {
        return true;
    }
    let ma: u64 = magnitude_of(a);
    let mb: u64 = magnitude_of(b);
    if ma > INFINITY_BITS || mb > INFINITY_BITS || largest >= INFINITY_BITS {
        return false;
    }
    let step: u64 = NEGLIGIBLE_DOUBLINGS * FRACTION_RANGE;
    ma + step <= largest && mb + step <= largest
}

/// A square matrix of binary64 bit patterns, as a floating-point solver
/// takes it.
pub struct FloatMatrix {
    /// The number of rows, which is also the number of columns.
    pub order: usize,
    /// The entries, column after column.
    pub entries: Vec<u64>,
}

impl FloatMatrix {
    /// There are `order` columns of `order` entries.
    pub open spec fn is_square(&self) -> bool {
        self.entries@.len() == self.order * self.order
    }

    /// Entry `(row, col)`.
    pub open spec fn entry(&self, row: int, col: int) -> u64 {
        self.entries@[row + col * self.order]
    }

    /// The matrix is square, no entry is a NaN, and each entry is close
    /// enough to its mirror image, or negligible beside the largest entry
    /// as its mirror image is.
    pub open spec fn is_symmetric(&self) -> bool {
        &&& self.is_square()
        &&& forall|row: int, col: int|
            0 <= row < self.order && 0 <= col < self.order ==> mirrored(
                #[trigger] self.entry(row, col),
                self.entry(col, row),
                largest_magnitude(self.entries@),
            )
    }

    /// The bit pattern of the largest magnitude among the entries.
    pub fn largest(&self) -> (largest: u64)
        ensures
            largest == largest_magnitude(self.entries@),
    {
        let total: usize = self.entries.len();
        let mut largest: u64 = 0;
        let mut t: usize = 0;
        assert(self.entries@.take(0) =~= Seq::<u64>::empty());
        while t < total
            invariant
                total == self.entries@.len(),
                t <= total,
                largest == largest_magnitude(self.entries@.take(t as int)),
            decreases total - t,
        {
            let magnitude: u64 = magnitude_of(self.entries[t]);
            proof {
                let longer = self.entries@.take(t + 1);
                assert(longer.drop_last() =~= self.entries@.take(t as int));
                assert(longer.last() == self.entries@[t as int]);
            }
            if magnitude > largest {
                largest = magnitude;
            }
            t += 1;
        }
        assert(self.entries@.take(total as int) =~= self.entries@);
        largest
    }

    /// Tells whether the matrix is symmetric.
    pub fn symmetric(&self) -> (yes: bool)
        ensures
            yes == self.is_symmetric(),
    {
        let n: usize = self.order;
        assert(n * n <= u128::MAX) by (nonlinear_arith)
            requires
                0 <= n <= 0xFFFF_FFFF_FFFF_FFFF,
        ;
        let total: usize = self.entries.len();
        if (n as u128) * (n as u128) != total as u128 {
            return false;
        }
        let largest: u64 = self.largest();
        let mut row: usize = 0;
        while row < n
            invariant
                n == self.order,
                n * n == total == self.entries@.len(),
                largest == largest_magnitude(self.entries@),
                row <= n,
                forall|r: int, c: int|
                    0 <= c <= r < row ==> mirrored(
                        #[trigger] self.entry(r, c),
                        self.entry(c, r),
                        largest as int,
                    ),
            decreases n - row,
        {
            let mut col: usize = 0;
            while col <= row
                invariant
                    n == self.order,
                    n * n == total == self.entries@.len(),
                    largest == largest_magnitude(self.entries@),
                    row < n,
                    col <= row + 1,
                    forall|r: int, c: int|
                        0 <= c <= r < row ==> mirrored(
                            #[trigger] self.entry(r, c),
                            self.entry(c, r),
                            largest as int,
                        ),
                    forall|c: int|
                        0 <= c < col ==> mirrored(
                            #[trigger] self.entry(row as int, c),
                            self.entry(c, row as int),
                            largest as int,
                        ),
                decreases row + 1 - col,
            {
                assert(row + col * n < n * n && col + row * n < n * n && 0 <= col * n && 0 <= row
                    * n) by (nonlinear_arith)
                    requires
                        0 <= col <= row < n,
                ;
                let here: u64 = self.entries[row + col * n];
                let there: u64 = self.entries[col + row * n];
                if !entries_mirrored(here, there, largest) {
                    assert(!mirrored(
                        self.entry(row as int, col as int),
                        self.entry(col as int, row as int),
                        largest as int,
                    ));
                    return false;
                }
                col += 1;
            }
            row += 1;
        }
        proof {
            assert forall|r: int, c: int| 0 <= r < n && 0 <= c < n implies mirrored(
                #[trigger] self.entry(r, c),
                self.entry(c, r),
                largest as int,
            ) by {
                if c <= r {
                    assert(mirrored(self.entry(r, c), self.entry(c, r), largest as int));
                } else {
                    assert(mirrored(self.entry(c, r), self.entry(r, c), largest as int));
                }
            }
        }
        true
    }
}

} // verus!
