use vstd::prelude::*;

verus! {

/// `root` is the square root of `x`, rounded down.
pub open spec fn is_integer_sqrt(x: nat, root: nat) -> bool {
    root * root <= x < (root + 1) * (root + 1)
}

/// The square root of `x`, rounded down.
pub open spec fn integer_sqrt(x: nat) -> nat {
    choose|root: nat| is_integer_sqrt(x, root)
}

/// Squaring keeps the order of natural numbers.
pub proof fn lemma_square_ordered(a: nat, b: nat)
    requires
        a <= b,
    ensures
        a * a <= b * b,
{
    assert(a * a <= b * b) by (nonlinear_arith)
        requires
            0 <= a <= b,
    ;
}

/// A number has one rounded-down square root only.
pub proof fn lemma_integer_sqrt_unique(x: nat, r1: nat, r2: nat)
    requires
        is_integer_sqrt(x, r1),
        is_integer_sqrt(x, r2),
    ensures
        r1 == r2,
{
    if r1 < r2 {
        lemma_square_ordered(r1 + 1, r2);
    } else if r2 < r1 {
        lemma_square_ordered(r2 + 1, r1);
    }
}

/// Every natural number has a rounded-down square root.
pub proof fn lemma_integer_sqrt_exists(x: nat)
    ensures
        is_integer_sqrt(x, integer_sqrt(x)),
    decreases x,
{
    if x == 0 {
        assert(0nat * 0nat == 0 && (0nat + 1) * (0nat + 1) == 1) by (nonlinear_arith);
        assert(is_integer_sqrt(0, 0));
    } else {
        lemma_integer_sqrt_exists((x - 1) as nat);
        let r = integer_sqrt((x - 1) as nat);
        if x < (r + 1) * (r + 1) {
            assert(is_integer_sqrt(x, r));
        } else {
            assert((r + 2) * (r + 2) > (r + 1) * (r + 1)) by (nonlinear_arith);
            assert(is_integer_sqrt(x, r + 1));
        }
    }
}

/// The rounded-down square root of a positive number is positive.
pub proof fn lemma_integer_sqrt_positive(x: nat)
    requires
        x >= 1,
    ensures
        integer_sqrt(x) >= 1,
{
    lemma_integer_sqrt_exists(x);
    let r = integer_sqrt(x);
    if r == 0 {
        assert((r + 1) * (r + 1) == 1) by (nonlinear_arith)
            requires
                r == 0,
        ;
    }
}

/// The square root of `x`, rounded down, by bisection.
pub fn isqrt(x: u128) -> (root: u64)
    ensures
        is_integer_sqrt(x as nat, root as nat),
        root == integer_sqrt(x as nat),
{
    let mut lo: u128 = 0;
    let mut hi: u128 = 0x1_0000_0000_0000_0000;
    assert(hi * hi > x) by (nonlinear_arith)
        requires
            hi == 0x1_0000_0000_0000_0000,
            x <= u128::MAX,
    ;
    while hi - lo > 1
        invariant
            lo < hi <= 0x1_0000_0000_0000_0000,
            lo * lo <= x < hi * hi,
        decreases hi - lo,
    {
        let mid: u128 = lo + (hi - lo) / 2;
        assert(mid * mid <= u128::MAX) by (nonlinear_arith)
            requires
                0 <= mid < 0x1_0000_0000_0000_0000,
        ;
        if mid * mid <= x {
            lo = mid;
        } else {
            hi = mid;
        }
    }
    proof {
        assert(hi == lo + 1);
        lemma_integer_sqrt_unique(x as nat, lo as nat, integer_sqrt(x as nat));
    }
    lo as u64
}

} // verus!
