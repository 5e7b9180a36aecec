//! Fixed-point arithmetic shared by the index and the force law.

use vstd::prelude::*;

verus! {

/// Raw steps per length unit. Coordinates, velocities and gains are signed fixed-point
/// numbers with sixteen fractional bits, stored in an `i32`.
pub const UNIT: i32 = 65536;

/// Largest magnitude that a stored velocity or an integrated coordinate takes.
pub const LIMIT: i32 = 2147483647;

/// `v` brought into `[-LIMIT, LIMIT]`.
pub open spec fn saturated(v: int) -> int {
    if v > LIMIT {
        LIMIT as int
    } else if v < -LIMIT {
        -(LIMIT as int)
    } else {
        v
    }
}

/// Quotient of `a` by a positive `b`, rounded toward zero.
pub open spec fn quotient(a: int, b: int) -> int {
    if a >= 0 {
        a / b
    } else {
        -((-a) / b)
    }
}

/// Whether `r` is the integer square root of `n`: the largest `r >= 0` with `r * r <= n`.
pub open spec fn is_root(n: int, r: int) -> bool {
    0 <= r && r * r <= n < (r + 1) * (r + 1)
}

/// The integer square root of a non-negative `n`.
pub open spec fn root(n: int) -> int {
    choose|r: int| is_root(n, r)
}

/// At most one number is the integer square root of `n`.
pub proof fn lemma_root_unique(n: int, a: int, b: int)
    requires
        is_root(n, a),
        is_root(n, b),
    ensures
        a == b,
{
    if a < b {
        assert((a + 1) * (a + 1) <= b * b) by (nonlinear_arith)
            requires
                0 <= a,
                a + 1 <= b,
        ;
    } else if b < a {
        assert((b + 1) * (b + 1) <= a * a) by (nonlinear_arith)
            requires
                0 <= b,
                b + 1 <= a,
        ;
    }
}

/// A number known to be the integer square root of `n` is `root(n)`.
pub proof fn lemma_root_is(n: int, r: int)
    requires
        is_root(n, r),
    ensures
        root(n) == r,
{
    lemma_root_unique(n, r, root(n));
}

/// Every number that is not negative has an integer square root, and `root` is it.
pub proof fn lemma_root_exists(n: int)
    requires
        n >= 0,
    ensures
        is_root(n, root(n)),
    decreases n,
{
    if n == 0 {
        assert(is_root(0, 0));
    } else {
        lemma_root_exists(n - 1);
        let r = root(n - 1);
        if (r + 1) * (r + 1) <= n {
            assert((r + 1) * (r + 1) < (r + 2) * (r + 2)) by (nonlinear_arith)
                requires
                    0 <= r,
            ;
            assert(is_root(n, r + 1));
        } else {
            assert(is_root(n, r));
        }
    }
}

/// The integer square root of a number below `bound * bound` lies below `bound`.
pub proof fn lemma_root_below(n: int, bound: int)
    requires
        0 <= n < bound * bound,
        0 <= bound,
    ensures
        0 <= root(n) < bound,
{
    lemma_root_exists(n);
    let r = root(n);
    if r >= bound {
        assert(r * r >= bound * bound) by (nonlinear_arith)
            requires
                r >= bound,
                bound >= 0,
        ;
    }
}

/// The integer square root never falls below either leg of a right triangle whose squared
/// hypotenuse it is taken of.
pub proof fn lemma_root_dominates(dx: int, dy: int, r: int)
    requires
        is_root(dx * dx + dy * dy, r),
    ensures
        -r <= dx <= r,
        -r <= dy <= r,
{
    let n = dx * dx + dy * dy;
    assert(dx * dx >= 0 && dy * dy >= 0) by (nonlinear_arith);
    if dx > r {
        assert(dx * dx >= (r + 1) * (r + 1)) by (nonlinear_arith)
            requires
                0 <= r,
                dx >= r + 1,
        ;
    }
    if dx < -r {
        assert(dx * dx >= (r + 1) * (r + 1)) by (nonlinear_arith)
            requires
                0 <= r,
                dx <= -(r + 1),
        ;
    }
    if dy > r {
        assert(dy * dy >= (r + 1) * (r + 1)) by (nonlinear_arith)
            requires
                0 <= r,
                dy >= r + 1,
        ;
    }
    if dy < -r {
        assert(dy * dy >= (r + 1) * (r + 1)) by (nonlinear_arith)
            requires
                0 <= r,
                dy <= -(r + 1),
        ;
    }
}

/// Brings a wide intermediate result back into the stored range.
pub fn saturate(v: i128) -> (r: i32)
    ensures
        r == saturated(v as int),
{
    if v > LIMIT as i128 {
        LIMIT
    } else if v < -(LIMIT as i128) {
        -LIMIT
    } else {
        v as i32
    }
}

/// Divides by a positive number, rounding toward zero.
pub fn divide(a: i128, b: i128) -> (q: i128)
    requires
        b > 0,
    ensures
        q == quotient(a as int, b as int),
{
    a / b
}

/// Integer square root by bisection.
pub fn isqrt(n: u128) -> (r: u64)
    ensures
        is_root(n as int, r as int),
        r == root(n as int),
{
    let mut lo: u128 = 0;
    let mut hi: u128 = 0x1_0000_0000_0000_0000;
    assert(0x1_0000_0000_0000_0000int * 0x1_0000_0000_0000_0000int > u128::MAX);
    while hi - lo > 1
        invariant
            lo < hi <= 0x1_0000_0000_0000_0000,
            lo * lo <= n < hi * hi,
        decreases hi - lo,
    {
        let mid: u128 = lo + (hi - lo) / 2;
        assert(mid * mid <= 0xFFFF_FFFF_FFFF_FFFFint * 0xFFFF_FFFF_FFFF_FFFFint) by (nonlinear_arith)
            requires
                0 <= mid <= 0xFFFF_FFFF_FFFF_FFFF,
        ;
        assert(0xFFFF_FFFF_FFFF_FFFFint * 0xFFFF_FFFF_FFFF_FFFFint <= u128::MAX);
        if mid * mid <= n {
            lo = mid;
        } else {
            hi = mid;
        }
    }
    proof {
        lemma_root_is(n as int, lo as int);
    }
    lo as u64
}

} // verus!
