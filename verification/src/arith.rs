//! Integer helpers: division rounded toward zero and integer square roots.

use vstd::prelude::*;

verus! {

/// Absolute value of a mathematical integer.
pub open spec fn abs(v: int) -> int {
    if v < 0 {
        -v
    } else {
        v
    }
}

/// The quotient `n / d` rounded toward zero, for a positive divisor.
pub open spec fn div_toward_zero(n: int, d: int) -> int {
    if n >= 0 {
        n / d
    } else {
        -((-n) / d)
    }
}

/// `r` is the largest integer whose square does not exceed `n`.
pub open spec fn is_floor_sqrt(n: int, r: int) -> bool {
    0 <= r && r * r <= n && n < (r + 1) * (r + 1)
}

/// The integer part of the square root of `n`.
pub open spec fn floor_sqrt(n: int) -> int {
    choose|r: int| is_floor_sqrt(n, r)
}

/// The least integer whose square is at least `n`.
pub open spec fn ceil_sqrt(n: int) -> int {
    let r = floor_sqrt(n);
    if r * r == n {
        r
    } else {
        r + 1
    }
}

/// Squaring is strictly monotone on the non-negative integers.
pub proof fn lemma_square_strictly_monotone(a: int, b: int)
    by (nonlinear_arith)
    requires
        0 <= a < b,
    ensures
        a * a < b * b,
{
}

/// Squares keep the order of non-negative numbers.
pub proof fn lemma_square_monotone(a: int, b: int)
    by (nonlinear_arith)
    requires
        0 <= a <= b,
    ensures
        a * a <= b * b,
{
}

/// The square of a product is the product of the squares.
pub proof fn lemma_square_of_product(a: int, b: int)
    by (nonlinear_arith)
    ensures
        (a * b) * (a * b) == (a * a) * (b * b),
{
}

/// A product is bounded by the product of the bounds of its factors.
pub proof fn lemma_product_bound(a: int, b: int, ma: int, mb: int)
    by (nonlinear_arith)
    requires
        -ma <= a <= ma,
        -mb <= b <= mb,
    ensures
        -(ma * mb) <= a * b <= ma * mb,
{
}

/// Every non-negative integer has a floor square root.
pub proof fn lemma_floor_sqrt_exists(n: int)
    requires
        0 <= n,
    ensures
        is_floor_sqrt(n, floor_sqrt(n)),
    decreases n,
{
    if n == 0 {
        assert(is_floor_sqrt(0, 0));
    } else {
        lemma_floor_sqrt_exists(n - 1);
        let r = floor_sqrt(n - 1);
        assert(is_floor_sqrt(n - 1, r));
        if n < (r + 1) * (r + 1) {
            assert(is_floor_sqrt(n, r));
        } else {
            assert(n == (r + 1) * (r + 1));
            assert((r + 1) * (r + 1) < (r + 2) * (r + 2)) by (nonlinear_arith)
                requires
                    r >= 0,
            ;
            assert(is_floor_sqrt(n, r + 1));
        }
    }
}

/// At most one integer is the floor square root of `n`.
pub proof fn lemma_floor_sqrt_unique(n: int, r1: int, r2: int)
    requires
        is_floor_sqrt(n, r1),
        is_floor_sqrt(n, r2),
    ensures
        r1 == r2,
{
    if r1 < r2 {
        lemma_square_strictly_monotone(r1, r2);
        assert((r1 + 1) * (r1 + 1) <= r2 * r2) by (nonlinear_arith)
            requires
                0 <= r1 + 1 <= r2,
        ;
    } else if r2 < r1 {
        assert((r2 + 1) * (r2 + 1) <= r1 * r1) by (nonlinear_arith)
            requires
                0 <= r2 + 1 <= r1,
        ;
    }
}

/// Any witness of `is_floor_sqrt` is the value of `floor_sqrt`.
pub proof fn lemma_floor_sqrt_is(n: int, r: int)
    requires
        is_floor_sqrt(n, r),
    ensures
        floor_sqrt(n) == r,
        ceil_sqrt(n) == if r * r == n { r } else { r + 1 },
{
    let c = floor_sqrt(n);
    assert(is_floor_sqrt(n, c));
    lemma_floor_sqrt_unique(n, r, c);
}

/// What rounding toward zero keeps: the sign, and a magnitude that is the
/// floor of the quotient of the magnitudes.
pub proof fn lemma_div_toward_zero(n: int, d: int)
    requires
        d > 0,
    ensures
        abs(div_toward_zero(n, d)) * d <= abs(n),
        abs(n) < (abs(div_toward_zero(n, d)) + 1) * d,
        abs(div_toward_zero(n, d)) <= abs(n),
        n >= 0 ==> div_toward_zero(n, d) >= 0,
        n <= 0 ==> div_toward_zero(n, d) <= 0,
        div_toward_zero(-n, d) == -div_toward_zero(n, d),
{
    let m = abs(n);
    let q = m / d;
    assert(q * d <= m && m < (q + 1) * d && 0 <= q <= m) by (nonlinear_arith)
        requires
            d > 0,
            m >= 0,
            q == m / d,
    ;
    assert(0int / d == 0) by (nonlinear_arith)
        requires
            d > 0,
    ;
}

/// A multiple of the divisor is divided without rounding.
pub proof fn lemma_div_exact(k: int, d: int)
    requires
        d > 0,
    ensures
        div_toward_zero(k * d, d) == k,
{
    let m = abs(k);
    assert((m * d) / d == m) by (nonlinear_arith)
        requires
            d > 0,
            m >= 0,
    ;
    assert(k >= 0 ==> k * d == m * d && k * d >= 0) by (nonlinear_arith)
        requires
            d > 0,
            m == abs(k),
    ;
    assert(k < 0 ==> -(k * d) == m * d && k * d < 0) by (nonlinear_arith)
        requires
            d > 0,
            m == abs(k),
    ;
}

/// The square of the ceiling square root is at least the number, and the
/// ceiling is positive for a positive number.
pub proof fn lemma_ceil_sqrt(n: int)
    requires
        0 <= n,
    ensures
        0 <= ceil_sqrt(n),
        n <= ceil_sqrt(n) * ceil_sqrt(n),
        n > 0 ==> ceil_sqrt(n) > 0,
{
    lemma_floor_sqrt_exists(n);
}

/// Divides rounding toward zero.
pub fn div_trunc(n: i128, d: i128) -> (q: i128)
    requires
        d > 0,
        n > i128::MIN,
    ensures
        q == div_toward_zero(n as int, d as int),
{
    proof {
        lemma_div_toward_zero(n as int, d as int);
    }
    if n >= 0 {
        n / d
    } else {
        -((-n) / d)
    }
}

/// The integer part of the square root, by bisection.
pub fn isqrt(n: u128) -> (r: u128)
    ensures
        r == floor_sqrt(n as int),
        is_floor_sqrt(n as int, r as int),
        r < 0x1_0000_0000_0000_0000,
{
    let mut lo: u128 = 0;
    let mut hi: u128 = 0x1_0000_0000_0000_0000;
    assert(0x1_0000_0000_0000_0000int * 0x1_0000_0000_0000_0000int > u128::MAX) by (nonlinear_arith);
    while hi - lo > 1
        invariant
            lo < hi <= 0x1_0000_0000_0000_0000,
            lo * lo <= n,
            n < hi * hi,
        decreases hi - lo,
    {
        let mid: u128 = lo + (hi - lo) / 2;
        assert(mid * mid <= u128::MAX) by (nonlinear_arith)
            requires
                0 <= mid < 0x1_0000_0000_0000_0000,
        ;
        if mid * mid <= n {
            lo = mid;
        } else {
            hi = mid;
        }
    }
    proof {
        lemma_floor_sqrt_is(n as int, lo as int);
    }
    lo
}

/// The least `c` with `c * c >= n`.
pub fn isqrt_ceil(n: u128) -> (c: u128)
    ensures
        c == ceil_sqrt(n as int),
        n <= c * c,
        c == 0 || (c - 1) * (c - 1) < n,
        c <= 0x1_0000_0000_0000_0000,
{
    let r = isqrt(n);
    assert(r * r <= u128::MAX);
    if r * r == n {
        assert(r > 0 ==> (r - 1) * (r - 1) < r * r) by (nonlinear_arith)
            requires
                r >= 0,
        ;
        r
    } else {
        r + 1
    }
}

} // verus!
