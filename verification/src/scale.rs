//! Powers of two and floor division by them: the arithmetic behind voxel
//! coordinates, which are counted in units of `2^lg_size`.

use vstd::prelude::*;
use vstd::arithmetic::power2::{pow2, lemma_pow2_pos, lemma_pow2_unfold, lemma_pow2_adds, lemma_pow2_strictly_increases, lemma2_to64};

verus! {

/// `x` divided by `2^k`, rounded towards negative infinity.
pub open spec fn floor_shift(x: int, k: nat) -> int {
    x / (pow2(k) as int)
}

/// Bit `k` of `x` in two's complement of unbounded width.
pub open spec fn bit(x: int, k: nat) -> int {
    floor_shift(x, k) % 2
}

/// `floor_shift(x, k)` is the one `q` with `q * 2^k <= x < (q + 1) * 2^k`.
pub proof fn lemma_floor_shift_bounds(x: int, k: nat)
    ensures
        floor_shift(x, k) * pow2(k) <= x < (floor_shift(x, k) + 1) * pow2(k),
{
    lemma_pow2_pos(k);
    let p = pow2(k) as int;
    assert((x / p) * p <= x < (x / p + 1) * p) by (nonlinear_arith)
        requires p > 0;
}

/// Any `q` with `q * 2^k <= x < (q + 1) * 2^k` is `floor_shift(x, k)`.
pub proof fn lemma_floor_shift_unique(x: int, k: nat, q: int)
    requires
        q * pow2(k) <= x < (q + 1) * pow2(k),
    ensures
        floor_shift(x, k) == q,
{
    lemma_pow2_pos(k);
    let p = pow2(k) as int;
    assert(x / p == q) by (nonlinear_arith)
        requires p > 0, q * p <= x < (q + 1) * p;
}

/// Shifting by nothing changes nothing.
pub proof fn lemma_floor_shift_zero(x: int)
    ensures
        floor_shift(x, 0) == x,
{
    lemma2_to64();
}

/// Shifting by one more halves the result.
pub proof fn lemma_floor_shift_step(x: int, k: nat)
    ensures
        floor_shift(x, k + 1) == floor_shift(x, k) / 2,
        floor_shift(x, k) == 2 * floor_shift(x, k + 1) + bit(x, k),
        0 <= bit(x, k) <= 1,
{
    lemma_pow2_pos(k);
    lemma_pow2_unfold(k + 1);
    lemma_floor_shift_bounds(x, k);
    let p = pow2(k) as int;
    let q = floor_shift(x, k);
    let h = q / 2;
    assert(h * (2 * p) <= x < (h + 1) * (2 * p)) by (nonlinear_arith)
        requires p > 0, q * p <= x < (q + 1) * p, h == q / 2;
    lemma_floor_shift_unique(x, k + 1, h);
}

/// Doubling a number, with or without one added, and shifting by one more
/// gives the shift of the number itself.
pub proof fn lemma_floor_shift_double(x: int, i: int, k: nat)
    requires
        0 <= i <= 1,
    ensures
        floor_shift(2 * x + i, k + 1) == floor_shift(x, k),
        bit(2 * x + i, 0) == i,
{
    lemma_pow2_pos(k);
    lemma_pow2_unfold(k + 1);
    lemma_floor_shift_bounds(x, k);
    let p = pow2(k) as int;
    let q = floor_shift(x, k);
    assert(q * (2 * p) <= 2 * x + i < (q + 1) * (2 * p)) by (nonlinear_arith)
        requires p > 0, q * p <= x < (q + 1) * p, 0 <= i <= 1;
    lemma_floor_shift_unique(2 * x + i, k + 1, q);
    lemma_floor_shift_zero(2 * x + i);
}

/// Two shifts in a row add up.
pub proof fn lemma_floor_shift_adds(x: int, j: nat, k: nat)
    ensures
        floor_shift(floor_shift(x, j), k) == floor_shift(x, j + k),
{
    lemma_pow2_pos(j);
    lemma_pow2_pos(k);
    lemma_pow2_adds(j, k);
    lemma_floor_shift_bounds(x, j);
    lemma_floor_shift_bounds(floor_shift(x, j), k);
    let pj = pow2(j) as int;
    let pk = pow2(k) as int;
    let a = floor_shift(x, j);
    let q = floor_shift(a, k);
    assert(q * (pj * pk) <= x < (q + 1) * (pj * pk)) by (nonlinear_arith)
        requires pj > 0, pk > 0, a * pj <= x < (a + 1) * pj, q * pk <= a < (q + 1) * pk;
    lemma_floor_shift_unique(x, j + k, q);
}

/// The shift is `0` or `-1` exactly for the numbers in `[-2^k, 2^k)`.
pub proof fn lemma_floor_shift_sign(x: int, k: nat)
    ensures
        floor_shift(x, k) == 0 <==> 0 <= x < pow2(k),
        floor_shift(x, k) == -1 <==> -pow2(k) <= x < 0,
{
    lemma_pow2_pos(k);
    lemma_floor_shift_bounds(x, k);
    let p = pow2(k) as int;
    let q = floor_shift(x, k);
    if 0 <= x < p {
        lemma_floor_shift_unique(x, k, 0);
    }
    if -p <= x < 0 {
        lemma_floor_shift_unique(x, k, -1);
    }
    assert(q == 0 ==> 0 <= x < p) by (nonlinear_arith)
        requires q * p <= x < (q + 1) * p;
    assert(q == -1 ==> -p <= x < 0) by (nonlinear_arith)
        requires q * p <= x < (q + 1) * p;
}

/// Powers of two grow with the exponent.
pub proof fn lemma_pow2_monotone(j: nat, k: nat)
    requires
        j <= k,
    ensures
        pow2(j) <= pow2(k),
{
    if j < k {
        lemma_pow2_strictly_increases(j, k);
    }
}

/// From `2^31` on, a power of two lies beyond every 32-bit coordinate.
pub proof fn lemma_pow2_beyond_i32(k: nat)
    requires
        k >= 31,
    ensures
        pow2(k) >= 0x8000_0000,
{
    lemma2_to64();
    lemma_pow2_monotone(31, k);
}

/// On a 32-bit number the arithmetic right shift is the floor shift.
pub proof fn lemma_shr_is_floor_shift(x: i32, k: u32)
    requires
        k <= 31,
    ensures
        (x >> k) == floor_shift(x as int, k as nat),
    decreases k,
{
    if k == 0 {
        assert(x >> 0u32 == x) by (bit_vector);
        lemma_floor_shift_zero(x as int);
    } else {
        let j = (k - 1) as u32;
        lemma_shr_is_floor_shift(x, j);
        lemma_floor_shift_step(x as int, j as nat);
        let a = x >> j;
        let b = x >> k;
        assert(a == 2 * b + (a & 1) && (a & 1 == 0 || a & 1 == 1)) by (bit_vector)
            requires
                a == x >> j,
                b == x >> k,
                k == j + 1,
                k <= 31,
        ;
    }
}

/// One shifted left is the power of two, as far as it fits.
pub proof fn lemma_shl_is_pow2(k: u32)
    requires
        k <= 62,
    ensures
        (1i64 << k) == pow2(k as nat),
    decreases k,
{
    if k == 0 {
        assert(1i64 << 0u32 == 1) by (bit_vector);
        lemma2_to64();
    } else {
        let j = (k - 1) as u32;
        lemma_shl_is_pow2(j);
        lemma_pow2_unfold(k as nat);
        let a = 1i64 << j;
        let b = 1i64 << k;
        assert(b == 2 * a) by (bit_vector)
            requires
                a == 1i64 << j,
                b == 1i64 << k,
                k == j + 1,
                k <= 62,
        ;
    }
}

} // verus!
