//! Address arithmetic shared by the allocator: powers of two and
//! aligning addresses up or down to a power-of-two boundary.

use vstd::prelude::*;

verus! {

use vstd::arithmetic::power2::pow2;
use vstd::arithmetic::power2::lemma_pow2_adds;
use vstd::arithmetic::power2::lemma_pow2_pos;
use vstd::arithmetic::div_mod::lemma_fundamental_div_mod;
use vstd::arithmetic::div_mod::lemma_fundamental_div_mod_converse_mod;
use vstd::arithmetic::div_mod::lemma_fundamental_div_mod_converse_div;
use vstd::arithmetic::mul::lemma_mul_inequality;
use vstd::arithmetic::mul::lemma_mul_is_commutative;
use vstd::arithmetic::power2::lemma_pow2_strictly_increases;
use vstd::bits::lemma_usize_shl_is_mul;
use vstd::bits::lemma_usize_pow2_no_overflow;
use vstd::layout::unsigned_int_max_values;

/// Allocation failure: no block of the requested size is available, or the
/// request does not meet the allocator's size or alignment constraints.
#[derive(Clone, Copy, Debug, PartialEq, Eq, Structural)]
pub struct AllocErr;

/// Computes `1 << k` as a machine word.
pub fn pow2_usize(k: usize) -> (r: usize)
    requires
        pow2(k as nat) <= usize::MAX,
    ensures
        r == pow2(k as nat),
        r >= 1,
{
    proof {
        unsigned_int_max_values();
        if k as nat >= usize::BITS as nat {
            if k as nat > usize::BITS as nat {
                lemma_pow2_strictly_increases(usize::BITS as nat, k as nat);
            }
            assert(false);
        }
        lemma_usize_pow2_no_overflow(k as nat);
        lemma_usize_shl_is_mul(1, k);
        lemma_pow2_pos(k as nat);
    }
    1usize << k
}

/// `addr` rounded down to the nearest multiple of `align`.
pub fn align_down(addr: usize, align: usize) -> (r: usize)
    requires
        align > 0,
    ensures
        r == (addr as int / align as int) * align as int,
        r % align == 0,
        r <= addr,
        addr - r < align,
{
    let q = addr / align;
    proof {
        lemma_fundamental_div_mod(addr as int, align as int);
    }
    let r = q * align;
    proof {
        lemma_fundamental_div_mod_converse_mod(r as int, align as int, q as int, 0);
    }
    r
}

/// `addr` rounded up to the nearest multiple of `align`.
pub open spec fn spec_align_up(addr: int, align: int) -> int {
    ((addr + align - 1) / align) * align
}

/// `addr` rounded up to the nearest multiple of `align`.
pub fn align_up(addr: usize, align: usize) -> (r: usize)
    requires
        align > 0,
        addr + align - 1 <= usize::MAX,
    ensures
        r == spec_align_up(addr as int, align as int),
        r % align == 0,
        addr <= r,
        r - addr < align,
{
    align_down(addr + (align - 1), align)
}

/// A multiple of `pow2(a + b)` is a multiple of `pow2(a)`.
pub proof fn lemma_pow2_divides(x: int, a: nat, b: nat)
    requires
        x % (pow2(a + b) as int) == 0,
        x >= 0,
    ensures
        x % (pow2(a) as int) == 0,
{
    lemma_pow2_pos(a);
    lemma_pow2_pos(b);
    lemma_pow2_pos(a + b);
    lemma_pow2_adds(a, b);
    let big = pow2(a + b) as int;
    let small = pow2(a) as int;
    lemma_fundamental_div_mod(x, big);
    let q = x / big;
    assert(x == q * (small * pow2(b) as int));
    assert(q * (small * (pow2(b) as int)) == (q * pow2(b) as int) * small) by (nonlinear_arith);
    lemma_fundamental_div_mod_converse_mod(x, small, q * pow2(b) as int, 0);
}

/// If `x` and `y` are multiples of `d`, so are their sum and difference.
pub proof fn lemma_mod_add_sub(x: int, y: int, d: int)
    requires
        d > 0,
        x % d == 0,
        y % d == 0,
    ensures
        (x + y) % d == 0,
        (x - y) % d == 0,
{
    lemma_fundamental_div_mod(x, d);
    lemma_fundamental_div_mod(y, d);
    let qx = x / d;
    let qy = y / d;
    assert(x + y == (qx + qy) * d) by (nonlinear_arith)
        requires x == d * qx, y == d * qy;
    assert(x - y == (qx - qy) * d) by (nonlinear_arith)
        requires x == d * qx, y == d * qy;
    lemma_fundamental_div_mod_converse_mod(x + y, d, qx + qy, 0);
    lemma_fundamental_div_mod_converse_mod(x - y, d, qx - qy, 0);
}

/// Two multiples of `d` less than `d` apart are equal.
pub proof fn lemma_multiple_unique(x: int, y: int, d: int)
    requires
        d > 0,
        x % d == 0,
        y % d == 0,
        x <= y < x + d,
    ensures
        x == y,
{
    lemma_mod_add_sub(y, x, d);
    let diff = y - x;
    lemma_fundamental_div_mod(diff, d);
    let q = diff / d;
    assert(diff == d * q);
    lemma_mul_is_commutative(d, q);
    if q >= 1 {
        lemma_mul_inequality(1, q, d);
        assert(1 * d <= q * d);
        assert(false);
    }
    if q <= -1 {
        lemma_mul_inequality(q, -1, d);
        assert(q * d <= (-1) * d);
        assert(false);
    }
    assert(diff == d * 0) by (nonlinear_arith)
        requires diff == d * q, q == 0;
}

/// A power of two exceeds its exponent.
pub proof fn lemma_pow2_gt(n: nat)
    ensures
        pow2(n) > n,
    decreases n,
{
    if n == 0 {
        vstd::arithmetic::power2::lemma2_to64();
    } else {
        lemma_pow2_gt((n - 1) as nat);
        vstd::arithmetic::power2::lemma_pow2_unfold(n);
    }
}

/// An offset that is a multiple of four, taken modulo a sector size
/// that is also a multiple of four, leaves room for a four-byte field.
pub proof fn lemma_aligned_mod_bound(x: int, b: int)
    requires
        x >= 0,
        b >= 4,
        b % 4 == 0,
        x % 4 == 0,
    ensures
        (x % b) % 4 == 0,
        x % b + 4 <= b,
{
    lemma_fundamental_div_mod(x, b);
    let off = x % b;
    assert(off == x - b * (x / b));
    assert((b * (x / b)) % 4 == 0) by {
        lemma_fundamental_div_mod(b, 4);
        let qb = b / 4;
        assert(b == 4 * qb);
        assert(b * (x / b) == 4 * (qb * (x / b))) by (nonlinear_arith)
            requires b == 4 * qb;
        lemma_fundamental_div_mod_converse_mod(b * (x / b), 4, qb * (x / b), 0);
    }
    lemma_mod_add_sub(x, b * (x / b), 4);
    if off + 4 > b {
        lemma_mod_add_sub(b, off, 4);
        assert((b - off) % 4 == 0);
        assert(0 < b - off < 4);
        lemma_fundamental_div_mod(b - off, 4);
        vstd::arithmetic::div_mod::lemma_small_div_converse(b - off, 4);
        assert(false);
    }
}

/// A quotient scaled back up by its divisor does not exceed the dividend.
pub proof fn lemma_div_mul_le(x: int, d: int)
    requires
        x >= 0,
        d > 0,
    ensures
        (x / d) * d <= x,
        x < (x / d) * d + d,
{
    lemma_fundamental_div_mod(x, d);
    lemma_mul_is_commutative(d, x / d);
}

/// A 32-bit quantity fits the machine word.
pub proof fn lemma_u32_fits_usize()
    ensures
        u32::MAX <= usize::MAX,
        u32::MAX <= u64::MAX,
{
    unsigned_int_max_values();
    vstd::arithmetic::power2::lemma2_to64();
    vstd::arithmetic::power2::lemma2_to64_rest();
    if usize::BITS != 32 {
        assert(usize::BITS == 64);
        lemma_pow2_strictly_increases(32, 64);
    }
}

} // verus!
