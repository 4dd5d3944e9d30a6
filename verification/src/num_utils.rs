//! Small integer helpers shared by the kernel and its libraries.
use vstd::prelude::*;
use vstd::arithmetic::power2::pow2;

verus! {

/// Rounds `val` down to the nearest multiple of `align`.
pub fn align_down(val: usize, align: usize) -> (r: usize)
    requires
        align > 0,
    ensures
        r == (val / align) * align,
        r <= val,
        r % align == 0,
        val - r < align,
{
    proof {
        vstd::arithmetic::div_mod::lemma_fundamental_div_mod(val as int, align as int);
        vstd::arithmetic::mul::lemma_mul_is_commutative((val / align) as int, align as int);
        vstd::arithmetic::div_mod::lemma_mod_multiples_basic((val / align) as int, align as int);
        vstd::arithmetic::div_mod::lemma_mod_bound(val as int, align as int);
    }
    (val / align) * align
}

/// Rounds `val` up to the nearest multiple of `align`.
pub fn align_up(val: usize, align: usize) -> (r: usize)
    requires
        align > 0,
        val + align <= usize::MAX,
    ensures
        r == ((val + align - 1) / align as int) * align,
        r >= val,
        r % align == 0,
        r - val < align,
{
    align_down(val + align - 1, align)
}

/// Divides `val` by `divisor`, rounding up.
pub fn div_ceil(val: usize, divisor: usize) -> (r: usize)
    requires
        divisor > 0,
        val + divisor <= usize::MAX,
    ensures
        r == (val + divisor - 1) / divisor as int,
        r * divisor >= val,
        r == 0 || (r - 1) * divisor < val,
{
    proof {
        let n = val + divisor - 1;
        vstd::arithmetic::div_mod::lemma_fundamental_div_mod(n as int, divisor as int);
        let q = n / divisor as int;
        vstd::arithmetic::div_mod::lemma_mod_bound(n as int, divisor as int);
        vstd::arithmetic::mul::lemma_mul_is_commutative(q, divisor as int);
        assert((q - 1) * divisor == q * divisor - divisor) by (nonlinear_arith);
    }
    (val + divisor - 1) / divisor
}

/// The floor of the base-2 logarithm of `val`.
pub open spec fn spec_log2(val: nat) -> nat
    decreases val,
{
    if val <= 1 {
        0
    } else {
        1 + spec_log2(val / 2)
    }
}

/// Proves that `spec_log2` brackets its argument between consecutive powers of two.
pub proof fn lemma_log2_bounds(val: nat)
    requires
        val >= 1,
    ensures
        pow2(spec_log2(val)) <= val < pow2(spec_log2(val) + 1),
    decreases val,
{
    vstd::arithmetic::power2::lemma_pow2_unfold(spec_log2(val) + 1);
    if val > 1 {
        lemma_log2_bounds(val / 2);
        vstd::arithmetic::power2::lemma_pow2_unfold(spec_log2(val));
    } else {
        vstd::arithmetic::power2::lemma2_to64();
    }
}

/// Proves that the base-2 logarithm of any `usize` is below the bit width of `usize`.
pub proof fn lemma_log2_lt_bits(val: usize)
    requires
        val >= 1,
    ensures
        spec_log2(val as nat) < usize::BITS,
{
    lemma_log2_bounds(val as nat);
    vstd::arithmetic::power2::lemma2_to64();
    if spec_log2(val as nat) >= usize::BITS {
        vstd::arithmetic::power2::lemma_pow2_strictly_increases(usize::BITS as nat, spec_log2(val as nat) + 1);
        assert(usize::BITS == 32 || usize::BITS == 64);
        if spec_log2(val as nat) > usize::BITS {
            vstd::arithmetic::power2::lemma_pow2_strictly_increases(usize::BITS as nat, spec_log2(val as nat));
        }
    }
}

/// Computes the floor of the base-2 logarithm of `val`.
pub fn log2(val: usize) -> (r: usize)
    requires
        val > 0,
    ensures
        r == spec_log2(val as nat),
        r < usize::BITS,
        pow2(r as nat) <= val < pow2(r as nat + 1),
{
    proof {
        lemma_log2_lt_bits(val);
    }
    let mut v = val;
    let mut r: usize = 0;
    while v > 1
        invariant
            v >= 1,
            r + spec_log2(v as nat) == spec_log2(val as nat),
            spec_log2(val as nat) < usize::BITS,
        decreases v,
    {
        v = v / 2;
        r = r + 1;
    }
    proof {
        lemma_log2_bounds(val as nat);
    }
    r
}

/// Computes the ceiling of the base-2 logarithm of `val`, which is zero for `val <= 1`.
pub fn log2_ceil(val: usize) -> (r: usize)
    ensures
        val <= 1 ==> r == 0,
        val > 1 ==> r == spec_log2((val - 1) as nat) + 1,
        val > 1 ==> pow2((r - 1) as nat) < val <= pow2(r as nat),
{
    if val <= 1 {
        return 0;
    }
    let l = log2(val - 1);
    l + 1
}

} // verus!
