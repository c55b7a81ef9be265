use crate::constants::MASS_MAX;
use vstd::arithmetic::div_mod::{
    lemma_div_is_ordered, lemma_div_multiples_vanish, lemma_div_nonincreasing,
    lemma_fundamental_div_mod, lemma_fundamental_div_mod_converse,
    lemma_mod_division_less_than_divisor,
};
use vstd::prelude::*;

verus! {

/// `x` clamped to the range of `i64`.
pub open spec fn sat_i64(x: int) -> int {
    if x > i64::MAX {
        i64::MAX as int
    } else if x < i64::MIN {
        i64::MIN as int
    } else {
        x
    }
}

/// Saturating addition on `i64`.
pub fn sat_add_i64(a: i64, b: i64) -> (r: i64)
    ensures
        r as int == sat_i64(a + b),
{
    if b >= 0 {
        if a > i64::MAX - b {
            i64::MAX
        } else {
            a + b
        }
    } else {
        if a < i64::MIN - b {
            i64::MIN
        } else {
            a + b
        }
    }
}

/// `x` clamped into `i64`, for quotients that may exceed the machine range.
pub fn clamp_i128_to_i64(x: i128) -> (r: i64)
    ensures
        r as int == sat_i64(x as int),
{
    if x > i64::MAX as i128 {
        i64::MAX
    } else if x < i64::MIN as i128 {
        i64::MIN
    } else {
        x as i64
    }
}

/// Floor division of `n` by a positive divisor, the rounding rule used for
/// every mass-weighted average in the engine. Agrees with mathematical
/// integer division (`int` division in contracts) on all admitted inputs.
pub fn div_floor_i128(n: i128, d: i128) -> (r: i128)
    requires
        d > 0,
        n > i128::MIN,
    ensures
        r as int == n as int / d as int,
{
    let du: u128 = d as u128;
    if n >= 0 {
        let q: u128 = (n as u128) / du;
        proof {
            lemma_div_nonincreasing(n as int, d as int);
        }
        q as i128
    } else {
        let m: u128 = (-n) as u128;
        let q: u128 = m / du;
        let rem: u128 = m % du;
        proof {
            lemma_fundamental_div_mod(m as int, d as int);
            lemma_mod_division_less_than_divisor(m as int, d as int);
            lemma_div_nonincreasing(m as int, d as int);
        }
        if rem == 0 {
            proof {
                assert(n as int == (-(q as int)) * (d as int) + 0) by (nonlinear_arith)
                    requires
                        m as int == d as int * (q as int) + rem as int,
                        rem == 0,
                        n as int == -(m as int),
                ;
                lemma_fundamental_div_mod_converse(n as int, d as int, -(q as int), 0);
            }
            -(q as i128)
        } else {
            proof {
                assert(n as int == (-(q as int) - 1) * (d as int) + (d as int - rem as int))
                    by (nonlinear_arith)
                    requires
                        m as int == d as int * (q as int) + rem as int,
                        n as int == -(m as int),
                ;
                lemma_fundamental_div_mod_converse(
                    n as int,
                    d as int,
                    -(q as int) - 1,
                    d as int - rem as int,
                );
            }
            -(q as i128) - 1
        }
    }
}

/// The mass-weighted average of two coordinates, rounded down: the exact
/// integer form of `(xa*ma + xb*mb) / (ma + mb)`.
pub open spec fn wavg(xa: int, ma: int, xb: int, mb: int) -> int {
    (xa * ma + xb * mb) / (ma + mb)
}

/// A weighted average lies between its two inputs.
pub proof fn lemma_wavg_between(xa: int, ma: int, xb: int, mb: int)
    requires
        ma >= 0,
        mb >= 0,
        ma + mb >= 1,
    ensures
        xa <= xb ==> xa <= wavg(xa, ma, xb, mb) <= xb,
        xb <= xa ==> xb <= wavg(xa, ma, xb, mb) <= xa,
{
    let t = ma + mb;
    let lo: int = if xa <= xb {
        xa
    } else {
        xb
    };
    let hi: int = if xa <= xb {
        xb
    } else {
        xa
    };
    assert(lo * t <= xa * ma + xb * mb && xa * ma + xb * mb <= hi * t) by (nonlinear_arith)
        requires
            lo <= xa,
            lo <= xb,
            xa <= hi,
            xb <= hi,
            ma >= 0,
            mb >= 0,
            t == ma + mb,
    ;
    lemma_div_is_ordered(lo * t, xa * ma + xb * mb, t);
    lemma_div_is_ordered(xa * ma + xb * mb, hi * t, t);
    lemma_div_multiples_vanish(lo, t);
    lemma_div_multiples_vanish(hi, t);
}

/// A quotient bracketed by corner multiples of its positive divisor lies
/// between the corners.
pub proof fn lemma_div_in_range(n: int, m: int, lo: int, hi: int)
    requires
        m >= 1,
        lo * m <= n <= hi * m,
    ensures
        lo <= n / m <= hi,
{
    lemma_div_is_ordered(lo * m, n, m);
    lemma_div_is_ordered(n, hi * m, m);
    lemma_div_multiples_vanish(lo, m);
    lemma_div_multiples_vanish(hi, m);
}

/// Executable form of `wavg` on machine integers.
pub fn wavg_i64(xa: i64, ma: u64, xb: i64, mb: u64) -> (r: i64)
    requires
        ma <= MASS_MAX,
        mb <= MASS_MAX,
        ma + mb >= 1,
    ensures
        r as int == wavg(xa as int, ma as int, xb as int, mb as int),
        xa <= xb ==> xa <= r <= xb,
        xb <= xa ==> xb <= r <= xa,
{
    proof {
        assert(-0x8_0000_0000_0000_0000_0000_0000_0000 <= (xa as int) * (ma as int)
            <= 0x8_0000_0000_0000_0000_0000_0000_0000) by (nonlinear_arith)
            requires
                -0x8000_0000_0000_0000 <= (xa as int) <= 0x8000_0000_0000_0000,
                0 <= (ma as int) <= 0x1000_0000_0000,
        ;
        assert(-0x8_0000_0000_0000_0000_0000_0000_0000 <= (xb as int) * (mb as int)
            <= 0x8_0000_0000_0000_0000_0000_0000_0000) by (nonlinear_arith)
            requires
                -0x8000_0000_0000_0000 <= (xb as int) <= 0x8000_0000_0000_0000,
                0 <= (mb as int) <= 0x1000_0000_0000,
        ;
    }
    let pa: i128 = xa as i128 * ma as i128;
    let pb: i128 = xb as i128 * mb as i128;
    let num: i128 = pa + pb;
    let den: i128 = ma as i128 + mb as i128;
    let q: i128 = div_floor_i128(num, den);
    proof {
        lemma_wavg_between(xa as int, ma as int, xb as int, mb as int);
    }
    q as i64
}

/// The non-negative integer square root, rounded down.
pub open spec fn sqrt_floor(x: nat) -> nat
    decreases x,
{
    if x == 0 {
        0
    } else {
        let p = sqrt_floor((x - 1) as nat);
        if (p + 1) * (p + 1) <= x {
            p + 1
        } else {
            p
        }
    }
}

/// `sqrt_floor` is the floor of the real square root.
pub proof fn lemma_sqrt_floor_bounds(x: nat)
    ensures
        (sqrt_floor(x) as int) * (sqrt_floor(x) as int) <= x as int,
        (x as int) < (sqrt_floor(x) as int + 1) * (sqrt_floor(x) as int + 1),
    decreases x,
{
    if x == 0 {
        assert(sqrt_floor(0) == 0);
    } else {
        lemma_sqrt_floor_bounds((x - 1) as nat);
        let p = sqrt_floor((x - 1) as nat) as int;
        if (p + 1) * (p + 1) <= x as int {
            assert(sqrt_floor(x) == p + 1);
            assert((p + 1) * (p + 1) + 1 <= (p + 2) * (p + 2)) by (nonlinear_arith)
                requires
                    0 <= p,
            ;
            assert((x as int) < (p + 2) * (p + 2));
        } else {
            assert(sqrt_floor(x) == p);
        }
    }
}

/// Any value bracketed like a floor square root is the floor square root.
pub proof fn lemma_sqrt_floor_unique(x: nat, r: nat)
    requires
        r * r <= x,
        x < (r + 1) * (r + 1),
    ensures
        r == sqrt_floor(x),
{
    lemma_sqrt_floor_bounds(x);
    let s = sqrt_floor(x);
    if r < s {
        assert((r + 1) * (r + 1) <= s * s) by (nonlinear_arith)
            requires
                r + 1 <= s,
        ;
    }
    if s < r {
        assert((s + 1) * (s + 1) <= r * r) by (nonlinear_arith)
            requires
                s + 1 <= r,
        ;
    }
}

/// Integer square root of a 128-bit value, rounded down.
pub fn isqrt_u128(x: u128) -> (r: u128)
    ensures
        r as nat == sqrt_floor(x as nat),
        r * r <= x,
{
    let mut lo: u128 = 0;
    let mut hi: u128 = 0xffff_ffff_ffff_ffff;
    hi = hi + 1;
    proof {
        assert((hi as int) * (hi as int) > x as int) by (nonlinear_arith)
            requires
                hi as int == 0x1_0000_0000_0000_0000,
                x <= u128::MAX,
        ;
    }
    while hi - lo > 1
        invariant
            lo < hi,
            hi <= 0x1_0000_0000_0000_0000,
            lo * lo <= x,
            (hi as int) * (hi as int) > x as int,
        decreases hi - lo,
    {
        let mid: u128 = lo + (hi - lo) / 2;
        proof {
            assert((mid as int) * (mid as int) < (0x1_0000_0000_0000_0000 as int)
                * (0x1_0000_0000_0000_0000 as int)) by (nonlinear_arith)
                requires
                    0 <= mid as int,
                    (mid as int) < 0x1_0000_0000_0000_0000,
            ;
        }
        if mid * mid <= x {
            lo = mid;
        } else {
            hi = mid;
        }
    }
    proof {
        assert(hi == lo + 1);
        lemma_sqrt_floor_unique(x as nat, lo as nat);
    }
    lo
}

/// The non-negative integer cube root, rounded down.
pub open spec fn cbrt_floor(x: nat) -> nat
    decreases x,
{
    if x == 0 {
        0
    } else {
        let p = cbrt_floor((x - 1) as nat);
        if (p + 1) * (p + 1) * (p + 1) <= x {
            p + 1
        } else {
            p
        }
    }
}

/// `cbrt_floor` is the floor of the real cube root.
pub proof fn lemma_cbrt_floor_bounds(x: nat)
    ensures
        (cbrt_floor(x) as int) * (cbrt_floor(x) as int) * (cbrt_floor(x) as int) <= x as int,
        (x as int) < (cbrt_floor(x) as int + 1) * (cbrt_floor(x) as int + 1) * (cbrt_floor(x)
            as int + 1),
    decreases x,
{
    if x == 0 {
        assert(cbrt_floor(0) == 0);
    } else {
        lemma_cbrt_floor_bounds((x - 1) as nat);
        let p = cbrt_floor((x - 1) as nat) as int;
        if (p + 1) * (p + 1) * (p + 1) <= x as int {
            assert(cbrt_floor(x) == p + 1);
            assert((p + 1) * (p + 1) * (p + 1) + 1 <= (p + 2) * (p + 2) * (p + 2))
                by (nonlinear_arith)
                requires
                    0 <= p,
            ;
            assert((x as int) < (p + 2) * (p + 2) * (p + 2));
        } else {
            assert(cbrt_floor(x) == p);
        }
    }
}

/// Any value bracketed like a floor cube root is the floor cube root.
pub proof fn lemma_cbrt_floor_unique(x: nat, r: nat)
    requires
        r * r * r <= x,
        x < (r + 1) * (r + 1) * (r + 1),
    ensures
        r == cbrt_floor(x),
{
    lemma_cbrt_floor_bounds(x);
    let s = cbrt_floor(x);
    if r < s {
        assert((r + 1) * (r + 1) * (r + 1) <= s * s * s) by (nonlinear_arith)
            requires
                0 <= r,
                r + 1 <= s,
        ;
    }
    if s < r {
        assert((s + 1) * (s + 1) * (s + 1) <= r * r * r) by (nonlinear_arith)
            requires
                0 <= s,
                s + 1 <= r,
        ;
    }
}

/// Integer cube root, rounded down, for values below `2^126`.
pub fn icbrt_u128(x: u128) -> (r: u128)
    requires
        x < 0x4000_0000_0000_0000_0000_0000_0000_0000u128,
    ensures
        r as nat == cbrt_floor(x as nat),
{
    let mut lo: u128 = 0;
    let mut hi: u128 = 0x400_0000_0000;
    proof {
        assert((hi as int) * (hi as int) * (hi as int)
            == 0x4000_0000_0000_0000_0000_0000_0000_0000 as int) by (nonlinear_arith)
            requires
                hi as int == 0x400_0000_0000,
        ;
        assert((hi as int) * (hi as int) * (hi as int) > x as int);
    }
    while hi - lo > 1
        invariant
            lo < hi,
            hi <= 0x400_0000_0000,
            lo * lo * lo <= x,
            (hi as int) * (hi as int) * (hi as int) > x as int,
        decreases hi - lo,
    {
        let mid: u128 = lo + (hi - lo) / 2;
        proof {
            assert((mid as int) * (mid as int) <= (0x400_0000_0000 as int) * (0x400_0000_0000 as int))
                by (nonlinear_arith)
                requires
                    0 <= mid as int,
                    (mid as int) <= 0x400_0000_0000,
            ;
            assert((mid as int) * (mid as int) * (mid as int) <= (0x400_0000_0000 as int)
                * (0x400_0000_0000 as int) * (0x400_0000_0000 as int)) by (nonlinear_arith)
                requires
                    0 <= mid as int,
                    (mid as int) <= 0x400_0000_0000,
            ;
            assert((0x400_0000_0000 as int) * (0x400_0000_0000 as int) * (0x400_0000_0000 as int)
                < u128::MAX as int) by (nonlinear_arith);
        }
        if mid * mid * mid <= x {
            lo = mid;
        } else {
            hi = mid;
        }
    }
    proof {
        assert(hi == lo + 1);
        lemma_cbrt_floor_unique(x as nat, lo as nat);
    }
    lo
}

} // verus!
