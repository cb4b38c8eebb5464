//! Conversion of unsigned integers to 64-bit floats, on their bit patterns.

use vstd::prelude::*;
use vstd::arithmetic::power2::pow2;
use vstd::arithmetic::power2::lemma2_to64;
use vstd::arithmetic::power2::lemma2_to64_rest;
use vstd::arithmetic::power2::lemma_pow2_unfold;
use vstd::arithmetic::power2::lemma_pow2_pos;
use vstd::arithmetic::power2::lemma_pow2_strictly_increases;
use vstd::arithmetic::power2::lemma_pow2_adds;

verus! {

/// The number of binary digits of `x`.
pub open spec fn bit_len(x: nat) -> nat
    decreases x,
{
    if x == 0 {
        0
    } else {
        1 + bit_len(x / 2)
    }
}

/// The bit pattern of the float nearest to `x`, ties going to the even
/// mantissa.
///
/// A number of `p + 1` binary digits has exponent `p`. Up to 53 digits fit
/// the mantissa exactly; beyond that the digits below the mantissa are
/// rounded off, and a mantissa that rounds up to `2^53` carries into the
/// exponent.
pub open spec fn f64_bits_of_nat(x: nat) -> nat {
    if x == 0 {
        0
    } else {
        let p = (bit_len(x) - 1) as nat;
        if p <= 52 {
            ((1023 + p) * pow2(52) + x * pow2((52 - p) as nat) - pow2(52)) as nat
        } else {
            let shift = (p - 52) as nat;
            let q = x / pow2(shift);
            let r = x % pow2(shift);
            let half = pow2((shift - 1) as nat);
            let up: nat = if r > half || (r == half && q % 2 == 1) {
                1
            } else {
                0
            };
            ((1023 + p) * pow2(52) + q + up - pow2(52)) as nat
        }
    }
}

pub proof fn lemma_bit_len_bounds(x: nat)
    requires
        x > 0,
    ensures
        bit_len(x) >= 1,
        pow2((bit_len(x) - 1) as nat) <= x < pow2(bit_len(x)),
    decreases x,
{
    lemma2_to64();
    if x == 1 {
        assert(bit_len(1) == 1 + bit_len(0));
    } else {
        lemma_bit_len_bounds(x / 2);
        lemma_pow2_unfold(bit_len(x / 2));
        lemma_pow2_unfold(bit_len(x));
    }
}

proof fn lemma_pow2_128()
    ensures
        pow2(128) == 0x1_0000_0000_0000_0000_0000_0000_0000_0000,
        pow2(64) == 0x1_0000_0000_0000_0000,
        pow2(52) == 0x10_0000_0000_0000,
        pow2(53) == 0x20_0000_0000_0000,
{
    lemma2_to64();
    lemma2_to64_rest();
    lemma_pow2_adds(64, 64);
    assert(0x1_0000_0000_0000_0000 * 0x1_0000_0000_0000_0000
        == 0x1_0000_0000_0000_0000_0000_0000_0000_0000int) by (nonlinear_arith);
}

fn power_of_two(n: u32) -> (p: u128)
    requires
        n < 128,
    ensures
        p == pow2(n as nat),
        p > 0,
{
    let mut p: u128 = 1;
    let mut k: u32 = 0;
    proof {
        lemma2_to64();
    }
    while k < n
        invariant
            k <= n < 128,
            p == pow2(k as nat),
            p > 0,
        decreases n - k,
    {
        proof {
            lemma_pow2_unfold((k + 1) as nat);
            if k + 1 < 128 {
                lemma_pow2_strictly_increases((k + 1) as nat, 128);
            }
            lemma_pow2_128();
        }
        p = p * 2;
        k = k + 1;
    }
    p
}

fn count_bits(x: u128) -> (n: u32)
    ensures
        n == bit_len(x as nat),
        n <= 128,
{
    let mut rest: u128 = x;
    let mut n: u32 = 0;
    proof {
        lemma_bit_len_u128(x as nat);
    }
    while rest > 0
        invariant
            n + bit_len(rest as nat) == bit_len(x as nat),
            bit_len(x as nat) <= 128,
        decreases rest,
    {
        rest = rest / 2;
        n = n + 1;
    }
    n
}

proof fn lemma_bit_len_u128(x: nat)
    requires
        x <= u128::MAX,
    ensures
        bit_len(x) <= 128,
{
    if x > 0 {
        lemma_bit_len_bounds(x);
        lemma_pow2_128();
        if bit_len(x) > 128 {
            lemma_pow2_strictly_increases(128, (bit_len(x) - 1) as nat);
            if bit_len(x) - 1 == 128 {
            }
        }
    }
}

/// The bit pattern of the float nearest to `x`.
pub fn f64_bits_from_u128(x: u128) -> (bits: u64)
    ensures
        bits == f64_bits_of_nat(x as nat),
{
    if x == 0 {
        return 0;
    }
    let digits: u32 = count_bits(x);
    proof {
        lemma_bit_len_bounds(x as nat);
        lemma_pow2_128();
    }
    let p: u32 = digits - 1;
    let two52: u128 = 0x10_0000_0000_0000;
    let base: u128 = (1023 + p as u128) * two52;
    if p <= 52 {
        let scale: u128 = power_of_two(52 - p);
        proof {
            lemma_pow2_adds(p as nat, (52 - p) as nat);
            lemma_pow2_adds((p + 1) as nat, (52 - p) as nat);
            assert(x * scale >= pow2(52) && x * scale < pow2(53)) by (nonlinear_arith)
                requires
                    pow2(p as nat) <= x < pow2((p + 1) as nat),
                    scale == pow2((52 - p) as nat),
                    pow2(52) == pow2(p as nat) * pow2((52 - p) as nat),
                    pow2(53) == pow2((p + 1) as nat) * pow2((52 - p) as nat),
                    scale > 0,
            ;
            assert(base < 0x8000_0000_0000_0000) by (nonlinear_arith)
                requires
                    base == (1023 + p) * 0x10_0000_0000_0000,
                    p <= 52,
            ;
        }
        let mantissa: u128 = x * scale - two52;
        (base + mantissa) as u64
    } else {
        let shift: u32 = p - 52;
        let unit: u128 = power_of_two(shift);
        let half: u128 = power_of_two(shift - 1);
        let q: u128 = x / unit;
        let r: u128 = x % unit;
        let up: u128 = if r > half || (r == half && q % 2 == 1) {
            1
        } else {
            0
        };
        proof {
            lemma_pow2_adds(52, shift as nat);
            lemma_pow2_adds(53, shift as nat);
            assert(pow2(52) <= q < pow2(53)) by (nonlinear_arith)
                requires
                    pow2(p as nat) <= x < pow2((p + 1) as nat),
                    pow2(p as nat) == pow2(52) * unit,
                    pow2((p + 1) as nat) == pow2(53) * unit,
                    q == x / unit,
                    unit > 0,
            ;
            assert(base < 0x4800_0000_0000_0000) by (nonlinear_arith)
                requires
                    base == (1023 + p) * 0x10_0000_0000_0000,
                    p <= 127,
            ;
        }
        (base + q + up - two52) as u64
    }
}

} // verus!
