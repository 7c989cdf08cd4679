//! Integer-only construction of IEEE 754 single-precision bit patterns.
//!
//! A task body that narrows an unsigned sum to a 32-bit float stores the
//! result as a bit pattern ([`crate::value::Value::F32Bits`]).  This module
//! defines that pattern arithmetically — normalization and round-to-nearest,
//! ties-to-even — and proves the executable encoder against it.

use vstd::arithmetic::div_mod::lemma_div_by_multiple;
use vstd::arithmetic::div_mod::lemma_div_is_ordered;
use vstd::arithmetic::div_mod::lemma_fundamental_div_mod;
use vstd::arithmetic::power2::lemma2_to64;
use vstd::arithmetic::power2::lemma2_to64_rest;
use vstd::arithmetic::power2::lemma_pow2_adds;
use vstd::arithmetic::power2::lemma_pow2_pos;
use vstd::arithmetic::power2::lemma_pow2_strictly_increases;
use vstd::arithmetic::power2::pow2;
use vstd::prelude::*;

verus! {

/// The position of the highest set bit: `pow2(log2_floor(x)) <= x` for
/// every positive `x`.
pub open spec fn log2_floor(x: nat) -> nat
    decreases x,
{
    if x < 2 {
        0
    } else {
        1 + log2_floor(x / 2)
    }
}

proof fn lemma_log2_floor_bounds(x: nat)
    requires
        x >= 1,
    ensures
        pow2(log2_floor(x)) <= x < pow2(log2_floor(x) + 1),
    decreases x,
{
    lemma2_to64();
    if x < 2 {
    } else {
        lemma_log2_floor_bounds(x / 2);
        let l = log2_floor(x / 2);
        lemma_fundamental_div_mod(x as int, 2);
        assert(pow2(l + 1) == 2 * pow2(l)) by {
            lemma_pow2_adds(l, 1);
        }
        assert(pow2(l + 2) == 2 * pow2(l + 1)) by {
            lemma_pow2_adds(l + 1, 1);
        }
    }
}

proof fn lemma_pow2_fits_u32(e: nat)
    requires
        pow2(e) < 0x1_0000_0000,
    ensures
        e <= 31,
{
    if e > 31 {
        if e > 32 {
            lemma_pow2_strictly_increases(32, e);
        }
        lemma2_to64();
    }
}

/// The IEEE 754 single-precision bit pattern of the real number `x`,
/// rounded to nearest with ties to even.  Every `u32` stays finite under
/// this encoding, so no overflow case arises.
pub open spec fn f32_bits_of_u32(x: u32) -> u32 {
    if x == 0 {
        0u32
    } else {
        let e = log2_floor(x as nat);
        if e <= 23 {
            (((e + 127) * pow2(23) + (x as nat) * pow2((23 - e) as nat) - pow2(23)) as u32)
        } else {
            let sh = (e - 23) as nat;
            let q = (x as nat) / pow2(sh);
            let r = (x as nat) % pow2(sh);
            let half = pow2((sh - 1) as nat);
            let q2: nat = if r > half || (r == half && q % 2 == 1) {
                q + 1
            } else {
                q
            };
            if q2 == pow2(24) {
                (((e + 128) * pow2(23)) as u32)
            } else {
                (((e + 127) * pow2(23) + q2 - pow2(23)) as u32)
            }
        }
    }
}

/// `pow2` as an executable function.
fn pow2_u64(n: u64) -> (r: u64)
    requires
        n <= 63,
    ensures
        r == pow2(n as nat),
{
    let mut r: u64 = 1;
    let mut i: u64 = 0;
    proof {
        lemma2_to64();
    }
    while i < n
        invariant
            i <= n <= 63,
            r == pow2(i as nat),
        decreases n - i,
    {
        proof {
            lemma_pow2_adds(i as nat, 1);
            lemma_pow2_strictly_increases(i as nat + 1, 64);
            lemma2_to64_rest();
            lemma2_to64();
        }
        r = r * 2;
        i = i + 1;
    }
    r
}

/// The exponent of the highest set bit of a positive `u32`.
fn log2_floor_u32(x: u32) -> (e: u32)
    requires
        x >= 1,
    ensures
        e == log2_floor(x as nat),
        e <= 31,
        pow2(e as nat) <= x < pow2(e as nat + 1),
{
    let mut t: u32 = x;
    let mut e: u32 = 0;
    proof {
        lemma2_to64();
    }
    while t >= 2
        invariant
            1 <= t <= x,
            log2_floor(x as nat) == e + log2_floor(t as nat),
            (t as nat) * pow2(e as nat) <= x as nat,
            e <= 31,
        decreases t,
    {
        proof {
            lemma2_to64();
            lemma_fundamental_div_mod(t as int, 2);
            lemma_pow2_adds(e as nat, 1);
            assert(pow2(e as nat + 1) == 2 * pow2(e as nat));
            // 2^(e+1) <= t * 2^e <= x < 2^32, so the incremented e stays small
            assert(2 * pow2(e as nat) <= (t as nat) * pow2(e as nat)) by (nonlinear_arith)
                requires
                    t >= 2,
            ;
            lemma_pow2_fits_u32(e as nat + 1);
            assert(((t as nat) / 2) * pow2(e as nat + 1) <= (t as nat) * pow2(e as nat))
                by (nonlinear_arith)
                requires
                    t >= 2,
                    pow2(e as nat + 1) == 2 * pow2(e as nat),
                    ((t as nat) / 2) * 2 <= t as nat,
            ;
        }
        t = t / 2;
        e = e + 1;
    }
    proof {
        lemma_log2_floor_bounds(x as nat);
    }
    e
}

/// Encodes `x` as the bit pattern of the nearest `f32`, by integer
/// arithmetic alone.
pub fn u32_to_f32_bits(x: u32) -> (bits: u32)
    ensures
        bits == f32_bits_of_u32(x),
{
    if x == 0 {
        return 0;
    }
    let e = log2_floor_u32(x);
    proof {
        lemma2_to64();
    }
    if e <= 23 {
        let p = pow2_u64((23 - e) as u64);
        proof {
            lemma_pow2_adds(e as nat + 1, (23 - e) as nat);
            assert((x as nat) * pow2((23 - e) as nat) < pow2(e as nat + 1) * pow2(
                (23 - e) as nat,
            )) by (nonlinear_arith)
                requires
                    (x as nat) < pow2(e as nat + 1),
                    pow2((23 - e) as nat) > 0,
            ;
            assert(pow2(e as nat) * pow2((23 - e) as nat) <= (x as nat) * pow2((23 - e) as nat))
                by (nonlinear_arith)
                requires
                    pow2(e as nat) <= (x as nat),
                    pow2((23 - e) as nat) > 0,
            ;
            lemma_pow2_adds(e as nat, (23 - e) as nat);
            lemma_pow2_pos((23 - e) as nat);
        }
        // 2^23 <= m < 2^24: drop the implicit leading bit and pack
        let m: u64 = (x as u64) * p;
        let bits64: u64 = ((e as u64) + 127) * 0x80_0000 + (m - 0x80_0000);
        return bits64 as u32;
    }
    let sh = e - 23;
    let p = pow2_u64(sh as u64);
    proof {
        lemma_pow2_pos(sh as nat);
    }
    let q: u64 = (x as u64) / p;
    let r: u64 = (x as u64) % p;
    let half = pow2_u64((sh - 1) as u64);
    proof {
        lemma_pow2_adds((sh - 1) as nat, 1);
        lemma_pow2_adds(sh as nat, 23);
        lemma_pow2_adds(sh as nat, 24);
        // 2^23 <= q: x >= 2^e = 2^23 * 2^sh
        lemma_div_is_ordered(pow2(e as nat) as int, x as int, p as int);
        lemma_div_by_multiple(pow2(23) as int, p as int);
        assert(q >= pow2(23));
        // q < 2^24: x < 2^(e+1) = 2^24 * 2^sh
        lemma_fundamental_div_mod(x as int, p as int);
        assert((x as nat) < pow2(24) * pow2(sh as nat)) by {
            lemma_pow2_adds(sh as nat, 24);
            lemma_pow2_adds(e as nat, 1);
            assert(e as nat + 1 == sh as nat + 24);
        }
        assert(q < pow2(24)) by (nonlinear_arith)
            requires
                x as int == (p as int) * (q as int) + r as int,
                0 <= r as int && (r as int) < (p as int),
                (x as nat) < pow2(24) * pow2(sh as nat),
                p as nat == pow2(sh as nat),
                p > 0,
        ;
    }
    let q2: u64 = if r > half || (r == half && q % 2 == 1) {
        q + 1
    } else {
        q
    };
    let bits64: u64 = if q2 == 0x100_0000 {
        ((e as u64) + 128) * 0x80_0000
    } else {
        ((e as u64) + 127) * 0x80_0000 + (q2 - 0x80_0000)
    };
    bits64 as u32
}

} // verus!
