use vstd::arithmetic::power2::{lemma2_to64, lemma_pow2_adds, lemma_pow2_strictly_increases, lemma_pow2_unfold, pow2};
use vstd::prelude::*;

use crate::config::{weight_is_valid, WfcWeight};

verus! {

/// `e` is the position of the highest set bit of `n`.
pub open spec fn is_top_bit(n: nat, e: nat) -> bool {
    pow2(e) <= n < pow2(e + 1)
}

/// The 24-bit significand of the positive integer `n` whose highest bit is `e`: `n` itself
/// scaled up, or its 24 high bits rounded to nearest with ties to even.
pub open spec fn significand(n: nat, e: nat) -> nat {
    if e <= 23 {
        n * pow2((23 - e) as nat)
    } else {
        let unit = pow2((e - 23) as nat);
        let q = n / unit;
        let r = n % unit;
        let half = unit / 2;
        if r > half || (r == half && q % 2 == 1) {
            q + 1
        } else {
            q
        }
    }
}

/// The single-precision bit pattern nearest to the positive integer `n` whose highest bit is
/// `e`; a significand that rounds up to `2^24` carries into the exponent.
pub open spec fn f32_bits_with_top(n: nat, e: nat) -> nat {
    ((e + 127) * pow2(23) + significand(n, e) - pow2(23)) as nat
}

/// The single-precision bit pattern of the integer `n`, rounded to nearest, ties to even.
pub open spec fn f32_bits_of(n: nat) -> nat {
    if n == 0 {
        0
    } else {
        f32_bits_with_top(n, choose|e: nat| is_top_bit(n, e))
    }
}

/// A positive integer has one highest bit.
pub proof fn lemma_top_bit_unique(n: nat, e1: nat, e2: nat)
    requires
        is_top_bit(n, e1),
        is_top_bit(n, e2),
    ensures
        e1 == e2,
{
    if e1 < e2 {
        if e1 + 1 < e2 {
            lemma_pow2_strictly_increases(e1 + 1, e2);
        }
    }
    if e2 < e1 {
        if e2 + 1 < e1 {
            lemma_pow2_strictly_increases(e2 + 1, e1);
        }
    }
}

/// `2^k`, for `k` up to 32.
fn power_of_two(k: u64) -> (r: u64)
    requires
        k <= 32,
    ensures
        r == pow2(k as nat),
{
    let mut p: u64 = 1;
    let mut i: u64 = 0;
    proof {
        lemma2_to64();
    }
    while i < k
        invariant
            i <= k <= 32,
            p == pow2(i as nat),
        decreases k - i,
    {
        proof {
            lemma_pow2_unfold((i + 1) as nat);
            if i + 1 < 32 {
                lemma_pow2_strictly_increases((i + 1) as nat, 32);
            }
            lemma2_to64();
        }
        p = p * 2;
        i = i + 1;
    }
    p
}

/// The weight of a count: the single-precision number nearest to `n`, as its bit pattern.
pub fn count_weight(n: u32) -> (r: WfcWeight)
    ensures
        r.0 == f32_bits_of(n as nat),
        n > 0 ==> weight_is_valid(r.0),
{
    if n == 0 {
        return WfcWeight(0);
    }
    let value = n as u64;
    let mut p: u64 = 1;
    let mut e: u64 = 0;
    proof {
        lemma2_to64();
    }
    while p * 2 <= value
        invariant
            1 <= value < pow2(32),
            pow2(32) == 0x1_0000_0000,
            p >= 1,
            p == pow2(e as nat),
            p <= value,
            e <= 31,
        decreases value - p,
    {
        proof {
            lemma_pow2_unfold((e + 1) as nat);
            if e + 1 >= 32 {
                if e + 1 > 32 {
                    lemma_pow2_strictly_increases(32, (e + 1) as nat);
                }
            }
        }
        p = p * 2;
        e = e + 1;
    }
    proof {
        lemma_pow2_unfold((e + 1) as nat);
        assert(is_top_bit(n as nat, e as nat));
        let c = choose|c: nat| is_top_bit(n as nat, c);
        lemma_top_bit_unique(n as nat, c, e as nat);
    }
    let one_unit: u64 = 8388608;
    let base: u64 = (e + 127) * one_unit;
    proof {
        assert(pow2(23) == 8388608) by {
            lemma2_to64();
        }
    }
    let sig: u64 = if e <= 23 {
        let scale = power_of_two(23 - e);
        proof {
            lemma_pow2_adds(e as nat, (23 - e) as nat);
            assert(pow2(e as nat) * pow2((23 - e) as nat) == pow2(23));
            assert(value * scale < pow2((e + 1) as nat) * scale) by (nonlinear_arith)
                requires
                    value < pow2((e + 1) as nat),
                    scale > 0,
            ;
            lemma_pow2_adds((e + 1) as nat, (23 - e) as nat);
            assert(pow2(24) == 16777216) by {
                lemma2_to64();
            }
            assert(pow2(e as nat) * scale <= value * scale) by (nonlinear_arith)
                requires
                    pow2(e as nat) <= value,
                    scale > 0,
            ;
        }
        value * scale
    } else {
        let unit = power_of_two(e - 23);
        let q = value / unit;
        let r = value % unit;
        let half = unit / 2;
        proof {
            lemma_pow2_adds((e - 23) as nat, 23);
            lemma_pow2_adds((e - 23) as nat, 24);
            assert(pow2(24) == 16777216) by {
                lemma2_to64();
            }
            assert(q * unit <= value) by (nonlinear_arith)
                requires
                    q == value / unit,
                    unit > 0,
            ;
            assert(value < (q + 1) * unit) by (nonlinear_arith)
                requires
                    q == value / unit,
                    unit > 0,
            ;
            assert(q < 16777216) by (nonlinear_arith)
                requires
                    q * unit <= value,
                    value < 16777216 * unit,
                    unit > 0,
            ;
            assert(q >= 8388608) by (nonlinear_arith)
                requires
                    value < (q + 1) * unit,
                    8388608 * unit <= value,
                    unit > 0,
            ;
        }
        if r > half || (r == half && q % 2 == 1) {
            q + 1
        } else {
            q
        }
    };
    proof {
        assert(sig == significand(n as nat, e as nat));
        assert(8388608 <= sig <= 16777216);
    }
    let bits = base + sig - one_unit;
    proof {
        assert(bits == f32_bits_with_top(n as nat, e as nat));
    }
    WfcWeight(bits as u32)
}

} // verus!
