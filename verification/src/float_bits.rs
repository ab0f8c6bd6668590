//! Integers as IEEE-754 binary64 bit patterns, the form in which this
//! crate stores floating-point block fields.
use vstd::arithmetic::div_mod::*;
use vstd::arithmetic::mul::*;
use vstd::arithmetic::power2::*;
use vstd::bits::*;
use vstd::prelude::*;

verus! {

/// Whether the sign bit of `b` is set.
pub open spec fn f64_sign(b: u64) -> bool {
    b >= 0x8000_0000_0000_0000
}

/// The biased exponent field of `b`.
pub open spec fn f64_exponent(b: u64) -> int {
    (b as int / 0x10_0000_0000_0000) % 2048
}

/// The fraction field of `b`.
pub open spec fn f64_fraction(b: u64) -> int {
    b as int % 0x10_0000_0000_0000
}

/// Whether the binary64 number with bits `b` is exactly the integer `v`:
/// zero is all bits clear; otherwise the sign bit gives the sign, the
/// exponent is that of a normal number and the significand (the fraction
/// with its leading one) scaled by the exponent is `|v|`.
pub open spec fn f64_holds_int(b: u64, v: int) -> bool {
    if v == 0 {
        b == 0
    } else {
        let e = f64_exponent(b);
        let m = 0x10_0000_0000_0000 + f64_fraction(b);
        let a = if v < 0 { -v } else { v };
        &&& f64_sign(b) == (v < 0)
        &&& 1023 <= e < 2047
        &&& if e >= 1075 {
            m * pow2((e - 1075) as nat) == a
        } else {
            m == a * pow2((1075 - e) as nat)
        }
    }
}

/// The position of the highest set bit of `a`.
fn highest_bit(a: u64) -> (k: u64)
    requires
        a > 0,
    ensures
        k < 64,
        pow2(k as nat) <= a < pow2(k as nat + 1),
{
    let mut k: u64 = 0;
    proof {
        lemma2_to64();
    }
    while k < 63 && (a >> (k + 1)) != 0
        invariant
            k <= 63,
            pow2(k as nat) <= a,
        decreases 63 - k,
    {
        proof {
            lemma_u64_shr_is_div(a, (k + 1) as u64);
            lemma_pow2_pos(k as nat + 1);
            lemma_fundamental_div_mod(a as int, pow2(k as nat + 1) as int);
            lemma_mod_bound(a as int, pow2(k as nat + 1) as int);
            assert(pow2(k as nat + 1) * (a as int / pow2(k as nat + 1) as int) >= pow2(k as nat + 1)) by (nonlinear_arith)
                requires
                    a as int / pow2(k as nat + 1) as int >= 1,
                    pow2(k as nat + 1) > 0,
            ;
        }
        k = k + 1;
    }
    proof {
        if k < 63 {
            lemma_u64_shr_is_div(a, (k + 1) as u64);
            lemma_pow2_pos(k as nat + 1);
            lemma_fundamental_div_mod(a as int, pow2(k as nat + 1) as int);
            lemma_mod_bound(a as int, pow2(k as nat + 1) as int);
        }
    }
    k
}

/// The bit pattern of the binary64 number nearest to `v` (ties to even).
/// Integers of magnitude below 2^53 are held exactly.
pub fn i64_to_f64_bits(v: i64) -> (b: u64)
    ensures
        -0x20_0000_0000_0000 < v < 0x20_0000_0000_0000 ==> f64_holds_int(b, v as int),
        v != 0 ==> f64_sign(b) == (v < 0),
{
    if v == 0 {
        return 0;
    }
    let negative = v < 0;
    let a: u64 = if negative {
        if v == i64::MIN {
            0x8000_0000_0000_0000
        } else {
            (-v) as u64
        }
    } else {
        v as u64
    };
    let k = highest_bit(a);
    proof {
        lemma2_to64();
        lemma2_to64_rest();
    }
    let mut exponent: u64 = 1023 + k;
    let mut significand: u64;
    if k <= 52 {
        proof {
            lemma_pow2_adds(k as nat, (52 - k) as nat);
            lemma_pow2_adds(k as nat + 1, (52 - k) as nat);
            lemma_pow2_pos((52 - k) as nat);
            assert(a * pow2((52 - k) as nat) < pow2(53)) by (nonlinear_arith)
                requires
                    a < pow2(k as nat + 1),
                    pow2(k as nat + 1) * pow2((52 - k) as nat) == pow2(53),
                    pow2((52 - k) as nat) > 0,
            ;
            lemma_u64_shl_is_mul(a, (52 - k) as u64);
        }
        significand = a << (52 - k);
        proof {
            assert(significand >= pow2(52)) by (nonlinear_arith)
                requires
                    significand == a * pow2((52 - k) as nat),
                    a >= pow2(k as nat),
                    pow2(k as nat) * pow2((52 - k) as nat) == pow2(52),
                    pow2((52 - k) as nat) > 0,
            ;
        }
    } else {
        let s: u64 = k - 52;
        proof {
            lemma_u64_shr_is_div(a, s);
            lemma_pow2_adds(52, s as nat);
            lemma_pow2_adds(53, s as nat);
            lemma_pow2_pos(s as nat);
            lemma_div_is_ordered(pow2(k as nat) as int, a as int, pow2(s as nat) as int);
            lemma_div_by_multiple(pow2(52) as int, pow2(s as nat) as int);
            lemma_mul_is_commutative(pow2(53) as int, pow2(s as nat) as int);
            lemma_multiply_divide_lt(a as int, pow2(s as nat) as int, pow2(53) as int);
            lemma_u64_shl_is_mul(1, s);
            lemma_u64_shl_is_mul(1, (s - 1) as u64);
        }
        let q: u64 = a >> s;
        let low_mask: u64 = (1u64 << s) - 1;
        let r: u64 = a & low_mask;
        let half: u64 = 1u64 << (s - 1);
        let round_up = r > half || (r == half && q % 2 == 1);
        significand = q;
        if round_up {
            significand = q + 1;
            if significand == 0x20_0000_0000_0000 {
                significand = 0x10_0000_0000_0000;
                exponent = exponent + 1;
            }
        }
    }
    let sign: u64 = if negative { 0x8000_0000_0000_0000 } else { 0 };
    let fraction: u64 = significand - 0x10_0000_0000_0000;
    let bits = sign + exponent * 0x10_0000_0000_0000 + fraction;
    proof {
        let e = exponent as int;
        let f = fraction as int;
        let hi: int = if negative { 2048 } else { 0 };
        assert(bits as int == (hi + e) * 0x10_0000_0000_0000 + f);
        lemma_fundamental_div_mod_converse(bits as int, 0x10_0000_0000_0000, hi + e, f);
        lemma_fundamental_div_mod_converse(hi + e, 2048, if negative { 1int } else { 0int }, e);
        assert(f64_exponent(bits) == e);
        assert(f64_fraction(bits) == f);
        if -0x20_0000_0000_0000 < v < 0x20_0000_0000_0000 {
            assert(a < pow2(53));
            if k > 52 {
                lemma_pow2_strictly_increases(53, k as nat);
            }
            assert(k <= 52);
            assert((1075 - e) == 52 - k);
            assert(significand == a * pow2((52 - k) as nat));
            assert(0x10_0000_0000_0000 + f == significand);
            assert(a as int == (if v < 0 { -v } else { v as int }));
            assert(f64_sign(bits) == (v < 0));
            assert(1023 <= f64_exponent(bits) < 2047);
            if e >= 1075 {
                assert(e == 1075);
                assert(pow2(0) == 1);
                assert(k == 52);
                assert(pow2((52 - k) as nat) == 1);
                assert(significand == a) by (nonlinear_arith)
                    requires
                        significand == a * pow2((52 - k) as nat),
                        pow2((52 - k) as nat) == 1,
                ;
                assert((0x10_0000_0000_0000 + f64_fraction(bits)) * pow2((e - 1075) as nat) == a);
            } else {
                assert(0x10_0000_0000_0000 + f64_fraction(bits) == a * pow2((1075 - e) as nat));
            }
        }
    }
    bits
}

} // verus!
