//! IEEE-754 binary64 numbers carried by their bit patterns.
use vstd::prelude::*;
use vstd::arithmetic::power2::{pow2, lemma2_to64, lemma_pow2_strictly_increases, lemma_pow2_pos};
use vstd::bits::{lemma_u64_shr_is_div, lemma_u64_shl_is_mul};

verus! {

/// Sign bit of a binary64 pattern.
pub open spec fn f64_negative(b: u64) -> bool {
    b >= 0x8000_0000_0000_0000
}

/// Biased exponent field (0..=2047).
pub open spec fn f64_exponent(b: u64) -> int {
    (b as int / 0x10_0000_0000_0000) % 2048
}

/// Fraction field (52 bits).
pub open spec fn f64_fraction(b: u64) -> int {
    b as int % 0x10_0000_0000_0000
}

pub open spec fn f64_is_nan(b: u64) -> bool {
    f64_exponent(b) == 2047 && f64_fraction(b) != 0
}

pub open spec fn f64_is_infinite(b: u64) -> bool {
    f64_exponent(b) == 2047 && f64_fraction(b) == 0
}

/// Integer significand: the magnitude of a finite value is `significand * 2^scale`.
pub open spec fn f64_significand(b: u64) -> int {
    if f64_exponent(b) == 0 { f64_fraction(b) } else { f64_fraction(b) + 0x10_0000_0000_0000 }
}

pub open spec fn f64_scale(b: u64) -> int {
    if f64_exponent(b) == 0 { -1074 } else { f64_exponent(b) - 1075 }
}

/// Magnitude of a finite value, truncated toward zero.
pub open spec fn f64_truncated(b: u64) -> int {
    if f64_scale(b) >= 0 {
        f64_significand(b) * pow2(f64_scale(b) as nat)
    } else {
        f64_significand(b) / pow2((-f64_scale(b)) as nat) as int
    }
}

/// Whether a finite value is a whole number.
pub open spec fn f64_is_whole(b: u64) -> bool {
    &&& f64_exponent(b) != 2047
    &&& (f64_scale(b) >= 0 || f64_significand(b) % pow2((-f64_scale(b)) as nat) as int == 0)
}

/// The value of `x as usize` for the binary64 number `x`: truncation toward zero,
/// saturating at both ends, with NaN giving zero.
pub open spec fn usize_of_f64_spec(b: u64) -> int {
    if f64_is_nan(b) || f64_negative(b) {
        0
    } else if f64_is_infinite(b) || f64_truncated(b) > usize::MAX {
        usize::MAX as int
    } else {
        f64_truncated(b)
    }
}

/// `x as usize` always lands in the `usize` range.
pub proof fn lemma_usize_of_f64_range(b: u64)
    ensures 0 <= usize_of_f64_spec(b) <= usize::MAX,
{
    let sig = f64_significand(b);
    let sc = f64_scale(b);
    assert(sig >= 0);
    if sc >= 0 {
        let p = pow2(sc as nat);
        assert(sig * p >= 0) by (nonlinear_arith) requires sig >= 0, p >= 0;
    } else {
        lemma_pow2_pos((-sc) as nat);
        let p = pow2((-sc) as nat) as int;
        assert(sig / p >= 0) by (nonlinear_arith) requires sig >= 0, p > 0;
    }
}

/// The binary64 pattern built from its three fields.
pub open spec fn f64_pack(negative: bool, exponent: int, fraction: int) -> int {
    (if negative { 0x8000_0000_0000_0000int } else { 0int }) + exponent * 0x10_0000_0000_0000 + fraction
}

/// Number of binary digits of `x` (0 for 0).
pub open spec fn bit_length(x: nat) -> nat
    decreases x,
{
    if x == 0 { 0 } else { 1 + bit_length(x / 2) }
}

/// The binary64 pattern nearest to a natural number below 2^64
/// (round half to even), as `x as f64` computes it.
pub open spec fn f64_of_nat_spec(x: nat) -> int {
    let n = bit_length(x);
    if x == 0 {
        0
    } else if n <= 53 {
        f64_pack(false, n + 1022int, x * pow2((53 - n) as nat) - 0x10_0000_0000_0000)
    } else {
        let s = (n - 53) as nat;
        let q = x / pow2(s);
        let r = x % pow2(s);
        let half = pow2((s - 1) as nat);
        let up = r > half || (r == half && q % 2 == 1);
        let q2 = if up { q + 1 } else { q };
        if q2 == 0x20_0000_0000_0000 {
            f64_pack(false, n + 1023int, 0)
        } else {
            f64_pack(false, n + 1022int, q2 - 0x10_0000_0000_0000)
        }
    }
}

proof fn lemma_bit_length_bounds(x: nat)
    requires x > 0,
    ensures
        pow2((bit_length(x) - 1) as nat) <= x < pow2(bit_length(x)),
        bit_length(x) >= 1,
    decreases x,
{
    vstd::arithmetic::power2::lemma_pow2_unfold(bit_length(x));
    if x == 1 {
        assert(bit_length(0) == 0);
        assert(bit_length(1) == 1);
        lemma2_to64();
    } else {
        lemma_bit_length_bounds(x / 2);
        vstd::arithmetic::power2::lemma_pow2_unfold((bit_length(x) - 1) as nat);
        if bit_length(x / 2) >= 2 {
            vstd::arithmetic::power2::lemma_pow2_unfold((bit_length(x / 2) - 1) as nat);
        } else {
            lemma2_to64();
        }
    }
}

proof fn lemma_bit_length_unique(x: nat, n: nat)
    requires x > 0, n >= 1, pow2((n - 1) as nat) <= x < pow2(n),
    ensures bit_length(x) == n,
{
    lemma_bit_length_bounds(x);
    let m = bit_length(x);
    if m < n {
        if m <= n - 1 {
            if m < n - 1 { lemma_pow2_strictly_increases(m, (n - 1) as nat); }
        }
    } else if m > n {
        if n < m - 1 { lemma_pow2_strictly_increases(n, (m - 1) as nat); }
    }
}

/// Number of binary digits of a 64-bit value.
fn bits_of(x: u64) -> (n: u64)
    ensures n == bit_length(x as nat), n <= 64,
{
    let mut n: u64 = 0;
    proof { lemma2_to64(); }
    while n < 64 && (x >> n) != 0
        invariant
            n <= 64,
            n > 0 ==> x >= pow2((n - 1) as nat),
        decreases 64 - n,
    {
        proof {
            lemma_u64_shr_is_div(x, n);
            lemma_pow2_pos(n as nat);
            if x < pow2(n as nat) {
                assert(x as nat / pow2(n as nat) == 0) by (nonlinear_arith)
                    requires x < pow2(n as nat), pow2(n as nat) > 0;
            }
        }
        n = n + 1;
    }
    proof {
        if x == 0 {
            assert(bit_length(0) == 0);
            assert(n == 0) by {
                if n > 0 { lemma_pow2_pos((n - 1) as nat); }
            }
        } else {
            if n < 64 {
                lemma_u64_shr_is_div(x, n);
                lemma_pow2_pos(n as nat);
                assert(x < pow2(n as nat)) by (nonlinear_arith)
                    requires x as nat / pow2(n as nat) == 0, pow2(n as nat) > 0;
            } else {
                lemma2_to64_rest_u64max();
            }
            assert(n >= 1) by {
                if n == 0 { lemma2_to64(); assert(x < 1); }
            }
            lemma_bit_length_unique(x as nat, n as nat);
        }
    }
    n
}

proof fn lemma2_to64_rest_u64max()
    ensures pow2(64) == 0x1_0000_0000_0000_0000,
{
    vstd::arithmetic::power2::lemma2_to64_rest();
}


proof fn lemma_div_small(a: int, d: int)
    requires 0 <= a < d,
    ensures a / d == 0,
{
    vstd::arithmetic::div_mod::lemma_basic_div(a, d);
}

/// `x as usize` for the binary64 number whose bit pattern is `b`.
pub fn usize_of_f64(b: u64) -> (r: usize)
    ensures r == usize_of_f64_spec(b),
{
    let exp = (b / 0x10_0000_0000_0000) % 2048;
    let frac = b % 0x10_0000_0000_0000;
    let negative = b >= 0x8000_0000_0000_0000;
    proof {
        lemma2_to64();
        vstd::arithmetic::power2::lemma2_to64_rest();
    }
    if exp == 2047 {
        if frac != 0 || negative {
            return 0;
        }
        return usize::MAX;
    }
    if negative {
        return 0;
    }
    if exp == 0 {
        proof {
            lemma_pow2_strictly_increases(52, 1074);
            assert(frac < pow2(52));
            lemma_div_small(frac as int, pow2(1074) as int);
        }
        return 0;
    }
    let sig = frac + 0x10_0000_0000_0000;
    if exp >= 1075 {
        let s = exp - 1075;
        if s >= 12 {
            proof {
                if s > 12 { lemma_pow2_strictly_increases(12, s as nat); }
                let p = pow2(s as nat);
                assert(sig * p >= 0x1_0000_0000_0000_0000) by (nonlinear_arith)
                    requires sig >= 0x10_0000_0000_0000, p >= 4096;
            }
            return usize::MAX;
        }
        proof {
            let p = pow2(s as nat);
            if s < 11 { lemma_pow2_strictly_increases(s as nat, 11); }
            assert(sig * p <= u64::MAX) by (nonlinear_arith)
                requires sig < 0x20_0000_0000_0000, p <= 2048;
            lemma_u64_shl_is_mul(sig, s);
        }
        let v = sig << s;
        if v > usize::MAX as u64 {
            usize::MAX
        } else {
            v as usize
        }
    } else {
        let s = 1075 - exp;
        if s >= 64 {
            proof {
                lemma_pow2_strictly_increases(53, s as nat);
                assert(sig < pow2(53));
                lemma_div_small(sig as int, pow2(s as nat) as int);
            }
            return 0;
        }
        proof { lemma_u64_shr_is_div(sig, s); }
        let v = sig >> s;
        if v > usize::MAX as u64 {
            usize::MAX
        } else {
            v as usize
        }
    }
}

/// `x as f64` for an unsigned 64-bit integer, as a bit pattern.
pub fn f64_of_u64(x: u64) -> (r: u64)
    ensures r == f64_of_nat_spec(x as nat),
{
    if x == 0 {
        return 0;
    }
    let n = bits_of(x);
    proof {
        lemma_bit_length_bounds(x as nat);
        lemma2_to64();
        vstd::arithmetic::power2::lemma2_to64_rest();
    }
    if n <= 53 {
        let sh = 53 - n;
        proof {
            vstd::arithmetic::power2::lemma_pow2_adds((n - 1) as nat, sh as nat);
            vstd::arithmetic::power2::lemma_pow2_adds(n as nat, sh as nat);
            let p = pow2(sh as nat);
            assert(x * p < pow2(n as nat) * p) by (nonlinear_arith)
                requires x < pow2(n as nat), p > 0;
            assert(x * p >= pow2((n - 1) as nat) * p) by (nonlinear_arith)
                requires x >= pow2((n - 1) as nat), p > 0;
            lemma_pow2_pos(sh as nat);
            lemma_u64_shl_is_mul(x, sh);
        }
        let m = x << sh;
        return (n + 1022) * 0x10_0000_0000_0000 + (m - 0x10_0000_0000_0000);
    }
    let s = n - 53;
    proof {
        lemma_u64_shr_is_div(x, s);
        lemma_pow2_pos(s as nat);
        vstd::arithmetic::power2::lemma_pow2_adds(52, s as nat);
        vstd::arithmetic::power2::lemma_pow2_adds(53, s as nat);
        let p = pow2(s as nat);
        let q = x as int / p as int;
        assert(q * p <= x < (q + 1) * p) by (nonlinear_arith)
            requires p > 0, q == x as int / p as int;
        assert(0x10_0000_0000_0000 <= q < 0x20_0000_0000_0000) by (nonlinear_arith)
            requires
                q * p <= x < (q + 1) * p,
                x >= 0x10_0000_0000_0000 * p,
                x < 0x20_0000_0000_0000 * p,
                p > 0;
        if s < 11 { lemma_pow2_strictly_increases(s as nat, 11); }
        assert(q * p <= u64::MAX);
        lemma_u64_shl_is_mul((x >> s), s);
        lemma_u64_shl_is_mul(1, (s - 1) as u64);
        vstd::arithmetic::power2::lemma_pow2_unfold(s as nat);
        assert(x as int % p as int == x - q * p) by (nonlinear_arith)
            requires p > 0, q == x as int / p as int;
    }
    let q = x >> s;
    let rem = x - (q << s);
    let half = 1u64 << (s - 1);
    let up = rem > half || (rem == half && q % 2 == 1);
    let q2 = if up { q + 1 } else { q };
    if q2 == 0x20_0000_0000_0000 {
        (n + 1023) * 0x10_0000_0000_0000
    } else {
        (n + 1022) * 0x10_0000_0000_0000 + (q2 - 0x10_0000_0000_0000)
    }
}


/// `x as f64` for a signed integer, as a bit pattern.
pub open spec fn f64_of_int_spec(x: int) -> int {
    if x < 0 {
        0x8000_0000_0000_0000int + f64_of_nat_spec((-x) as nat)
    } else {
        f64_of_nat_spec(x as nat)
    }
}

pub proof fn lemma_f64_of_nat_positive(x: nat)
    requires x <= 0x1_0000_0000_0000_0000,
    ensures 0 <= f64_of_nat_spec(x) < 0x8000_0000_0000_0000,
{
    lemma2_to64();
    vstd::arithmetic::power2::lemma2_to64_rest();
    if x > 0 {
        lemma_bit_length_bounds(x);
        let n = bit_length(x);
        if n > 65 {
            lemma_pow2_strictly_increases(64, (n - 1) as nat);
        }
        if n <= 53 {
            lemma_pow2_pos((53 - n) as nat);
            vstd::arithmetic::power2::lemma_pow2_adds((n - 1) as nat, (53 - n) as nat);
            vstd::arithmetic::power2::lemma_pow2_adds(n, (53 - n) as nat);
            let p = pow2((53 - n) as nat);
            assert(x * p < pow2(n) * p) by (nonlinear_arith)
                requires x < pow2(n), p > 0;
            assert(x * p >= pow2((n - 1) as nat) * p) by (nonlinear_arith)
                requires x >= pow2((n - 1) as nat), p > 0;
        } else {
            let s = (n - 53) as nat;
            lemma_pow2_pos(s);
            vstd::arithmetic::power2::lemma_pow2_adds(52, s);
            vstd::arithmetic::power2::lemma_pow2_adds(53, s);
            let p = pow2(s);
            let q = x as int / p as int;
            assert(q * p <= x < (q + 1) * p) by (nonlinear_arith)
                requires p > 0, q == x as int / p as int;
            assert(0x10_0000_0000_0000 <= q < 0x20_0000_0000_0000) by (nonlinear_arith)
                requires
                    q * p <= x < (q + 1) * p,
                    x >= 0x10_0000_0000_0000 * p,
                    x < 0x20_0000_0000_0000 * p,
                    p > 0;
        }
    }
}

/// `x as f64` for a signed 64-bit integer, as a bit pattern.
pub fn f64_of_i64(x: i64) -> (r: u64)
    ensures r == f64_of_int_spec(x as int),
{
    if x < 0 {
        let mag = ((-(x + 1)) as u64) + 1;
        proof { lemma_f64_of_nat_positive(mag as nat); }
        0x8000_0000_0000_0000 + f64_of_u64(mag)
    } else {
        f64_of_u64(x as u64)
    }
}

/// Whether `b` is a finite, non-negative whole number no larger than 2^53, and which.
pub open spec fn f64_small_whole_spec(b: u64) -> Option<int> {
    if f64_is_whole(b) && !f64_negative(b) && f64_truncated(b) <= 0x20_0000_0000_0000 {
        Some(f64_truncated(b))
    } else {
        None
    }
}

/// The value of `b` when it is a non-negative whole number no larger than 2^53.
pub fn f64_small_whole(b: u64) -> (r: Option<u64>)
    ensures
        match r {
            Some(v) => f64_small_whole_spec(b) == Some(v as int),
            None => f64_small_whole_spec(b) is None,
        },
{
    let exp = (b / 0x10_0000_0000_0000) % 2048;
    let frac = b % 0x10_0000_0000_0000;
    proof {
        lemma2_to64();
        vstd::arithmetic::power2::lemma2_to64_rest();
    }
    if exp == 2047 || b >= 0x8000_0000_0000_0000 {
        return None;
    }
    if exp == 0 {
        proof {
            lemma_pow2_strictly_increases(52, 1074);
            vstd::arithmetic::div_mod::lemma_small_mod(frac as nat, pow2(1074));
            lemma_div_small(frac as int, pow2(1074) as int);
        }
        if frac == 0 {
            return Some(0);
        }
        return None;
    }
    let sig = frac + 0x10_0000_0000_0000;
    if exp >= 1075 {
        let s = exp - 1075;
        if s > 1 {
            proof {
                if s > 2 { lemma_pow2_strictly_increases(2, s as nat); }
                let p = pow2(s as nat);
                assert(sig * p > 0x20_0000_0000_0000) by (nonlinear_arith)
                    requires sig >= 0x10_0000_0000_0000, p >= 4;
            }
            return None;
        }
        proof {
            if s == 0 {
                assert(sig * pow2(0) == sig);
            } else {
                assert(sig * pow2(1) == sig * 2);
            }
            lemma_u64_shl_is_mul(sig, s);
        }
        let v = sig << s;
        if v > 0x20_0000_0000_0000 {
            return None;
        }
        return Some(v);
    }
    let s = 1075 - exp;
    if s >= 64 {
        proof {
            lemma_pow2_strictly_increases(53, s as nat);
            assert(sig < pow2(53));
            vstd::arithmetic::div_mod::lemma_small_mod(sig as nat, pow2(s as nat));
        }
        return None;
    }
    proof {
        lemma_u64_shl_is_mul(1, s);
        lemma_pow2_pos(s as nat);
        lemma_u64_shr_is_div(sig, s);
    }
    let unit = 1u64 << s;
    if sig % unit != 0 {
        return None;
    }
    proof {
        assert(sig as int / unit as int <= sig) by (nonlinear_arith)
            requires unit >= 1, sig >= 0;
    }
    Some(sig >> s)
}

/// Biased exponent, fraction and sign of a binary32 pattern.
pub open spec fn f32_exponent(b: u32) -> int {
    (b as int / 0x80_0000) % 256
}

pub open spec fn f32_fraction(b: u32) -> int {
    b as int % 0x80_0000
}

pub open spec fn f32_negative(b: u32) -> bool {
    b >= 0x8000_0000
}

/// `x as f64` for the binary32 number `x`, as a bit pattern: exact for every
/// finite value; NaNs keep their payload and become quiet.
pub open spec fn f64_of_f32_spec(b: u32) -> int {
    let neg = f32_negative(b);
    let e = f32_exponent(b);
    let f = f32_fraction(b);
    if e == 255 {
        if f == 0 {
            f64_pack(neg, 2047, 0)
        } else if f >= 0x40_0000 {
            f64_pack(neg, 2047, f * 0x2000_0000)
        } else {
            f64_pack(neg, 2047, 0x8_0000_0000_0000 + f * 0x2000_0000)
        }
    } else if e == 0 {
        if f == 0 {
            f64_pack(neg, 0, 0)
        } else {
            let k = bit_length(f as nat);
            f64_pack(neg, 873 + k as int, f * pow2((53 - k) as nat) - 0x10_0000_0000_0000)
        }
    } else {
        f64_pack(neg, e + 896, f * 0x2000_0000)
    }
}

/// Integer significand of a binary32 pattern: the magnitude of a finite value is
/// `significand * 2^scale`.
pub open spec fn f32_significand(b: u32) -> int {
    if f32_exponent(b) == 0 { f32_fraction(b) } else { f32_fraction(b) + 0x80_0000 }
}

pub open spec fn f32_scale(b: u32) -> int {
    if f32_exponent(b) == 0 { -149 } else { f32_exponent(b) - 150 }
}

/// Whether the binary64 pattern `x` stands for the same number as the binary32 pattern `u`:
/// the same sign; infinite where `u` is infinite; NaN where `u` is NaN; otherwise finite with
/// the same magnitude (both magnitudes taken in units of 2^-1074).
pub open spec fn f64_equals_f32(x: u64, u: u32) -> bool {
    &&& f64_negative(x) == f32_negative(u)
    &&& (f32_exponent(u) == 255 && f32_fraction(u) == 0) ==> f64_is_infinite(x)
    &&& (f32_exponent(u) == 255 && f32_fraction(u) != 0) ==> f64_is_nan(x)
    &&& f32_exponent(u) != 255 ==> {
        &&& f64_exponent(x) != 2047
        &&& f64_significand(x) * pow2((f64_scale(x) + 1074) as nat)
            == f32_significand(u) * pow2((f32_scale(u) + 1074) as nat)
    }
}

/// The fields of a packed binary64 pattern read back as they were packed.
proof fn lemma_pack_fields(neg: bool, e: int, f: int)
    requires 0 <= e < 2048, 0 <= f < 0x10_0000_0000_0000,
    ensures
        0 <= f64_pack(neg, e, f) <= u64::MAX,
        f64_negative(f64_pack(neg, e, f) as u64) == neg,
        f64_exponent(f64_pack(neg, e, f) as u64) == e,
        f64_fraction(f64_pack(neg, e, f) as u64) == f,
{
    let x = f64_pack(neg, e, f);
    let sb: int = if neg { 1 } else { 0 };
    assert(x == (sb * 2048 + e) * 0x10_0000_0000_0000 + f);
    assert(x <= u64::MAX);
    assert((x as u64) as int == x);
    vstd::arithmetic::div_mod::lemma_fundamental_div_mod_converse(x, 0x10_0000_0000_0000, sb * 2048 + e, f);
    vstd::arithmetic::div_mod::lemma_fundamental_div_mod_converse(sb * 2048 + e, 2048, sb, e);
}

/// Widening a binary32 number to binary64 keeps it: `f64_of_f32_spec(u)` is a binary64 pattern
/// standing for the same number as `u`.
pub proof fn lemma_f64_of_f32_exact(u: u32)
    ensures
        0 <= f64_of_f32_spec(u) <= u64::MAX,
        f64_equals_f32(f64_of_f32_spec(u) as u64, u),
{
    lemma2_to64();
    vstd::arithmetic::power2::lemma2_to64_rest();
    let neg = f32_negative(u);
    let e = f32_exponent(u);
    let f = f32_fraction(u);
    let x = f64_of_f32_spec(u);
    if e == 255 {
        if f == 0 {
            lemma_pack_fields(neg, 2047, 0);
        } else if f >= 0x40_0000 {
            lemma_pack_fields(neg, 2047, f * 0x2000_0000);
        } else {
            lemma_pack_fields(neg, 2047, 0x8_0000_0000_0000 + f * 0x2000_0000);
        }
    } else if e == 0 {
        if f == 0 {
            lemma_pack_fields(neg, 0, 0);
            let b = x as u64;
            assert(f64_significand(b) == 0);
            assert(f32_significand(u) == 0);
            assert(x == f64_pack(neg, 0, 0));
            assert(f64_exponent(b) == 0 && f64_negative(b) == neg);
            assert(0 * pow2((f64_scale(b) + 1074) as nat) == 0 * pow2((f32_scale(u) + 1074) as nat));
            assert(f64_equals_f32(b, u));
        } else {
            let k = bit_length(f as nat);
            lemma_bit_length_bounds(f as nat);
            if k > 23 { lemma_pow2_strictly_increases(23, (k - 1) as nat); }
            let sh = (53 - k) as nat;
            lemma_pow2_pos(sh);
            vstd::arithmetic::power2::lemma_pow2_adds((k - 1) as nat, sh);
            vstd::arithmetic::power2::lemma_pow2_adds(k as nat, sh);
            let pk = pow2(sh);
            assert(f * pk < pow2(k as nat) * pk) by (nonlinear_arith)
                requires f < pow2(k as nat), pk > 0;
            assert(f * pk >= pow2((k - 1) as nat) * pk) by (nonlinear_arith)
                requires f >= pow2((k - 1) as nat), pk > 0;
            lemma_pack_fields(neg, (873 + k) as int, f * pk - 0x10_0000_0000_0000);
            let b = x as u64;
            assert(f64_exponent(b) == 873 + k);
            assert(f64_significand(b) == f * pk);
            assert(f64_scale(b) + 1074 == k + 872);
            vstd::arithmetic::power2::lemma_pow2_adds(sh, (k + 872) as nat);
            assert(sh + (k + 872) == 925);
            assert(f * pk * pow2((k + 872) as nat) == f * pow2(925)) by (nonlinear_arith)
                requires pk * pow2((k + 872) as nat) == pow2(925);
            assert(f32_significand(u) == f);
            assert(f32_scale(u) + 1074 == 925);
            assert(f64_equals_f32(b, u));
        }
    } else {
        assert(f * 0x2000_0000 < 0x10_0000_0000_0000);
        lemma_pack_fields(neg, e + 896, f * 0x2000_0000);
        let b = x as u64;
        assert(f64_significand(b) == f * 0x2000_0000 + 0x10_0000_0000_0000);
        assert(f64_scale(b) + 1074 == e + 895);
        assert(f32_scale(u) + 1074 == e + 924);
        vstd::arithmetic::power2::lemma_pow2_adds(29, (e + 895) as nat);
        assert(29 + (e + 895) == e + 924);
        let a = pow2((e + 895) as nat);
        assert((f * 0x2000_0000 + 0x10_0000_0000_0000) * a == (f + 0x80_0000) * (0x2000_0000 * a)) by (nonlinear_arith);
        assert(pow2((e + 924) as nat) == 0x2000_0000 * a);
        assert(f32_significand(u) == f + 0x80_0000);
        assert(((f32_scale(u) + 1074) as nat) == (e + 924) as nat);
        assert(((f64_scale(b) + 1074) as nat) == (e + 895) as nat);
        assert(f64_significand(b) * pow2((f64_scale(b) + 1074) as nat)
            == f32_significand(u) * pow2((f32_scale(u) + 1074) as nat));
        assert(f64_equals_f32(b, u));
    }
}

/// `x as f64` for the binary32 number whose bit pattern is `b`.
pub fn f64_of_f32(b: u32) -> (r: u64)
    ensures r == f64_of_f32_spec(b),
{
    let sign: u64 = if b >= 0x8000_0000 { 0x8000_0000_0000_0000 } else { 0 };
    let e = ((b / 0x80_0000) % 256) as u64;
    let f = (b % 0x80_0000) as u64;
    if e == 255 {
        if f == 0 {
            return sign + 2047 * 0x10_0000_0000_0000;
        } else if f >= 0x40_0000 {
            return sign + 2047 * 0x10_0000_0000_0000 + f * 0x2000_0000;
        } else {
            return sign + 2047 * 0x10_0000_0000_0000 + 0x8_0000_0000_0000 + f * 0x2000_0000;
        }
    }
    if e == 0 {
        if f == 0 {
            return sign;
        }
        let k = bits_of(f);
        proof {
            lemma_bit_length_bounds(f as nat);
            lemma2_to64();
            vstd::arithmetic::power2::lemma2_to64_rest();
            if k > 23 { lemma_pow2_strictly_increases(23, (k - 1) as nat); }
            let sh = (53 - k) as nat;
            lemma_pow2_pos(sh);
            vstd::arithmetic::power2::lemma_pow2_adds((k - 1) as nat, sh);
            vstd::arithmetic::power2::lemma_pow2_adds(k as nat, sh);
            let p = pow2(sh);
            assert(f * p < pow2(k as nat) * p) by (nonlinear_arith)
                requires f < pow2(k as nat), p > 0;
            assert(f * p >= pow2((k - 1) as nat) * p) by (nonlinear_arith)
                requires f >= pow2((k - 1) as nat), p > 0;
            lemma_u64_shl_is_mul(f, (53 - k) as u64);
        }
        let m = f << (53 - k);
        return sign + (873 + k) * 0x10_0000_0000_0000 + (m - 0x10_0000_0000_0000);
    }
    sign + (e + 896) * 0x10_0000_0000_0000 + f * 0x2000_0000
}

/// A whole number below 2^53 survives the trip through binary64 and back.
pub proof fn lemma_usize_round_trip(x: nat)
    requires x <= 0x20_0000_0000_0000, x <= usize::MAX,
    ensures
        0 <= f64_of_nat_spec(x) <= u64::MAX,
        usize_of_f64_spec(f64_of_nat_spec(x) as u64) == x,
{
    lemma_f64_of_nat_positive(x);
    lemma2_to64();
    vstd::arithmetic::power2::lemma2_to64_rest();
    let b = f64_of_nat_spec(x) as u64;
    if x == 0 {
        assert(b == 0);
        assert(f64_exponent(b) == 0);
        lemma_pow2_pos(1074);
        assert(f64_truncated(b) == 0);
    } else {
        lemma_bit_length_bounds(x);
        let n = bit_length(x);
        if n > 54 {
            lemma_pow2_strictly_increases(53, (n - 1) as nat);
        }
        if n <= 53 {
            let sh = (53 - n) as nat;
            lemma_pow2_pos(sh);
            vstd::arithmetic::power2::lemma_pow2_adds((n - 1) as nat, sh);
            vstd::arithmetic::power2::lemma_pow2_adds(n, sh);
            let p = pow2(sh);
            assert(x * p < pow2(n) * p) by (nonlinear_arith)
                requires x < pow2(n), p > 0;
            assert(x * p >= pow2((n - 1) as nat) * p) by (nonlinear_arith)
                requires x >= pow2((n - 1) as nat), p > 0;
            let fr = x * p - 0x10_0000_0000_0000;
            assert(b as int == (n + 1022) * 0x10_0000_0000_0000 + fr);
            assert(f64_exponent(b) == n + 1022);
            assert(f64_fraction(b) == fr);
            assert(f64_significand(b) == x * p);
            assert(f64_scale(b) == (n as int) - 53);
            if n == 53 {
                assert(p == 1);
                assert(x * p == x) by (nonlinear_arith) requires p == 1;
                assert(f64_truncated(b) == x);
            } else {
                assert(f64_truncated(b) == ((x * p) as int) / (p as int));
                vstd::arithmetic::div_mod::lemma_div_multiples_vanish(x as int, p as int);
            }
        } else {
            assert(x == 0x20_0000_0000_0000);
            assert(n == 54);
            assert(x / pow2(1) == 0x10_0000_0000_0000);
            assert(x % pow2(1) == 0);
            assert(b as int == 1076 * 0x10_0000_0000_0000);
            assert(f64_scale(b) == 1);
            assert(f64_significand(b) == 0x10_0000_0000_0000);
            assert(f64_truncated(b) == x);
        }
    }
    assert(!f64_negative(b));
    assert(!f64_is_nan(b));
    assert(!f64_is_infinite(b));
}

} // verus!
