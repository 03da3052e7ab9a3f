use vstd::prelude::*;
use vstd::arithmetic::div_mod::{lemma_fundamental_div_mod_converse, lemma_fundamental_div_mod};

verus! {

/// 2 to the power `k`.
pub open spec fn two_pow(k: nat) -> nat
    decreases k,
{
    if k == 0 {
        1
    } else {
        2 * two_pow((k - 1) as nat)
    }
}

pub proof fn lemma_two_pow_add(a: nat, b: nat)
    ensures
        two_pow(a + b) == two_pow(a) * two_pow(b),
    decreases a,
{
    if a > 0 {
        lemma_two_pow_add((a - 1) as nat, b);
        let x = two_pow((a - 1) as nat);
        let y = two_pow(b);
        assert(((a - 1) as nat + b) as nat == (a + b - 1) as nat);
        assert(two_pow(a + b) == 2 * two_pow((a + b - 1) as nat));
        assert(two_pow(a) == 2 * x);
        assert(two_pow((a + b - 1) as nat) == x * y);
        assert(2 * (x * y) == (2 * x) * y) by (nonlinear_arith);
    } else {
        assert(two_pow(a + b) == two_pow(b));
        assert(two_pow(a) == 1);
    }
}

pub proof fn lemma_two_pow_mono(a: nat, b: nat)
    requires
        a <= b,
    ensures
        1 <= two_pow(a) <= two_pow(b),
    decreases b,
{
    if b > a {
        lemma_two_pow_mono(a, (b - 1) as nat);
    } else if a > 0 {
        lemma_two_pow_mono((a - 1) as nat, (a - 1) as nat);
    }
}

pub proof fn lemma_two_pow_values()
    ensures
        two_pow(10) == 0x400,
        two_pow(11) == 0x800,
        two_pow(12) == 0x1000,
        two_pow(52) == 0x10_0000_0000_0000,
        two_pow(53) == 0x20_0000_0000_0000,
        two_pow(63) == 0x8000_0000_0000_0000,
        two_pow(64) == 0x1_0000_0000_0000_0000,
{
    reveal_with_fuel(two_pow, 65);
}

/// 2 to the power `k`, for `k < 64`.
pub fn pow_two(k: u64) -> (r: u64)
    requires
        k < 64,
    ensures
        r == two_pow(k as nat),
{
    let mut r: u64 = 1;
    let mut i: u64 = 0;
    while i < k
        invariant
            i <= k < 64,
            r == two_pow(i as nat),
        decreases k - i,
    {
        proof {
            lemma_two_pow_mono((i + 1) as nat, 63);
            lemma_two_pow_values();
        }
        r = r * 2;
        i = i + 1;
    }
    r
}

/// Whether the IEEE-754 double with these bits has its sign bit set.
pub open spec fn f64_sign(bits: u64) -> bool {
    bits >= 0x8000_0000_0000_0000
}

/// The biased exponent field of the double with these bits.
pub open spec fn f64_exp(bits: u64) -> int {
    (bits % 0x8000_0000_0000_0000) as int / 0x10_0000_0000_0000
}

/// The fraction field of the double with these bits.
pub open spec fn f64_frac(bits: u64) -> int {
    (bits % 0x8000_0000_0000_0000) as int % 0x10_0000_0000_0000
}

/// The double with these bits is neither infinite nor NaN.
pub open spec fn f64_is_finite(bits: u64) -> bool {
    f64_exp(bits) != 2047
}

/// The double with these bits is NaN.
pub open spec fn f64_is_nan(bits: u64) -> bool {
    f64_exp(bits) == 2047 && f64_frac(bits) != 0
}

/// The significand of a normal double, with its hidden leading bit.
pub open spec fn f64_mant(bits: u64) -> int {
    0x10_0000_0000_0000 + f64_frac(bits)
}

/// The integer that the double with these bits equals, if it is finite and integral.
pub open spec fn f64_int_value(bits: u64) -> Option<int> {
    let e = f64_exp(bits);
    let m = f64_mant(bits);
    let mag: Option<int> = if e == 2047 {
        None
    } else if e == 0 {
        if f64_frac(bits) == 0 {
            Some(0)
        } else {
            None
        }
    } else if e >= 1075 {
        Some(m * two_pow((e - 1075) as nat))
    } else if m % (two_pow((1075 - e) as nat) as int) == 0 {
        Some(m / (two_pow((1075 - e) as nat) as int))
    } else {
        None
    };
    match mag {
        Some(a) => Some(
            if f64_sign(bits) {
                -a
            } else {
                a
            },
        ),
        None => None,
    }
}

/// The magnitude of a finite double with its fraction cut off.
pub open spec fn f64_trunc_abs(bits: u64) -> int {
    let e = f64_exp(bits);
    let m = f64_mant(bits);
    if e == 0 {
        0
    } else if e >= 1075 {
        m * two_pow((e - 1075) as nat)
    } else {
        m / (two_pow((1075 - e) as nat) as int)
    }
}

/// Rust's `as usize` on the double with these bits: NaN and every negative number give 0,
/// positive infinity gives `usize::MAX`, and other numbers lose their fraction and saturate.
pub open spec fn spec_f64_as_usize(bits: u64) -> usize {
    if f64_is_nan(bits) || f64_sign(bits) {
        0
    } else if f64_exp(bits) == 2047 {
        usize::MAX
    } else if f64_trunc_abs(bits) > usize::MAX {
        usize::MAX
    } else {
        f64_trunc_abs(bits) as usize
    }
}

fn decode_bits(bits: u64) -> (r: (bool, u64, u64))
    ensures
        r.0 == f64_sign(bits),
        r.1 == f64_exp(bits),
        r.2 == f64_frac(bits),
        r.1 < 2048,
        r.2 < 0x10_0000_0000_0000,
{
    let rest = bits % 0x8000_0000_0000_0000;
    (bits >= 0x8000_0000_0000_0000, rest / 0x10_0000_0000_0000, rest % 0x10_0000_0000_0000)
}

proof fn lemma_small_mant_not_integral(m: int, k: nat)
    requires
        0 < m < 0x20_0000_0000_0000,
        k >= 53,
    ensures
        m % (two_pow(k) as int) == m,
        m / (two_pow(k) as int) == 0,
{
    lemma_two_pow_mono(53, k);
    lemma_two_pow_values();
    lemma_fundamental_div_mod_converse(m, two_pow(k) as int, 0, m);
}

/// The number `n` (below 2^53, so exactly representable) as the bits of a double.
fn exact_bits(n: u64) -> (bits: u64)
    requires
        n < 0x20_0000_0000_0000,
    ensures
        !f64_sign(bits),
        f64_int_value(bits) == Some(n as int),
{
    proof {
        lemma_two_pow_values();
    }
    if n == 0 {
        assert(f64_exp(0) == 0 && f64_frac(0) == 0);
        return 0;
    }
    let nn = n;
    let mut pw: u64 = 1;
    let mut p: u64 = 0;
    while pw <= nn / 2
        invariant
            1 <= pw <= nn,
            pw == two_pow(p as nat),
            p <= 52,
            nn == n,
            nn < 0x20_0000_0000_0000,
        decreases nn - pw,
    {
        proof {
            lemma_two_pow_values();
            if p >= 52 {
                lemma_two_pow_mono(52, p as nat);
            }
        }
        pw = pw * 2;
        p = p + 1;
    }
    proof {
        if p > 52 {
            lemma_two_pow_mono(53, p as nat);
        }
        lemma_two_pow_add(p as nat, (52 - p) as nat);
    }
    let scale = pow_two(52 - p);
    assert(pw * scale == 0x10_0000_0000_0000);
    assert((nn - pw) * scale < pw * scale) by (nonlinear_arith)
        requires
            nn - pw < pw,
            scale > 0,
    ;
    let frac = (nn - pw) * scale;
    let e = 1023 + p;
    let bits = e * 0x10_0000_0000_0000 + frac;
    proof {
        let t52: int = 0x10_0000_0000_0000;
        lemma_fundamental_div_mod_converse(bits as int, 0x8000_0000_0000_0000, 0, bits as int);
        lemma_fundamental_div_mod_converse(bits as int, t52, e as int, frac as int);
        assert(f64_exp(bits) == e);
        assert(f64_frac(bits) == frac);
        let m = f64_mant(bits);
        assert(m == nn * scale) by (nonlinear_arith)
            requires
                m == t52 + frac,
                frac == (nn - pw) * scale,
                pw * scale == t52,
        ;
        lemma_fundamental_div_mod_converse(m, scale as int, nn as int, 0);
    }
    bits
}

/// How a number is written as a JSON number: as an integer or as a finite double.
pub enum JsonNumber {
    Int(i64),
    Float(u64),
}

/// How the JSON serialiser takes a number: an integral number from -2^63 to 2^63 as that
/// integer (2^63 saturating to `i64::MAX`), any other finite number as a double, and NaN or
/// an infinity as no number at all (`None`, written as `null`).
pub open spec fn spec_json_number(bits: u64) -> Option<JsonNumber> {
    match f64_int_value(bits) {
        Some(v) => if -0x8000_0000_0000_0000 <= v <= 0x8000_0000_0000_0000 {
            Some(
                JsonNumber::Int(
                    if v == 0x8000_0000_0000_0000 {
                        i64::MAX
                    } else {
                        v as i64
                    },
                ),
            )
        } else {
            Some(JsonNumber::Float(bits))
        },
        None => if f64_is_finite(bits) {
            Some(JsonNumber::Float(bits))
        } else {
            None
        },
    }
}

fn signed_int(neg: bool, mag: u64) -> (r: i64)
    requires
        mag <= 0x8000_0000_0000_0000,
    ensures
        r == (if neg {
            -(mag as int)
        } else if mag == 0x8000_0000_0000_0000 {
            i64::MAX as int
        } else {
            mag as int
        }),
{
    if neg {
        if mag == 0x8000_0000_0000_0000 {
            i64::MIN
        } else {
            -(mag as i64)
        }
    } else if mag == 0x8000_0000_0000_0000 {
        i64::MAX
    } else {
        mag as i64
    }
}

/// Classifies a number for JSON output.
pub fn json_number_from_bits(bits: u64) -> (r: Option<JsonNumber>)
    ensures
        r == spec_json_number(bits),
{
    proof {
        lemma_two_pow_values();
    }
    let (neg, e, f) = decode_bits(bits);
    if e == 2047 {
        return None;
    }
    if e == 0 {
        if f == 0 {
            return Some(JsonNumber::Int(0));
        } else {
            return Some(JsonNumber::Float(bits));
        }
    }
    let m: u64 = 0x10_0000_0000_0000 + f;
    if e >= 1075 {
        if e > 1086 || (e == 1086 && f != 0) {
            proof {
                lemma_two_pow_mono(11, (e - 1075) as nat);
                let s = two_pow((e - 1075) as nat) as int;
                if e > 1086 {
                    lemma_two_pow_mono(12, (e - 1075) as nat);
                    assert(m * s >= 0x10_0000_0000_0000 * 0x1000) by (nonlinear_arith)
                        requires
                            m >= 0x10_0000_0000_0000,
                            s >= 0x1000,
                    ;
                } else {
                    assert(m * s > 0x10_0000_0000_0000 * 0x800) by (nonlinear_arith)
                        requires
                            m > 0x10_0000_0000_0000,
                            s == 0x800,
                    ;
                }
            }
            return Some(JsonNumber::Float(bits));
        }
        let s = pow_two(e - 1075);
        proof {
            lemma_two_pow_mono((e - 1075) as nat, 11);
            if e < 1086 {
                lemma_two_pow_mono((e - 1075) as nat, 10);
            }
            if e == 1086 {
                assert(m * s == 0x8000_0000_0000_0000);
            } else {
                assert(m * s <= 0x20_0000_0000_0000 * 0x400) by (nonlinear_arith)
                    requires
                        m < 0x20_0000_0000_0000,
                        s <= 0x400,
                ;
            }
        }
        let mag = m * s;
        Some(JsonNumber::Int(signed_int(neg, mag)))
    } else if e < 1023 {
        proof {
            lemma_small_mant_not_integral(m as int, (1075 - e) as nat);
        }
        Some(JsonNumber::Float(bits))
    } else {
        let d = pow_two(1075 - e);
        proof {
            lemma_two_pow_mono(0, (1075 - e) as nat);
        }
        if m % d == 0 {
            proof {
                assert(m / d <= m) by (nonlinear_arith)
                    requires
                        d >= 1,
                ;
            }
            Some(JsonNumber::Int(signed_int(neg, m / d)))
        } else {
            Some(JsonNumber::Float(bits))
        }
    }
}

/// Rust's `as usize` on the double with these bits.
pub fn f64_bits_as_usize(bits: u64) -> (r: usize)
    ensures
        r == spec_f64_as_usize(bits),
{
    proof {
        lemma_two_pow_values();
    }
    let (neg, e, f) = decode_bits(bits);
    if (e == 2047 && f != 0) || neg {
        return 0;
    }
    if e == 2047 {
        return usize::MAX;
    }
    if e == 0 {
        return 0;
    }
    let m: u64 = 0x10_0000_0000_0000 + f;
    if e >= 1075 {
        if e > 1086 {
            proof {
                lemma_two_pow_mono(12, (e - 1075) as nat);
                let s = two_pow((e - 1075) as nat) as int;
                assert(m * s >= 0x10_0000_0000_0000 * 0x1000) by (nonlinear_arith)
                    requires
                        m >= 0x10_0000_0000_0000,
                        s >= 0x1000,
                ;
            }
            return usize::MAX;
        }
        let s = pow_two(e - 1075);
        proof {
            lemma_two_pow_mono((e - 1075) as nat, 11);
            assert(m * s < 0x20_0000_0000_0000 * 0x800) by (nonlinear_arith)
                requires
                    m < 0x20_0000_0000_0000,
                    s <= 0x800,
                    s >= 1,
            ;
        }
        let t = m * s;
        if t > usize::MAX as u64 {
            usize::MAX
        } else {
            t as usize
        }
    } else if e < 1023 {
        proof {
            lemma_small_mant_not_integral(m as int, (1075 - e) as nat);
        }
        0
    } else {
        let d = pow_two(1075 - e);
        proof {
            lemma_two_pow_mono(0, (1075 - e) as nat);
            assert(m / d <= m) by (nonlinear_arith)
                requires
                    d >= 1,
            ;
        }
        let t = m / d;
        if t > usize::MAX as u64 {
            usize::MAX
        } else {
            t as usize
        }
    }
}

} // verus!

verus! {

/// The number of binary digits of `n`.
pub open spec fn bit_length(n: nat) -> nat
    decreases n,
{
    if n == 0 {
        0
    } else {
        1 + bit_length(n / 2)
    }
}

/// `n` rounded to the nearest double (to 53 significant bits, ties to even).
pub open spec fn round_f64(n: nat) -> nat {
    let l = bit_length(n);
    if l <= 53 {
        n
    } else {
        let d = two_pow((l - 53) as nat);
        let q = n / d;
        let r = n % d;
        let up = r * 2 > d || (r * 2 == d && q % 2 == 1);
        (if up {
            q + 1
        } else {
            q
        }) * d
    }
}

proof fn lemma_bit_length_bounds(n: nat)
    requires
        n > 0,
    ensures
        bit_length(n) >= 1,
        two_pow((bit_length(n) - 1) as nat) <= n < two_pow(bit_length(n)),
    decreases n,
{
    let l = bit_length(n);
    assert(l == 1 + bit_length(n / 2));
    if n / 2 > 0 {
        lemma_bit_length_bounds(n / 2);
        let l2 = bit_length(n / 2);
        assert(two_pow(l) == 2 * two_pow(l2));
        assert(two_pow((l - 1) as nat) == two_pow(l2));
        assert(two_pow((l2 - 1) as nat) * 2 == two_pow(l2));
    } else {
        assert(n == 1);
        assert(bit_length(0) == 0);
        assert(two_pow(1) == 2);
    }
}

proof fn lemma_two_pow_128()
    ensures
        two_pow(128) == 0x1_0000_0000_0000_0000_0000_0000_0000_0000,
{
    lemma_two_pow_values();
    lemma_two_pow_add(64, 64);
    assert(0x1_0000_0000_0000_0000int * 0x1_0000_0000_0000_0000int == 0x1_0000_0000_0000_0000_0000_0000_0000_0000int);
}

pub proof fn lemma_small_bit_length(n: nat, k: nat)
    requires
        n < two_pow(k),
    ensures
        bit_length(n) <= k,
    decreases k,
{
    if n > 0 {
        lemma_bit_length_bounds(n);
        if bit_length(n) > k {
            lemma_two_pow_mono(k, (bit_length(n) - 1) as nat);
        }
    }
}

/// The number `n` rounded to the nearest double, as the bits of that double.
pub fn number_from_u128(n: u128) -> (bits: u64)
    ensures
        !f64_sign(bits),
        f64_int_value(bits) == Some(round_f64(n as nat) as int),
{
    proof {
        lemma_two_pow_values();
    }
    proof {
        lemma_two_pow_128();
    }
    if n < 0x20_0000_0000_0000 {
        proof {
            lemma_small_bit_length(n as nat, 53);
        }
        return exact_bits(n as u64);
    }
    let mut l: u64 = 0;
    let mut m: u128 = n;
    proof {
        lemma_small_bit_length(n as nat, 128);
    }
    while m > 0
        invariant
            bit_length(n as nat) == l + bit_length(m as nat),
            l <= 128,
            m <= n,
            m > 0 ==> l + bit_length(m as nat) <= 128,
        decreases m,
    {
        proof {
            lemma_bit_length_bounds(m as nat);
            lemma_two_pow_128();
            lemma_small_bit_length(n as nat, 128);
        }
        m = m / 2;
        l = l + 1;
    }
    proof {
        lemma_bit_length_bounds(n as nat);
        lemma_small_bit_length(n as nat, 128);
        if l <= 53 {
            lemma_two_pow_mono(l as nat, 53);
        }
    }
    let s = l - 53;
    let mut d: u128 = 1;
    let mut i: u64 = 0;
    while i < s
        invariant
            i <= s <= 75,
            d == two_pow(i as nat),
        decreases s - i,
    {
        proof {
            lemma_two_pow_mono((i + 1) as nat, 127);
            lemma_two_pow_128();
            assert(two_pow(128) == 2 * two_pow(127));
        }
        d = d * 2;
        i = i + 1;
    }
    proof {
        lemma_two_pow_add(s as nat, 52);
        lemma_two_pow_add(s as nat, 53);
        assert(((l - 1) as nat) == (s + 52) as nat);
    }
    let q = n / d;
    let r = n % d;
    proof {
        let t52: int = 0x10_0000_0000_0000;
        let t53: int = 0x20_0000_0000_0000;
        assert(t52 * d <= n < t53 * d);
        assert(t52 <= q < t53) by (nonlinear_arith)
            requires
                t52 * d <= n < t53 * d,
                q == n / d,
                d > 0,
        ;
    }
    let up = r * 2 > d || (r * 2 == d && q % 2 == 1);
    let q2 = if up { q + 1 } else { q };
    let t52: u64 = 0x10_0000_0000_0000;
    let (e, frac) = if q2 == 0x20_0000_0000_0000 {
        (1075 + s + 1, 0u64)
    } else {
        (1075 + s, (q2 as u64) - t52)
    };
    let bits = e * 0x10_0000_0000_0000 + frac;
    proof {
        lemma_fundamental_div_mod_converse(bits as int, 0x8000_0000_0000_0000, 0, bits as int);
        lemma_fundamental_div_mod_converse(bits as int, t52 as int, e as int, frac as int);
        assert(f64_exp(bits) == e);
        assert(f64_frac(bits) == frac);
        if q2 == 0x20_0000_0000_0000 {
            lemma_two_pow_add(1, s as nat);
            assert(((e - 1075) as nat) == (1 + s) as nat);
            assert(t52 * two_pow((1 + s) as nat) == t52 * (2 * two_pow(s as nat))) ;
            assert(t52 * (2 * (d as int)) == (2 * t52) * (d as int)) by (nonlinear_arith);
        }
    }
    bits
}

} // verus!

verus! {

/// `i` rounded to the nearest double (ties to even), with its sign.
pub open spec fn round_f64_signed(i: int) -> int {
    if i < 0 {
        -(round_f64((-i) as nat) as int)
    } else {
        round_f64(i as nat) as int
    }
}

/// The integer `i` as the bits of the nearest double.
pub fn number_from_i64(i: i64) -> (bits: u64)
    ensures
        f64_sign(bits) == (i < 0),
        f64_int_value(bits) == Some(round_f64_signed(i as int)),
{
    if i >= 0 {
        number_from_u128(i as u128)
    } else {
        let mag: u128 = if i == i64::MIN {
            0x8000_0000_0000_0000u128
        } else {
            (-i) as u128
        };
        let b = number_from_u128(mag);
        proof {
            let r = b + 0x8000_0000_0000_0000int;
            assert(((b + 0x8000_0000_0000_0000u64) as int) == r);
            assert((r % 0x8000_0000_0000_0000) == b % 0x8000_0000_0000_0000) by {
                lemma_fundamental_div_mod_converse(r, 0x8000_0000_0000_0000, 1, b as int);
                lemma_fundamental_div_mod_converse(b as int, 0x8000_0000_0000_0000, 0, b as int);
            }
        }
        b + 0x8000_0000_0000_0000
    }
}

} // verus!

verus! {

/// Rust's `as i32` on the double with these bits: NaN gives 0, infinities saturate, and
/// other numbers lose their fraction and saturate to the `i32` range.
pub open spec fn spec_f64_as_i32(bits: u64) -> i32 {
    if f64_is_nan(bits) {
        0
    } else if f64_exp(bits) == 2047 {
        if f64_sign(bits) {
            i32::MIN
        } else {
            i32::MAX
        }
    } else {
        let t = f64_trunc_abs(bits);
        let v = if f64_sign(bits) {
            -t
        } else {
            t
        };
        if v > i32::MAX {
            i32::MAX
        } else if v < i32::MIN {
            i32::MIN
        } else {
            v as i32
        }
    }
}

/// Rust's `as i32` on the double with these bits.
pub fn f64_bits_as_i32(bits: u64) -> (r: i32)
    ensures
        r == spec_f64_as_i32(bits),
{
    proof {
        lemma_two_pow_values();
    }
    let (neg, e, f) = decode_bits(bits);
    if e == 2047 {
        if f != 0 {
            return 0;
        }
        return if neg { i32::MIN } else { i32::MAX };
    }
    if e == 0 {
        return 0;
    }
    let m: u64 = 0x10_0000_0000_0000 + f;
    if e >= 1075 {
        proof {
            lemma_two_pow_mono(0, (e - 1075) as nat);
            let s = two_pow((e - 1075) as nat) as int;
            assert(m * s >= 0x10_0000_0000_0000) by (nonlinear_arith)
                requires
                    m >= 0x10_0000_0000_0000,
                    s >= 1,
            ;
        }
        return if neg { i32::MIN } else { i32::MAX };
    }
    let t: u64 = if e < 1023 {
        proof {
            lemma_small_mant_not_integral(m as int, (1075 - e) as nat);
        }
        0
    } else {
        let d = pow_two(1075 - e);
        proof {
            lemma_two_pow_mono(0, (1075 - e) as nat);
            assert(m / d <= m) by (nonlinear_arith)
                requires
                    d >= 1,
            ;
        }
        m / d
    };
    if neg {
        if t > 0x8000_0000 {
            i32::MIN
        } else {
            (0 - (t as i64)) as i32
        }
    } else {
        if t > 0x7FFF_FFFF {
            i32::MAX
        } else {
            t as i32
        }
    }
}

} // verus!

verus! {

/// A whole number below 2^53 stored as a double reads back unchanged through `as usize`.
pub proof fn lemma_usize_reads_back(bits: u64, n: nat)
    requires
        !f64_sign(bits),
        f64_int_value(bits) == Some(round_f64(n) as int),
        n < 0x20_0000_0000_0000,
        n <= usize::MAX,
    ensures
        spec_f64_as_usize(bits) == n,
{
    lemma_two_pow_values();
    lemma_small_bit_length(n, 53);
    assert(round_f64(n) == n);
    let e = f64_exp(bits);
    assert(e != 2047);
    assert(!f64_is_nan(bits));
    if e != 0 && e < 1075 {
        let d = two_pow((1075 - e) as nat) as int;
        assert(f64_mant(bits) % d == 0);
    }
    assert(f64_trunc_abs(bits) == n);
}

} // verus!

verus! {

/// Law: a JSON number never holds NaN or an infinity: a number that is not finite serialises
/// as `null`, an integral one in the `i64` range as an integer, any other as the same double.
pub proof fn law_json_number_finite(bits: u64)
    ensures
        spec_json_number(bits) is None <==> !f64_is_finite(bits),
        spec_json_number(bits) matches Some(JsonNumber::Float(b)) ==> b == bits && f64_is_finite(b),
        spec_json_number(bits) matches Some(JsonNumber::Int(i)) ==> f64_int_value(bits) is Some,
{
}

} // verus!

verus! {

/// A power of two of more than 53 bits rounds to itself.
pub proof fn lemma_round_power(l: nat)
    requires
        l >= 53,
    ensures
        bit_length(two_pow(l)) == l + 1,
        round_f64(two_pow(l)) == two_pow(l),
{
    let p = two_pow(l);
    lemma_two_pow_mono(0, l);
    lemma_bit_length_bounds(p);
    let b = bit_length(p);
    lemma_small_bit_length(p, l + 1);
    assert(two_pow(l + 1) == 2 * p);
    if b < l + 1 {
        lemma_two_pow_mono(b, l);
        assert(false);
    }
    assert(b == l + 1);
    let d = two_pow((l - 52) as nat);
    lemma_two_pow_add((l - 52) as nat, 52);
    assert(((l - 52) as nat + 52) as nat == l);
    lemma_two_pow_values();
    assert(p == d * 0x10_0000_0000_0000);
    lemma_two_pow_mono(0, (l - 52) as nat);
    lemma_fundamental_div_mod_converse(p as int, d as int, 0x10_0000_0000_0000, 0);
    assert(((b - 53) as nat) == (l - 52) as nat);
}

/// Rounding to the nearest double does not decrease from `n` to `n + 1`.
proof fn lemma_round_step(n: nat)
    ensures
        round_f64(n) <= round_f64(n + 1),
{
    lemma_two_pow_values();
    let l = bit_length(n);
    let l1 = bit_length(n + 1);
    lemma_bit_length_bounds(n + 1);
    if n > 0 {
        lemma_bit_length_bounds(n);
    }
    lemma_small_bit_length(n, l1);
    assert(l <= l1);
    if l1 <= 53 {
        return;
    }
    if l == l1 {
        let d = two_pow((l - 53) as nat);
        lemma_two_pow_mono(0, (l - 53) as nat);
        let q = n / d;
        let r = n % d;
        lemma_fundamental_div_mod(n as int, d as int);
        if r + 1 < d {
            lemma_fundamental_div_mod_converse((n + 1) as int, d as int, q as int, (r + 1) as int);
        } else {
            assert(r + 1 == d);
            assert((n + 1) as int == (q + 1) * d + 0) by (nonlinear_arith)
                requires
                    n == d * q + r,
                    r + 1 == d,
            ;
            lemma_fundamental_div_mod_converse((n + 1) as int, d as int, (q + 1) as int, 0);
        }
        let up = r * 2 > d || (r * 2 == d && q % 2 == 1);
        let q1 = (n + 1) / d;
        let up1 = ((n + 1) % d) * 2 > d || (((n + 1) % d) * 2 == d && q1 % 2 == 1);
        let a = (if up { q + 1 } else { q }) as int;
        let b = (if up1 { q1 + 1 } else { q1 }) as int;
        assert(a <= b);
        assert(a * d <= b * d) by (nonlinear_arith)
            requires
                a <= b,
                d >= 1,
        ;
    } else {
        // `n + 1` is the power of two `2^l`.
        assert(n > 0);
        assert(two_pow(l + 1) == 2 * two_pow(l));
        lemma_two_pow_mono(0, l);
        if l1 - 1 > l {
            lemma_two_pow_mono(l + 1, (l1 - 1) as nat);
            assert(false);
        }
        assert(l1 == l + 1);
        assert(n + 1 == two_pow(l));
        lemma_round_power(l);
        if l > 53 {
            let d = two_pow((l - 53) as nat);
            lemma_two_pow_add((l - 53) as nat, 53);
            assert(((l - 53) as nat + 53) as nat == l);
            assert(two_pow(l) == d * 0x20_0000_0000_0000);
            lemma_two_pow_mono(0, (l - 53) as nat);
            let q = n / d;
            assert(q < 0x20_0000_0000_0000) by (nonlinear_arith)
                requires
                    n < d * 0x20_0000_0000_0000,
                    q == n / d,
                    d >= 1,
            ;
            let a = (if n % d * 2 > d || (n % d * 2 == d && q % 2 == 1) { q + 1 } else { q }) as int;
            assert(a * d <= 0x20_0000_0000_0000 * d) by (nonlinear_arith)
                requires
                    a <= 0x20_0000_0000_0000,
                    d >= 1,
            ;
        }
    }
}

/// Law: rounding to the nearest double keeps order: a larger count of milliseconds never
/// gives a smaller `Date.now` value.
pub proof fn law_round_f64_monotonic(a: nat, b: nat)
    requires
        a <= b,
    ensures
        round_f64(a) <= round_f64(b),
    decreases b - a,
{
    if a < b {
        law_round_f64_monotonic(a, (b - 1) as nat);
        lemma_round_step((b - 1) as nat);
    }
}

} // verus!
