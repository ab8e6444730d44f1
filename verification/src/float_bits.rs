use vstd::prelude::*;
use crate::json::{Json, JsonNumber, JsonV};

verus! {

/// Sign bit of an IEEE-754 single given by its bits.
pub open spec fn f32_sign(b: u32) -> int {
    b as int / 0x8000_0000
}

/// Biased exponent of an IEEE-754 single given by its bits.
pub open spec fn f32_exponent(b: u32) -> int {
    (b as int / 0x80_0000) % 256
}

/// Fraction field of an IEEE-754 single given by its bits.
pub open spec fn f32_fraction(b: u32) -> int {
    b as int % 0x80_0000
}

/// Doubles `m` until it reaches 2^23: the result and the number of doublings.
pub open spec fn normalize(m: nat) -> (nat, nat)
    decreases (if m < 0x80_0000 { 0x80_0000 - m } else { 0 }),
{
    if m == 0 || m >= 0x80_0000 {
        (m, 0)
    } else {
        let (a, s) = normalize(2 * m);
        (a, s + 1)
    }
}

/// The bits of the IEEE-754 double equal to the finite single with bits `b`
/// (the exact widening `f32 as f64`).
pub open spec fn f32_to_f64_bits(b: u32) -> int {
    let s = f32_sign(b);
    let e = f32_exponent(b);
    let f = f32_fraction(b);
    if e == 0 && f == 0 {
        s * 0x8000_0000_0000_0000
    } else if e == 0 {
        let (a, sh) = normalize(f as nat);
        s * 0x8000_0000_0000_0000 + (897 - sh) * 0x10_0000_0000_0000 + (a - 0x80_0000) * 0x2000_0000
    } else {
        s * 0x8000_0000_0000_0000 + (e + 896) * 0x10_0000_0000_0000 + f * 0x2000_0000
    }
}

/// The JSON value of a single-precision number: `null` for infinities and NaN,
/// otherwise the double of the same value.
pub open spec fn f32_json(b: u32) -> JsonV {
    if f32_exponent(b) == 255 {
        JsonV::Null
    } else {
        JsonV::Number(JsonNumber::Float(f32_to_f64_bits(b) as u64))
    }
}

/// Two to the power `n`.
pub open spec fn two_pow(n: nat) -> nat
    decreases n,
{
    if n == 0 { 1 } else { 2 * two_pow((n - 1) as nat) }
}

proof fn lemma_two_pow_mono(a: nat, b: nat)
    requires
        a <= b,
    ensures
        two_pow(a) <= two_pow(b),
    decreases b,
{
    if a < b {
        lemma_two_pow_mono(a, (b - 1) as nat);
    }
}

proof fn lemma_normalize_bounds_from(m: nat, k: nat)
    requires
        two_pow(k) <= m < 0x80_0000,
        k <= 22,
    ensures
        0x80_0000 <= normalize(m).0 < 0x100_0000,
        1 <= normalize(m).1 <= 23 - k,
    decreases 23 - k,
{
    reveal_with_fuel(normalize, 2);
    if 2 * m < 0x80_0000 {
        assert(two_pow(23) == 0x80_0000) by {
            reveal_with_fuel(two_pow, 24);
        }
        if k + 1 > 22 {
            lemma_two_pow_mono(23, k + 1);
        }
        lemma_normalize_bounds_from(2 * m, k + 1);
    }
}

proof fn lemma_normalize_bounds(m: nat)
    requires
        0 < m < 0x80_0000,
    ensures
        0x80_0000 <= normalize(m).0 < 0x100_0000,
        1 <= normalize(m).1 <= 23,
{
    lemma_normalize_bounds_from(m, 0);
}

/// The JSON number for a single-precision float given by its bits.
pub fn f32_bits_to_json(b: u32) -> (r: Json)
    ensures
        r@ == f32_json(b),
{
    let s: u64 = (b / 0x8000_0000) as u64;
    let e: u64 = ((b / 0x80_0000) % 256) as u64;
    let f: u64 = (b % 0x80_0000) as u64;
    if e == 255 {
        return Json::Null;
    }
    let bits: u64 = if e == 0 && f == 0 {
        s * 0x8000_0000_0000_0000
    } else if e == 0 {
        let mut m: u64 = f;
        let mut sh: u64 = 0;
        proof {
            lemma_normalize_bounds(f as nat);
        }
        while m < 0x80_0000
            invariant
                0 < m < 0x100_0000,
                sh <= 23,
                normalize(f as nat).0 == normalize(m as nat).0 && normalize(f as nat).1 == normalize(m as nat).1 + sh,
                m >= 0x80_0000 ==> normalize(m as nat) == (m as nat, 0nat),
                m < 0x80_0000 ==> 1 <= normalize(m as nat).1 && normalize(m as nat).1 + sh <= 23,
            decreases (if m < 0x80_0000 { 0x80_0000 - m } else { 0 }),
        {
            proof {
                if 2 * m < 0x80_0000 {
                    lemma_normalize_bounds(2 * m as nat);
                }
            }
            m = m * 2;
            sh = sh + 1;
        }
        s * 0x8000_0000_0000_0000 + (897 - sh) * 0x10_0000_0000_0000 + (m - 0x80_0000) * 0x2000_0000
    } else {
        s * 0x8000_0000_0000_0000 + (e + 896) * 0x10_0000_0000_0000 + f * 0x2000_0000
    };
    Json::Number(JsonNumber::Float(bits))
}

/// Sign bit of an IEEE-754 double given by its bits.
pub open spec fn f64_sign(d: int) -> int {
    d / 0x8000_0000_0000_0000
}

/// Biased exponent of an IEEE-754 double given by its bits.
pub open spec fn f64_exponent(d: int) -> int {
    (d / 0x10_0000_0000_0000) % 2048
}

/// Fraction field of an IEEE-754 double given by its bits.
pub open spec fn f64_fraction(d: int) -> int {
    d % 0x10_0000_0000_0000
}

/// The magnitude of the finite single with bits `b`, times 2^1075.
pub open spec fn f32_magnitude(b: u32) -> int {
    let e = f32_exponent(b);
    let f = f32_fraction(b);
    if e == 0 {
        f * two_pow(926)
    } else {
        (0x80_0000 + f) * two_pow((e + 925) as nat)
    }
}

/// The magnitude of the finite double with bits `d`, times 2^1075.
pub open spec fn f64_magnitude(d: int) -> int {
    let e = f64_exponent(d);
    let f = f64_fraction(d);
    if e == 0 {
        f * two_pow(1)
    } else {
        (0x10_0000_0000_0000 + f) * two_pow(e as nat)
    }
}

proof fn lemma_two_pow_add(a: nat, b: nat)
    ensures
        two_pow(a + b) == two_pow(a) * two_pow(b),
    decreases a,
{
    if a == 0 {
        assert(two_pow(a) == 1);
        assert(a + b == b);
    } else {
        let p = (a - 1) as nat;
        lemma_two_pow_add(p, b);
        assert(a + b == (p + b) + 1);
        assert(two_pow(a + b) == 2 * two_pow(p + b));
        assert(two_pow(a) == 2 * two_pow(p));
        assert(two_pow(a) * two_pow(b) == 2 * (two_pow(p) * two_pow(b))) by (nonlinear_arith)
            requires
                two_pow(a) == 2 * two_pow(p),
        ;
    }
}

proof fn lemma_normalize_value(m: nat)
    ensures
        normalize(m).0 == m * two_pow(normalize(m).1),
    decreases (if m < 0x80_0000 { 0x80_0000 - m } else { 0 }),
{
    if m == 0 || m >= 0x80_0000 {
        assert(normalize(m) == (m, 0nat));
        assert(two_pow(0) == 1);
        assert(m * two_pow(0) == m);
    } else {
        lemma_normalize_value(2 * m);
        let a = normalize(2 * m).0;
        let s = normalize(2 * m).1;
        assert(normalize(m) == (a, s + 1));
        assert(two_pow(s + 1) == 2 * two_pow(s));
        assert(a == (2 * m) * two_pow(s));
        assert(a == m * two_pow(s + 1)) by (nonlinear_arith)
            requires
                a == (2 * m) * two_pow(s),
                two_pow(s + 1) == 2 * two_pow(s),
        ;
    }
}

/// Reading the fields back from bits laid out as sign, exponent and fraction.
proof fn lemma_f64_fields(s: int, e: int, f: int)
    requires
        0 <= s <= 1,
        0 <= e < 2048,
        0 <= f < 0x10_0000_0000_0000,
    ensures
        0 <= s * 0x8000_0000_0000_0000 + e * 0x10_0000_0000_0000 + f < 0x1_0000_0000_0000_0000,
        f64_sign(s * 0x8000_0000_0000_0000 + e * 0x10_0000_0000_0000 + f) == s,
        f64_exponent(s * 0x8000_0000_0000_0000 + e * 0x10_0000_0000_0000 + f) == e,
        f64_fraction(s * 0x8000_0000_0000_0000 + e * 0x10_0000_0000_0000 + f) == f,
{
    let d = s * 0x8000_0000_0000_0000 + e * 0x10_0000_0000_0000 + f;
    let hi = s * 2048 + e;
    vstd::arithmetic::div_mod::lemma_fundamental_div_mod_converse_div(d, 0x10_0000_0000_0000, hi, f);
    vstd::arithmetic::div_mod::lemma_fundamental_div_mod_converse_mod(d, 0x10_0000_0000_0000, hi, f);
    vstd::arithmetic::div_mod::lemma_fundamental_div_mod_converse_mod(hi, 2048, s, e);
    vstd::arithmetic::div_mod::lemma_fundamental_div_mod_converse_div(
        d,
        0x8000_0000_0000_0000,
        s,
        e * 0x10_0000_0000_0000 + f,
    );
}

proof fn lemma_f32_fields(b: u32)
    ensures
        0 <= f32_sign(b) <= 1,
        0 <= f32_exponent(b) < 256,
        0 <= f32_fraction(b) < 0x80_0000,
{
}

/// Widening keeps the number: for every single `b` that is neither infinite nor
/// NaN, its JSON value is a double with the same sign and the same magnitude.
pub proof fn lemma_f32_widening_exact(b: u32) -> (d: u64)
    requires
        f32_exponent(b) != 255,
    ensures
        f32_json(b) == JsonV::Number(JsonNumber::Float(d)),
        f64_sign(d as int) == f32_sign(b),
        f64_exponent(d as int) != 2047,
        f64_magnitude(d as int) == f32_magnitude(b),
{
    lemma_f32_fields(b);
    let s = f32_sign(b);
    let e = f32_exponent(b);
    let f = f32_fraction(b);
    assert(two_pow(29) == 0x2000_0000) by {
        reveal_with_fuel(two_pow, 30);
    }
    if e == 0 && f == 0 {
        lemma_f64_fields(s, 0, 0);
        assert(f32_magnitude(b) == 0);
    } else if e == 0 {
        let (a, sh) = normalize(f as nat);
        lemma_normalize_bounds(f as nat);
        lemma_normalize_value(f as nat);
        let fe = (a - 0x80_0000) * 0x2000_0000;
        lemma_f64_fields(s, 897 - sh, fe);
        lemma_two_pow_add(sh, (897 - sh) as nat);
        lemma_two_pow_add(29, 897);
        let tp = two_pow((897 - sh) as nat);
        assert(f64_magnitude(f32_to_f64_bits(b)) == (0x10_0000_0000_0000 + fe) * tp);
        assert((0x10_0000_0000_0000 + fe) * tp == 0x2000_0000 * (a * tp)) by (nonlinear_arith)
            requires
                fe == (a - 0x80_0000) * 0x2000_0000,
        ;
        assert(a * tp == f * two_pow(897)) by (nonlinear_arith)
            requires
                a == f * two_pow(sh),
                two_pow(897) == two_pow(sh) * tp,
        ;
        assert(0x2000_0000 * (f * two_pow(897)) == f * two_pow(926)) by (nonlinear_arith)
            requires
                two_pow(926) == 0x2000_0000 * two_pow(897),
        ;
    } else {
        lemma_f64_fields(s, e + 896, f * 0x2000_0000);
        lemma_two_pow_add(29, (e + 896) as nat);
        let tp = two_pow((e + 896) as nat);
        assert((0x10_0000_0000_0000 + f * 0x2000_0000) * tp == (0x80_0000 + f) * (0x2000_0000 * tp))
            by (nonlinear_arith);
    }
    f32_to_f64_bits(b) as u64
}

} // verus!
