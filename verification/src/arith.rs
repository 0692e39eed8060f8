//! Integer arithmetic of the builtins: banker's rounding for `round(int, n)`,
//! modular inverses, and three-argument `pow`.

use vstd::prelude::*;
use vstd::arithmetic::power::pow;
use crate::value::{Value, PyVal};
use crate::error::{EvalError, EvalResult, ErrSpec, result_matches, type_error, exception};
use crate::numeric::{spec_int_of, magnitude};
use crate::text::str_to_string;
use crate::int_bytes::{WideInt, wide_value, wide_ok};
use crate::wide_methods::{round_bigint, spec_round_bigint};

verus! {

/// The absolute value of an integer.
pub open spec fn abs_int(x: int) -> int {
    if x < 0 { -x } else { x }
}

// ---------------------------------------------------------------------------
// Modular inverse
// ---------------------------------------------------------------------------

/// Whether `a` has an inverse modulo `m > 0`.
pub open spec fn invertible(a: int, m: int) -> bool {
    exists|x: int| 0 <= x < m && #[trigger] ((a * x) % m) == 1int % m
}

/// The inverse of `a` modulo `m`, in `[0, m)`, when there is one (there is
/// at most one).
pub open spec fn mod_inv(a: int, m: int) -> int {
    choose|x: int| 0 <= x < m && #[trigger] ((a * x) % m) == 1int % m
}

proof fn lemma_mul_mod_assoc(x: int, y: int, z: int, m: int)
    requires
        m > 0,
    ensures
        ((x * y) % m * z) % m == (x * ((y * z) % m)) % m,
{
    vstd::arithmetic::div_mod::lemma_mul_mod_noop_left(x * y, z, m);
    vstd::arithmetic::div_mod::lemma_mul_mod_noop_right(x, y * z, m);
    vstd::arithmetic::mul::lemma_mul_is_associative(x, y, z);
}

/// Inverses modulo `m` are unique in `[0, m)`.
proof fn lemma_inverse_unique(a: int, x: int, y: int, m: int)
    requires
        m > 0,
        0 <= x < m,
        0 <= y < m,
        (a * x) % m == 1int % m,
        (a * y) % m == 1int % m,
    ensures
        x == y,
{
    // x == x * (a * y) == (x * a) * y == y, modulo m.
    lemma_mul_mod_assoc(x, a, y, m);
    vstd::arithmetic::mul::lemma_mul_is_commutative(x, a);
    vstd::arithmetic::div_mod::lemma_mul_mod_noop_left(1, y, m);
    vstd::arithmetic::div_mod::lemma_mul_mod_noop_right(x, 1, m);
    vstd::arithmetic::div_mod::lemma_small_mod(x as nat, m as nat);
    vstd::arithmetic::div_mod::lemma_small_mod(y as nat, m as nat);
}

/// No integer multiple of `g > 1` is 1.
proof fn lemma_multiple_not_one(g: int, c: int)
    requires
        g > 1,
    ensures
        g * c != 1,
{
    if c == 0 {
        assert(g * c == 0) by (nonlinear_arith) requires c == 0;
    } else if c > 0 {
        assert(g * c >= g) by (nonlinear_arith) requires g > 1, c > 0;
    } else {
        assert(g * c <= -g) by (nonlinear_arith) requires g > 1, c < 0;
    }
}

/// `x` modulo `m`, Euclidean (in `[0, |m|)`).
fn rem_euclid(x: i64, m: i64) -> (r: u64)
    requires
        m != 0,
    ensures
        r as int == (x as int) % abs_int(m as int),
        r < abs_int(m as int),
{
    let mm = magnitude(m);
    let ax = magnitude(x);
    let t = ax % mm;
    proof {
        vstd::arithmetic::div_mod::lemma_fundamental_div_mod(ax as int, mm as int);
        vstd::arithmetic::div_mod::lemma_mod_bound(ax as int, mm as int);
    }
    if x >= 0 || t == 0 {
        proof {
            let q = (ax as int) / (mm as int);
            if x >= 0 {
                assert(x as int == q * mm + t) by (nonlinear_arith)
                    requires ax == x, ax as int == mm * q + t;
                vstd::arithmetic::div_mod::lemma_fundamental_div_mod_converse_mod(x as int, mm as int, q, t as int);
            } else {
                assert(x as int == (-q) * mm + 0) by (nonlinear_arith)
                    requires ax as int == -(x as int), ax as int == mm * q + t, t == 0;
                vstd::arithmetic::div_mod::lemma_fundamental_div_mod_converse_mod(x as int, mm as int, -q, 0);
            }
        }
        t
    } else {
        proof {
            let q = (ax as int) / (mm as int);
            assert(x as int == (-q - 1) * mm + (mm - t)) by (nonlinear_arith)
                requires ax as int == -(x as int), ax as int == mm * q + t;
            vstd::arithmetic::div_mod::lemma_fundamental_div_mod_converse_mod(x as int, mm as int, -q - 1, (mm - t) as int);
        }
        mm - t
    }
}

/// The modular inverse of `a` modulo `m` by the extended Euclidean
/// algorithm, reduced into `[0, |m|)`, or `None` when `a` and `m` are not
/// coprime.
pub fn mod_inverse(a: i64, m: i64) -> (r: Option<i64>)
    requires
        m != 0,
    ensures
        r is Some <==> invertible(a as int, abs_int(m as int)),
        r matches Some(x) ==> x == mod_inv(a as int, abs_int(m as int)),
{
    let ghost mi = abs_int(m as int);
    let modulus: i128 = magnitude(m) as i128;
    let a0: i128 = rem_euclid(a, m) as i128;
    let mut old_r: i128 = a0;
    let mut r: i128 = modulus;
    let mut old_s: i128 = 1;
    let mut s: i128 = 0;
    let ghost mut old_t: int = 0;
    let ghost mut t: int = 1;
    let ghost mut p1: int = 1;
    let ghost mut p2: int = 0;
    let ghost mut p3: int = 0;
    let ghost mut p4: int = 1;
    assert(abs_int(old_s as int) * r + abs_int(s as int) * old_r == mi) by (nonlinear_arith)
        requires old_s == 1, s == 0, r == mi;
    while r != 0
        invariant
            mi == abs_int(m as int),
            mi == modulus,
            1 <= mi <= 0x8000_0000_0000_0000,
            0 <= a0 < mi,
            0 <= old_r <= mi,
            0 <= r <= mi,
            old_r as int == old_s * a0 + old_t * mi,
            r as int == s * a0 + t * mi,
            a0 as int == p1 * old_r + p2 * r,
            mi == p3 * old_r + p4 * r,
            abs_int(old_s as int) * r + abs_int(s as int) * old_r == mi,
            abs_int(old_s as int) <= mi,
            old_s * s <= 0,
            old_r >= 1 || s == 0,
        decreases r,
    {
        let q: i128 = old_r / r;
        proof {
            assert(0 <= q <= old_r) by (nonlinear_arith)
                requires r >= 1, old_r >= 0, q == old_r / r;
            assert(q * r <= old_r && old_r - q * r < r) by (nonlinear_arith)
                requires r >= 1, old_r >= 0, q == old_r / r;
            assert(abs_int(s as int) <= mi) by (nonlinear_arith)
                requires abs_int(old_s as int) * r + abs_int(s as int) * old_r == mi, r >= 1, old_r >= 0,
                    old_r >= 1 || s == 0, abs_int(old_s as int) >= 0, abs_int(s as int) >= 0,
                    s == 0 ==> abs_int(s as int) == 0;
            assert(q * abs_int(s as int) <= mi) by (nonlinear_arith)
                requires abs_int(old_s as int) * r + abs_int(s as int) * old_r == mi, r >= 1, old_r >= 0,
                    0 <= q <= old_r, abs_int(old_s as int) >= 0, abs_int(s as int) >= 0;
            assert(-(mi as int) <= q * s <= mi) by (nonlinear_arith)
                requires q * abs_int(s as int) <= mi, q >= 0,
                    abs_int(s as int) == (if s < 0 { -s } else { s as int });
        }
        let new_r: i128 = old_r - q * r;
        let new_s: i128 = old_s - q * s;
        proof {
            let (o_r, o_s, o_t) = (old_r as int, old_s as int, old_t);
            let (c_r, c_s, c_t) = (r as int, s as int, t);
            assert(new_r as int == new_s * a0 + (o_t - q * c_t) * mi) by (nonlinear_arith)
                requires o_r == o_s * a0 + o_t * mi, c_r == c_s * a0 + c_t * mi,
                    new_r == o_r - q * c_r, new_s == o_s - q * c_s;
            assert(a0 as int == (p1 * q + p2) * c_r + p1 * new_r) by (nonlinear_arith)
                requires a0 as int == p1 * o_r + p2 * c_r, new_r == o_r - q * c_r;
            assert(mi == (p3 * q + p4) * c_r + p3 * new_r) by (nonlinear_arith)
                requires mi == p3 * o_r + p4 * c_r, new_r == o_r - q * c_r;
            assert(abs_int(new_s as int) == abs_int(o_s) + q * abs_int(c_s)) by (nonlinear_arith)
                requires o_s * c_s <= 0, q >= 0, new_s == o_s - q * c_s,
                    abs_int(o_s) == (if o_s < 0 { -o_s } else { o_s }),
                    abs_int(c_s) == (if c_s < 0 { -c_s } else { c_s }),
                    abs_int(new_s as int) == (if new_s < 0 { -new_s } else { new_s as int });
            assert(abs_int(c_s) * new_r + abs_int(new_s as int) * c_r == mi) by (nonlinear_arith)
                requires abs_int(o_s) * c_r + abs_int(c_s) * o_r == mi,
                    abs_int(new_s as int) == abs_int(o_s) + q * abs_int(c_s), new_r == o_r - q * c_r;
            assert(c_s * new_s <= 0) by (nonlinear_arith)
                requires o_s * c_s <= 0, q >= 0, new_s == o_s - q * c_s;
            old_t = c_t;
            t = o_t - q * c_t;
            let (n1, n3) = (p1 * q + p2, p3 * q + p4);
            p2 = p1;
            p4 = p3;
            p1 = n1;
            p3 = n3;
        }
        old_r = r;
        r = new_r;
        old_s = s;
        s = new_s;
    }
    proof {
        assert(a0 as int == p1 * old_r && mi == p3 * old_r);
    }
    if old_r != 1 {
        proof {
            assert(old_r > 1) by (nonlinear_arith)
                requires mi == p3 * old_r, mi >= 1, old_r >= 0, old_r != 1;
            assert(mi > 1) by (nonlinear_arith) requires mi == p3 * old_r, mi >= 1, old_r > 1;
            if invertible(a as int, mi) {
                let x = choose|x: int| 0 <= x < mi && #[trigger] ((a as int * x) % mi) == 1int % mi;
                vstd::arithmetic::div_mod::lemma_small_mod(1, mi as nat);
                vstd::arithmetic::div_mod::lemma_fundamental_div_mod(a as int * x, mi);
                vstd::arithmetic::div_mod::lemma_fundamental_div_mod(a as int, mi);
                let k = (a as int * x) / mi;
                let j = (a as int) / mi;
                let (ai, o) = (a as int, old_r as int);
                assert(ai * x == mi * j * x + a0 * x) by (nonlinear_arith)
                    requires ai == mi * j + a0;
                assert(mi * j * x == o * (p3 * j * x)) by (nonlinear_arith)
                    requires mi == p3 * o;
                assert(a0 * x == o * (p1 * x)) by (nonlinear_arith)
                    requires a0 as int == p1 * o;
                assert(mi * k == o * (p3 * k)) by (nonlinear_arith)
                    requires mi == p3 * o;
                assert(o * (p3 * j * x) + o * (p1 * x) - o * (p3 * k) == o * (p1 * x + j * p3 * x - k * p3)) by (nonlinear_arith);
                assert(old_r * (p1 * x + j * p3 * x - k * p3) == 1);
                lemma_multiple_not_one(old_r as int, p1 * x + j * p3 * x - k * p3);
            }
        }
        return None;
    }
    let ghost os = old_s as int;
    let inv_signed: i128 = if old_s < 0 { old_s + modulus } else { old_s };
    let inv: i128 = if inv_signed >= modulus { inv_signed - modulus } else { inv_signed };
    proof {
        assert(-(mi as int) <= os <= mi);
        // inv == os mod mi, and a0 * os == 1 - old_t * mi.
        assert(inv as int == os + (if os < 0 { mi } else { 0 }) - (if os >= mi { mi } else { 0 }));
        assert(0 <= inv < mi);
        let c: int = if os < 0 { 1 } else if os >= mi { -1 } else { 0 };
        assert(inv as int == os + c * mi) by {
            if os < 0 {
                assert(c * mi == mi);
            } else if os >= mi {
                assert(c * mi == -mi);
            } else {
                assert(c * mi == 0);
            }
        }
        assert(a0 * inv == 1 + (a0 * c - old_t) * mi) by (nonlinear_arith)
            requires old_r == 1, old_r as int == os * a0 + old_t * mi, inv as int == os + c * mi;
        vstd::arithmetic::div_mod::lemma_fundamental_div_mod(a as int, mi);
        let j = (a as int) / mi;
        assert(a as int * inv == 1 + ((a0 * c - old_t) + j * inv) * mi) by (nonlinear_arith)
            requires a0 * inv == 1 + (a0 * c - old_t) * mi, a as int == mi * j + a0;
        if mi == 1 {
            assert(inv == 0);
            assert((a as int * inv) % mi == 0);
            assert(1int % mi == 0);
        } else {
            vstd::arithmetic::div_mod::lemma_small_mod(1, mi as nat);
            vstd::arithmetic::div_mod::lemma_fundamental_div_mod_converse_mod(a as int * inv, mi,
                (a0 * c - old_t) + j * inv, 1);
        }
        assert((a as int * inv) % mi == 1int % mi);
        assert(invertible(a as int, mi));
        let y = mod_inv(a as int, mi);
        lemma_inverse_unique(a as int, inv as int, y, mi);
    }
    Some(inv as i64)
}

// ---------------------------------------------------------------------------
// Three-argument pow
// ---------------------------------------------------------------------------

/// A residue in `[0, |m|)` moved into Python's range for the sign of `m`:
/// `(m, 0]` for a negative modulus.
pub open spec fn signed_residue(r: int, m: int) -> int {
    if m < 0 && r != 0 { r + m } else { r }
}

/// The message for a non-integer operand of three-argument `pow`.
pub open spec fn pow3_type_msg() -> Seq<char> {
    "pow() 3rd argument not allowed unless all arguments are integers"@
}

/// What `pow(base, exp, mod)` returns: `base ** exp % mod` with the sign of
/// `mod`; a negative exponent uses the inverse of `base` modulo `mod`, which
/// must exist.
pub open spec fn spec_pow3(base: Value, exp: Value, modulus: Value) -> Result<PyVal, ErrSpec> {
    match spec_int_of(base) {
        None => Err(ErrSpec::Type(pow3_type_msg())),
        Some(b) => match spec_int_of(exp) {
            None => Err(ErrSpec::Type(pow3_type_msg())),
            Some(e) => match spec_int_of(modulus) {
                None => Err(ErrSpec::Type(pow3_type_msg())),
                Some(m) => if m == 0 {
                    Err(ErrSpec::Exc("ValueError"@, "pow() 3rd argument cannot be 0"@))
                } else {
                    let mm = abs_int(m);
                    if e < 0 && !invertible(b % mm, mm) {
                        Err(ErrSpec::Exc("ValueError"@, "base is not invertible for the given modulus"@))
                    } else {
                        let eff = if e < 0 { mod_inv(b % mm, mm) } else { b };
                        Ok(PyVal::Int(signed_residue(pow(eff % mm, abs_int(e) as nat) % mm, m)))
                    }
                },
            },
        },
    }
}

/// One square-and-multiply step keeps `res * b^e` modulo `m`.
proof fn lemma_pow_step(res: int, b: int, e: nat, m: int)
    requires
        m > 0,
    ensures
        ((if e % 2 == 1 { (res * b) % m } else { res }) * pow((b * b) % m, e / 2)) % m == (res * pow(b, e)) % m,
{
    let h = (e / 2) as nat;
    let bit = (e % 2) as nat;
    assert(e == 2 * h + bit);
    vstd::arithmetic::power::lemma_pow_adds(b, 2 * h, bit);
    vstd::arithmetic::power::lemma_pow_multiplies(b, 2, h);
    vstd::arithmetic::power::lemma_square_is_pow2(b);
    vstd::arithmetic::power::lemma_pow_mod_noop(b * b, h, m);
    let p = pow(b * b, h);
    let pm = pow((b * b) % m, h);
    assert(pow(b, e) == p * pow(b, bit));
    vstd::arithmetic::div_mod::lemma_mul_mod_noop_right(res, pm, m);
    vstd::arithmetic::div_mod::lemma_mul_mod_noop_right(res, p, m);
    if bit == 1 {
        vstd::arithmetic::power::lemma_pow1(b);
        vstd::arithmetic::div_mod::lemma_mul_mod_noop_left(res * b, pm, m);
        vstd::arithmetic::div_mod::lemma_mul_mod_noop_right(res * b, pm, m);
        vstd::arithmetic::div_mod::lemma_mul_mod_noop_right(res * b, p, m);
        assert(res * b * p == res * (p * b)) by (nonlinear_arith);
    } else {
        vstd::arithmetic::power::lemma_pow0(b);
        assert(p * 1 == p);
    }
}

/// `(b0 ^ e) % m` by square-and-multiply, for `b0 < m <= 2^63`.
fn pow_mod(b0: u64, e0: u64, m: u64) -> (r: u64)
    requires
        0 < m <= 0x8000_0000_0000_0000,
        b0 < m,
    ensures
        r as int == pow(b0 as int, e0 as nat) % (m as int),
        r < m,
{
    let mu: u128 = m as u128;
    let mut result: u128 = 1 % mu;
    let mut b: u128 = b0 as u128;
    let mut e: u64 = e0;
    proof {
        vstd::arithmetic::div_mod::lemma_mul_mod_noop_left(1, pow(b0 as int, e0 as nat), m as int);
    }
    while e > 0
        invariant
            mu == m,
            0 < m <= 0x8000_0000_0000_0000,
            result < mu,
            b < mu,
            (result * pow(b as int, e as nat)) % (m as int) == pow(b0 as int, e0 as nat) % (m as int),
        decreases e,
    {
        proof { lemma_pow_step(result as int, b as int, e as nat, m as int); }
        assert(result * b < 0x4000_0000_0000_0000_0000_0000_0000_0000u128) by (nonlinear_arith)
            requires result < 0x8000_0000_0000_0000u128, b < 0x8000_0000_0000_0000u128;
        if e % 2 == 1 {
            result = result * b % mu;
        }
        assert(b * b < 0x4000_0000_0000_0000_0000_0000_0000_0000u128) by (nonlinear_arith)
            requires b < 0x8000_0000_0000_0000u128;
        b = b * b % mu;
        e = e / 2;
    }
    proof {
        vstd::arithmetic::power::lemma_pow0(b as int);
        vstd::arithmetic::div_mod::lemma_small_mod(result as nat, m as nat);
    }
    result as u64
}

/// The integer an operand of three-argument `pow` stands for.
fn pow3_operand(v: &Value) -> (r: Result<i64, EvalError>)
    ensures
        match spec_int_of(*v) {
            Some(i) => r == Ok::<i64, EvalError>(i as i64),
            None => r matches Err(e) && crate::error::is_type_error(e, pow3_type_msg()),
        },
{
    match v {
        Value::Int(i) => Ok(*i),
        Value::Bool(b) => Ok(if *b { 1 } else { 0 }),
        _ => Err(type_error(str_to_string("pow() 3rd argument not allowed unless all arguments are integers"))),
    }
}

/// `pow(base, exp, mod)`: integer modular exponentiation by
/// square-and-multiply, without forming `base ** exp`. The result takes the
/// sign of `mod`; a negative exponent raises the inverse of `base` modulo
/// `mod` to `-exp`.
pub fn pow_three_arg(base: &Value, exp: &Value, modulus: &Value) -> (r: EvalResult)
    ensures
        result_matches(r, spec_pow3(*base, *exp, *modulus)),
{
    let base_i = match pow3_operand(base) {
        Ok(i) => i,
        Err(e) => { return Err(e); },
    };
    let exp_i = match pow3_operand(exp) {
        Ok(i) => i,
        Err(e) => { return Err(e); },
    };
    let mod_i = match pow3_operand(modulus) {
        Ok(i) => i,
        Err(e) => { return Err(e); },
    };
    if mod_i == 0 {
        return Err(exception("ValueError", str_to_string("pow() 3rd argument cannot be 0")));
    }
    let ghost mm = abs_int(mod_i as int);
    let effective_base: i64 = if exp_i < 0 {
        let a = rem_euclid(base_i, mod_i);
        match mod_inverse(a as i64, mod_i) {
            Some(inv) => {
                proof {
                    vstd::arithmetic::div_mod::lemma_small_mod(a as nat, mm as nat);
                }
                inv
            },
            None => {
                proof {
                    vstd::arithmetic::div_mod::lemma_small_mod(a as nat, mm as nat);
                }
                return Err(exception("ValueError", str_to_string("base is not invertible for the given modulus")));
            },
        }
    } else {
        base_i
    };
    let m = magnitude(mod_i);
    let b0 = rem_euclid(effective_base, mod_i);
    let res = pow_mod(b0, magnitude(exp_i), m);
    let signed: i64 = res as i64;
    if mod_i < 0 && signed != 0 {
        Ok(Value::Int(signed + mod_i))
    } else {
        Ok(Value::Int(signed))
    }
}

// ---------------------------------------------------------------------------
// round(int, ndigits)
// ---------------------------------------------------------------------------

/// The multiple of `f > 0` nearest to `i`, the even multiple on a tie.
pub open spec fn round_half_even(i: int, f: int) -> int {
    let m0 = i / f;
    let rem = i % f;
    let m = if 2 * rem < f {
        m0
    } else if 2 * rem > f {
        m0 + 1
    } else if m0 % 2 == 0 {
        m0
    } else {
        m0 + 1
    };
    m * f
}

/// `10 ** k`.
pub open spec fn pow10(k: nat) -> int
    decreases k,
{
    if k == 0 { 1 } else { 10 * pow10((k - 1) as nat) }
}

pub(crate) proof fn lemma_pow10_mono(j: nat, k: nat)
    requires
        j <= k,
    ensures
        1 <= pow10(j) <= pow10(k),
    decreases k,
{
    if k > j {
        lemma_pow10_mono(j, (k - 1) as nat);
    } else if k > 0 {
        lemma_pow10_mono(0, (k - 1) as nat);
    }
}

/// `round(i, ndigits)` for an `int`: CPython's banker's rounding to the
/// nearest multiple of `10 ** -ndigits`, an integer of any size (so
/// `round(9223372036854775807, -1)` is `9223372036854775810`).
pub fn round_int(i: i64, ndigits: Option<i64>) -> (r: WideInt)
    requires
        ndigits != Some(i64::MIN),
    ensures
        wide_value(r) == spec_round_bigint(i as int, match ndigits { Some(n) => Some(n as int), None => None }),
        wide_ok(r),
{
    round_bigint(&WideInt::Small(i), ndigits)
}

/// Rounding to a multiple of `f` goes to the nearest multiple, and on a
/// tie to the even one.
pub proof fn law_round_half_even_nearest(i: int, f: int)
    requires
        0 <= i,
        0 < f,
    ensures
        ({
            let r = round_half_even(i, f);
            let d = if r >= i { r - i } else { i - r };
            &&& r % f == 0
            &&& 2 * d <= f
            &&& (2 * d == f ==> (r / f) % 2 == 0)
        }),
{
    let m0 = i / f;
    let rem = i % f;
    vstd::arithmetic::div_mod::lemma_fundamental_div_mod(i, f);
    vstd::arithmetic::div_mod::lemma_mod_bound(i, f);
    let m = if 2 * rem < f { m0 } else if 2 * rem > f { m0 + 1 } else if m0 % 2 == 0 { m0 } else { m0 + 1 };
    let r = round_half_even(i, f);
    assert(r == m * f);
    if m == m0 {
        assert(r == i - rem) by (nonlinear_arith) requires r == m0 * f, i == f * m0 + rem;
    } else {
        assert(r == i + (f - rem)) by (nonlinear_arith) requires r == (m0 + 1) * f, i == f * m0 + rem;
    }
    let d = if r >= i { r - i } else { i - r };
    assert(2 * d <= f);
    vstd::arithmetic::div_mod::lemma_fundamental_div_mod_converse(r, f, m, 0);
    assert(2 * d == f ==> m % 2 == 0);
}

} // verus!
