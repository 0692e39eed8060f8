//! The `int` methods on a receiver beyond a machine word: rounding to tens,
//! bit length and count, negation, absolute value, inversion and truth,
//! computed on its sign and big-endian magnitude.

use vstd::prelude::*;
use vstd::arithmetic::power2::pow2;
use crate::int_bytes::{WideInt, be_value, signed_magnitude, wide_value, wide_ok, narrow_int, no_lead_zero,
    inc_bytes, dec_bytes, trim_zeros, reverse_bytes, lemma_prepend_digit, lemma_be_value_grows};
use crate::arith::{pow10, round_half_even};
use indexmap::IndexMap;
use crate::value::{Value, PyVal};
use crate::error::{EvalError, ErrSpec, err_matches};
use crate::kwargs::{kwarg_entries, reject_kwargs, unexpected_kwarg_msg};
use crate::numeric::magnitude;
use crate::int_methods::{bit_len, popcount, bit_length_of, bit_count_of, lemma_bit_len_bound, spec_round_ndigits,
    round_ndigits};
use crate::bytes_methods::{no_attr_msg, no_attribute};
use crate::text::str_eq;

verus! {

// ---------------------------------------------------------------------------
// Magnitude arithmetic by small factors
// ---------------------------------------------------------------------------

/// The quotient and remainder of the magnitude by 10.
pub(crate) fn divmod10(b: &Vec<u8>) -> (r: (Vec<u8>, u8))
    ensures
        be_value(b@) == be_value(r.0@) * 10 + r.1,
        r.1 < 10,
        r.0@.len() == b@.len(),
{
    let mut out: Vec<u8> = Vec::new();
    let mut rem: u32 = 0;
    let mut i: usize = 0;
    while i < b.len()
        invariant
            i <= b@.len(),
            out@.len() == i,
            rem < 10,
            be_value(b@.take(i as int)) == be_value(out@) * 10 + rem,
        decreases b.len() - i,
    {
        let x: u8 = b[i];
        let cur: u32 = rem * 256 + x as u32;
        let qb: u32 = cur / 10;
        let rem2: u32 = cur % 10;
        proof {
            lemma_be_value_grows(b@.take(i as int), x);
            assert(b@.take(i + 1) =~= b@.take(i as int).push(x));
            lemma_be_value_grows(out@, qb as u8);
            let q = be_value(out@);
            assert((q * 10 + rem) * 256 + x == (q * 256 + qb) * 10 + rem2) by (nonlinear_arith)
                requires cur == rem * 256 + x, cur == qb * 10 + rem2;
        }
        out.push(qb as u8);
        rem = rem2;
        i = i + 1;
    }
    assert(b@.take(b@.len() as int) =~= b@);
    (out, rem as u8)
}

/// The magnitude times 10.
fn mul10(b: &Vec<u8>) -> (r: Vec<u8>)
    ensures
        be_value(r@) == be_value(b@) * 10,
{
    let n = b.len();
    let mut le: Vec<u8> = Vec::new();
    let mut carry: u32 = 0;
    let mut j: usize = n;
    proof {
        vstd::arithmetic::power2::lemma2_to64();
        assert(le@.reverse() =~= Seq::<u8>::empty());
        assert(b@.subrange(n as int, n as int) =~= Seq::<u8>::empty());
    }
    while j > 0
        invariant
            j <= n,
            n == b@.len(),
            le@.len() == n - j,
            carry < 10,
            pow2(8) == 256,
            be_value(b@.subrange(j as int, n as int)) * 10
                == be_value(le@.reverse()) + carry * pow2((8 * (n - j)) as nat),
        decreases j,
    {
        let x: u8 = b[j - 1];
        let t: u32 = 10 * (x as u32) + carry;
        let y: u8 = (t % 256) as u8;
        let c2: u32 = t / 256;
        proof {
            let s = b@.subrange(j as int, n as int);
            let s2 = b@.subrange(j - 1, n as int);
            assert(s2 =~= seq![x] + s);
            lemma_prepend_digit(x, s);
            let rr = le@.reverse();
            assert(le@.push(y).reverse() =~= seq![y] + rr);
            lemma_prepend_digit(y, rr);
            let k = (8 * (n - j)) as nat;
            vstd::arithmetic::power2::lemma_pow2_adds(k, 8);
            assert((8 * (n - (j - 1))) as nat == k + 8);
            let p = pow2(k);
            assert(s.len() == n - j && rr.len() == n - j);
            assert(be_value(s2) == x * p + be_value(s));
            assert(be_value(seq![y] + rr) == y * p + be_value(rr));
            assert((x * p + be_value(s)) * 10 == (c2 * 256 + y) * p + be_value(rr)) by (nonlinear_arith)
                requires be_value(s) * 10 == be_value(rr) + carry * p, t == 10 * x + carry, t == c2 * 256 + y;
            assert(c2 * (p * 256) == c2 * 256 * p) by (nonlinear_arith);
            assert(pow2(k + 8) == p * 256);
            assert((c2 * 256 + y) * p + be_value(rr) == c2 * (p * 256) + (y * p + be_value(rr))) by (nonlinear_arith);
            assert(be_value(s2) * 10 == be_value(seq![y] + rr) + c2 * pow2(k + 8));
        }
        le.push(y);
        carry = c2;
        j = j - 1;
    }
    let r = reverse_bytes(&le);
    proof {
        assert(b@.subrange(0, n as int) =~= b@);
        assert(le@.reverse().reverse() =~= le@);
    }
    if carry > 0 {
        let c8: u8 = carry as u8;
        let mut out: Vec<u8> = Vec::new();
        out.push(c8);
        let mut i: usize = 0;
        while i < r.len()
            invariant
                i <= r@.len(),
                out@ == seq![c8] + r@.take(i as int),
            decreases r.len() - i,
        {
            out.push(r[i]);
            i = i + 1;
            assert(out@ =~= seq![c8] + r@.take(i as int));
        }
        proof {
            assert(r@.take(r@.len() as int) =~= r@);
            lemma_prepend_digit(c8, r@);
        }
        out
    } else {
        r
    }
}

/// The parity of a magnitude is that of its last byte.
proof fn lemma_be_value_parity(b: Seq<u8>)
    ensures
        be_value(b) % 2 == if b.len() == 0 { 0 } else { b.last() % 2 },
{
    if b.len() > 0 {
        let a = be_value(b.drop_last());
        let d = b.last();
        assert((a * 256 + d) % 2 == d % 2) by (nonlinear_arith)
            requires a >= 0, d >= 0;
    }
}

proof fn lemma_pow10_step(i: nat)
    ensures
        pow10(i + 1) == 10 * pow10(i),
        pow10(i) >= 1,
    decreases i,
{
    if i > 0 {
        lemma_pow10_step((i - 1) as nat);
    }
}

/// The magnitude times `10 ** k`.
fn mul_pow10(m: &Vec<u8>, k: u32) -> (r: Vec<u8>)
    ensures
        be_value(r@) == be_value(m@) * pow10(k as nat),
{
    let mut cur: Vec<u8> = crate::bytes_methods::sub_bytes(m.as_slice(), 0, m.len());
    let mut j: u32 = 0;
    proof {
        assert(m@.subrange(0, m@.len() as int) =~= m@);
    }
    while j < k
        invariant
            j <= k,
            be_value(cur@) == be_value(m@) * pow10(j as nat),
        decreases k - j,
    {
        let next = mul10(&cur);
        proof {
            lemma_pow10_step(j as nat);
            let a = be_value(m@);
            let p = pow10(j as nat);
            assert(a * p * 10 == a * (10 * p)) by (nonlinear_arith);
        }
        cur = next;
        j = j + 1;
    }
    cur
}

/// The magnitude rounded half-to-even to a multiple of `10 ** k`.
fn round_magnitude(mag: &Vec<u8>, k: u32) -> (r: Vec<u8>)
    requires
        k >= 1,
    ensures
        be_value(r@) == round_half_even(be_value(mag@) as int, pow10(k as nat)),
{
    let ghost x = be_value(mag@) as int;
    let mut q = trim_zeros(mag);
    let mut i: u32 = 0;
    let mut last: u8 = 0;
    let mut nonzero: bool = false;
    let ghost mut rem: int = 0;
    let ghost mut low: int = 0;
    proof {
        lemma_pow10_step(0);
    }
    while i < k && q.len() > 0
        invariant
            no_lead_zero(q@),
            i <= k,
            x == be_value(q@) * pow10(i as nat) + rem,
            0 <= rem < pow10(i as nat),
            last < 10,
            i == 0 ==> last == 0 && !nonzero && rem == 0,
            i > 0 ==> rem == last * pow10((i - 1) as nat) + low && 0 <= low < pow10((i - 1) as nat)
                && (nonzero <==> low != 0),
        decreases k - i,
    {
        let (q2, d) = divmod10(&q);
        let q3 = trim_zeros(&q2);
        proof {
            lemma_pow10_step(i as nat);
            let p = pow10(i as nat);
            let bq = be_value(q3@);
            assert(x == bq * pow10((i + 1) as nat) + (d * p + rem)) by (nonlinear_arith)
                requires x == (bq * 10 + d) * p + rem, pow10((i + 1) as nat) == 10 * p;
            assert(d * p <= 9 * p) by (nonlinear_arith) requires d <= 9, p >= 1;
            assert(d * p + rem < pow10((i + 1) as nat));
            assert(0 <= d * p) by (nonlinear_arith) requires d >= 0, p >= 1;
            if i > 0 {
                assert(rem != 0 <==> (last != 0 || low != 0)) by (nonlinear_arith)
                    requires rem == last * pow10((i - 1) as nat) + low, low >= 0, last >= 0, pow10((i - 1) as nat) >= 1;
            }
            low = rem;
            rem = d * p + rem;
        }
        nonzero = last != 0 || nonzero;
        last = d;
        q = q3;
        i = i + 1;
    }
    proof {
        lemma_pow10_step((k - 1) as nat);
        vstd::arithmetic::power2::lemma2_to64();
    }
    let ghost f = pow10(k as nat);
    if i < k {
        // The magnitude ran out of digits early: it is below half a unit.
        proof {
            crate::int_bytes::lemma_digits_fit(q@, 0);
            assert(be_value(q@) == 0);
            if i < k - 1 {
                crate::arith::lemma_pow10_mono(i as nat, (k - 1) as nat);
            }
            assert(0int * pow10(i as nat) == 0) by (nonlinear_arith);
            assert(x == rem);
            assert(2 * x < f);
            vstd::arithmetic::div_mod::lemma_fundamental_div_mod_converse(x, f, 0, x);
        }
        return Vec::new();
    }
    let ghost bq = be_value(q@) as int;
    proof {
        vstd::arithmetic::div_mod::lemma_fundamental_div_mod_converse(x, f, bq, rem);
        lemma_be_value_parity(q@);
        let p1 = pow10((k - 1) as nat);
        if last < 5 {
            assert(last * p1 <= 4 * p1) by (nonlinear_arith) requires last <= 4, p1 >= 1;
            assert(2 * rem < f);
        } else if last > 5 {
            assert(2 * rem > f) by (nonlinear_arith)
                requires rem == last * p1 + low, low >= 0, last >= 6, f == 10 * p1, p1 >= 1;
        } else {
            assert(2 * rem == f + 2 * low) by (nonlinear_arith)
                requires rem == last * p1 + low, last == 5, f == 10 * p1;
        }
    }
    let even = q.len() == 0 || q[q.len() - 1] % 2 == 0;
    let up = if last < 5 { false } else if last > 5 || nonzero { true } else { !even };
    let m = if up { inc_bytes(&q) } else { q };
    let out = mul_pow10(&m, k);
    out
}

// ---------------------------------------------------------------------------
// Bit length and count of a magnitude
// ---------------------------------------------------------------------------

/// A number in `[2 ** (b - 1), 2 ** b)` has bit length `b`.
proof fn lemma_bit_len_range(n: nat, b: nat)
    requires
        b >= 1,
        pow2((b - 1) as nat) <= n < pow2(b),
    ensures
        bit_len(n) == b,
    decreases b,
{
    vstd::arithmetic::power2::lemma2_to64();
    vstd::arithmetic::power2::lemma_pow2_unfold(b);
    if b == 1 {
        assert(n == 1);
        assert(bit_len(0) == 0);
    } else {
        vstd::arithmetic::power2::lemma_pow2_unfold((b - 1) as nat);
        lemma_bit_len_range(n / 2, (b - 1) as nat);
    }
}

/// A positive number lies in `[2 ** (bit_len - 1), 2 ** bit_len)`.
proof fn lemma_bit_len_bounds(n: nat)
    requires
        n >= 1,
    ensures
        bit_len(n) >= 1,
        pow2((bit_len(n) - 1) as nat) <= n < pow2(bit_len(n)),
    decreases n,
{
    vstd::arithmetic::power2::lemma2_to64();
    if n == 1 {
        assert(bit_len(0) == 0);
    } else {
        lemma_bit_len_bounds(n / 2);
        vstd::arithmetic::power2::lemma_pow2_unfold(bit_len(n));
        vstd::arithmetic::power2::lemma_pow2_unfold((bit_len(n) - 1) as nat);
    }
}

/// Shifting a number past low bits adds their ones to its own.
proof fn lemma_popcount_shift(a: nat, d: nat, j: nat)
    requires
        d < pow2(j),
    ensures
        popcount(a * pow2(j) + d) == popcount(a) + popcount(d),
    decreases j,
{
    vstd::arithmetic::power2::lemma2_to64();
    if j == 0 {
        assert(d == 0);
        assert(a * 1 == a);
    } else {
        vstd::arithmetic::power2::lemma_pow2_unfold(j);
        let p = pow2((j - 1) as nat);
        let n = a * pow2(j) + d;
        assert(n == (a * p + d / 2) * 2 + d % 2) by (nonlinear_arith)
            requires n == a * pow2(j) + d, pow2(j) == 2 * p, d == (d / 2) * 2 + d % 2;
        assert(d / 2 < p);
        lemma_popcount_shift(a, d / 2, (j - 1) as nat);
        let m = a * p + d / 2;
        assert(n / 2 == m && n % 2 == d % 2) by (nonlinear_arith)
            requires n == m * 2 + d % 2, 0 <= d % 2 < 2, m >= 0;
        if d == 0 {
            assert(popcount(0) == 0);
        }
    }
}

/// The bit length of a magnitude without a leading zero byte.
fn magnitude_bit_length(t: &Vec<u8>) -> (r: u128)
    requires
        no_lead_zero(t@),
    ensures
        r == bit_len(be_value(t@)),
{
    if t.len() == 0 {
        assert(be_value(t@) == 0);
        return 0;
    }
    let n = t.len();
    let top = bit_length_of(t[0] as u64);
    proof {
        let t0 = t@[0] as nat;
        lemma_bit_len_bound(t0);
        lemma_bit_len_bounds(t0);
        let rest = t@.subrange(1, n as int);
        let head = t@.subrange(0, 1);
        assert(head + rest =~= t@);
        crate::int_bytes::lemma_be_value_concat(head, rest);
        crate::int_bytes::lemma_be_value_bound(rest);
        assert(head.drop_last() =~= Seq::<u8>::empty());
        assert(be_value(head.drop_last()) == 0);
        assert(head.last() == t@[0]);
        let s = (8 * (n - 1)) as nat;
        let pr = pow2(s);
        let bt = bit_len(t0);
        let x = be_value(t@);
        assert(x == t0 * pr + be_value(rest));
        vstd::arithmetic::power2::lemma_pow2_adds((bt - 1) as nat, s);
        vstd::arithmetic::power2::lemma_pow2_adds(bt, s);
        assert(pow2((bt - 1) as nat) * pr <= t0 * pr) by (nonlinear_arith)
            requires pow2((bt - 1) as nat) <= t0, pr >= 0;
        assert(t0 * pr + be_value(rest) < pow2(bt) * pr) by (nonlinear_arith)
            requires t0 + 1 <= pow2(bt), be_value(rest) < pr;
        assert((bt - 1) as nat + s == (bt + s - 1) as nat);
        lemma_bit_len_range(x, bt + s);
    }
    8 * ((n - 1) as u128) + (top as u128)
}

/// The number of one bits of a magnitude.
fn magnitude_bit_count(t: &Vec<u8>) -> (r: u128)
    ensures
        r == popcount(be_value(t@)),
{
    let mut acc: u128 = 0;
    let mut i: usize = 0;
    proof {
        vstd::arithmetic::power2::lemma2_to64();
        assert(t@.take(0) =~= Seq::<u8>::empty());
    }
    while i < t.len()
        invariant
            i <= t@.len(),
            acc == popcount(be_value(t@.take(i as int))),
            acc <= 255 * i,
            pow2(8) == 256,
        decreases t.len() - i,
    {
        let x: u8 = t[i];
        let c = bit_count_of(x as u64);
        proof {
            lemma_bit_len_bound(x as nat);
            lemma_be_value_grows(t@.take(i as int), x);
            assert(t@.take(i + 1) =~= t@.take(i as int).push(x));
            lemma_popcount_shift(be_value(t@.take(i as int)), x as nat, 8);
        }
        acc = acc + c as u128;
        i = i + 1;
    }
    assert(t@.take(t@.len() as int) =~= t@);
    acc
}

// ---------------------------------------------------------------------------
// Rounding and the method table
// ---------------------------------------------------------------------------

/// `round(v, ndigits)` for an integer of any size: unchanged without
/// `ndigits` or with `ndigits >= 0`; otherwise the magnitude rounded
/// half-to-even to a multiple of `10 ** k`, `k = min(-ndigits, 2 ** 32 - 1)`,
/// with the sign kept.
pub open spec fn spec_round_bigint(v: int, nd: Option<int>) -> int {
    match nd {
        None => v,
        Some(n) => if n >= 0 {
            v
        } else {
            let k = if -n > u32::MAX { u32::MAX as nat } else { (-n) as nat };
            let m = round_half_even(if v < 0 { -v } else { v }, pow10(k));
            if v < 0 { -m } else { m }
        },
    }
}

/// The sign (whether negative) and the magnitude, without a leading zero
/// byte, of an integer.
fn sign_and_digits(b: &WideInt) -> (r: (bool, Vec<u8>))
    ensures
        signed_magnitude(r.0, r.1@) == wide_value(*b),
        r.0 <==> wide_value(*b) < 0,
        no_lead_zero(r.1@),
{
    match b {
        WideInt::Small(i) => {
            let t = crate::int_bytes::magnitude_digits(magnitude(*i));
            (*i < 0, t)
        },
        WideInt::Large(neg, mag) => {
            let t = trim_zeros(mag);
            proof {
                crate::int_bytes::lemma_digits_fit(t@, 0);
                vstd::arithmetic::power2::lemma2_to64();
            }
            (*neg && t.len() > 0, t)
        },
    }
}

/// `round(b, ndigits)` for an integer of any size.
pub fn round_bigint(b: &WideInt, nd: Option<i64>) -> (r: WideInt)
    requires
        nd != Some(i64::MIN),
    ensures
        wide_value(r) == spec_round_bigint(wide_value(*b), match nd { Some(n) => Some(n as int), None => None }),
        wide_ok(r),
{
    let (neg, t) = sign_and_digits(b);
    let k: u32 = match nd {
        None => { return narrow_int(neg, t); },
        Some(n) => if n >= 0 {
            return narrow_int(neg, t);
        } else if -n > 0xFFFF_FFFFi64 {
            0xFFFF_FFFFu32
        } else {
            (-n) as u32
        },
    };
    let m = round_magnitude(&t, k);
    narrow_int(neg, m)
}

/// What an `int` method on a receiver of any size hands back: a value, an
/// integer of any size, the pair `(n, 1)` of `as_integer_ratio` for such an
/// integer, or a request to convert the receiver to a float.
#[derive(Debug, PartialEq)]
pub enum BigReply {
    Value(Value),
    Int(WideInt),
    Ratio(WideInt),
    ToFloat,
}

/// The ghost form of a [`BigReply`].
pub enum BigReplyView {
    Value(PyVal),
    Int(int),
    Ratio(int),
    ToFloat,
}

pub open spec fn big_reply_matches(r: BigReply, v: BigReplyView) -> bool {
    match v {
        BigReplyView::Value(pv) => r matches BigReply::Value(x) && x@ == pv,
        BigReplyView::Int(n) => r matches BigReply::Int(w) && wide_value(w) == n && wide_ok(w),
        BigReplyView::Ratio(n) => r matches BigReply::Ratio(w) && wide_value(w) == n && wide_ok(w),
        BigReplyView::ToFloat => r is ToFloat,
    }
}

/// A count capped at the largest machine integer.
pub open spec fn capped(n: nat) -> int {
    if n > i64::MAX { i64::MAX as int } else { n as int }
}

/// What each `int` method gives for a receiver `v` of any size.
pub open spec fn spec_bigint_method(v: int, method: Seq<char>, args: Seq<Value>) -> Result<BigReplyView, ErrSpec> {
    let a = if v < 0 { -v } else { v };
    if method == "__round__"@ {
        match spec_round_ndigits(args) {
            Err(es) => Err(es),
            Ok(nd) => Ok(BigReplyView::Int(spec_round_bigint(v, nd))),
        }
    } else if method == "bit_length"@ {
        Ok(BigReplyView::Value(PyVal::Int(capped(bit_len(a as nat)))))
    } else if method == "bit_count"@ {
        Ok(BigReplyView::Value(PyVal::Int(capped(popcount(a as nat)))))
    } else if method == "conjugate"@ || method == "real"@ || method == "numerator"@ || method == "__index__"@
        || method == "__int__"@ || method == "__trunc__"@ || method == "__floor__"@ || method == "__ceil__"@
        || method == "__pos__"@ {
        Ok(BigReplyView::Int(v))
    } else if method == "imag"@ {
        Ok(BigReplyView::Value(PyVal::Int(0)))
    } else if method == "denominator"@ {
        Ok(BigReplyView::Value(PyVal::Int(1)))
    } else if method == "as_integer_ratio"@ {
        Ok(BigReplyView::Ratio(v))
    } else if method == "__neg__"@ {
        Ok(BigReplyView::Int(-v))
    } else if method == "__abs__"@ {
        Ok(BigReplyView::Int(a))
    } else if method == "__invert__"@ {
        Ok(BigReplyView::Int(-v - 1))
    } else if method == "__float__"@ {
        Ok(BigReplyView::ToFloat)
    } else if method == "__bool__"@ {
        Ok(BigReplyView::Value(PyVal::Bool(v != 0)))
    } else {
        Err(ErrSpec::Attribute(no_attr_msg("int"@, method)))
    }
}

/// What a call gives, keyword arguments included (every method here is
/// positional-only).
pub open spec fn spec_dispatch_bigint(v: int, method: Seq<char>, args: Seq<Value>, kws: Seq<(Seq<char>, Value)>) -> Result<BigReplyView, ErrSpec> {
    if kws.len() > 0 {
        Err(ErrSpec::Type(unexpected_kwarg_msg(method, kws[0].0)))
    } else {
        spec_bigint_method(v, method, args)
    }
}

fn capped_i64(n: u128) -> (r: i64)
    ensures
        r == capped(n as nat),
{
    if n > 0x7FFF_FFFF_FFFF_FFFFu128 { i64::MAX } else { n as i64 }
}

/// Dispatch an `int` method on a receiver of any size, computed on its sign
/// and magnitude.
#[verifier::rlimit(40)]
pub fn dispatch_bigint_method(b: &WideInt, method: &str, args: &[Value], kwargs: &IndexMap<String, Value>)
    -> (r: Result<BigReply, EvalError>)
    requires
        method@ == "__round__"@ ==> spec_round_ndigits(args@) != Ok::<Option<int>, ErrSpec>(Some(i64::MIN as int)),
    ensures
        match spec_dispatch_bigint(wide_value(*b), method@, args@, kwarg_entries(*kwargs)) {
            Ok(v) => r matches Ok(x) && big_reply_matches(x, v),
            Err(es) => r matches Err(e) && err_matches(e, es),
        },
{
    match reject_kwargs(method, kwargs) {
        Ok(()) => {},
        Err(e) => { return Err(e); },
    }
    let (neg, t) = sign_and_digits(b);
    let ghost v = wide_value(*b);
    let m = method;
    if str_eq(m, "__round__") {
        let nd = match round_ndigits(args) {
            Ok(nd) => nd,
            Err(e) => { return Err(e); },
        };
        Ok(BigReply::Int(round_bigint(b, nd)))
    } else if str_eq(m, "bit_length") {
        let n = magnitude_bit_length(&t);
        Ok(BigReply::Value(Value::Int(capped_i64(n))))
    } else if str_eq(m, "bit_count") {
        let n = magnitude_bit_count(&t);
        Ok(BigReply::Value(Value::Int(capped_i64(n))))
    } else if str_eq(m, "conjugate") || str_eq(m, "real") || str_eq(m, "numerator") || str_eq(m, "__index__")
        || str_eq(m, "__int__") || str_eq(m, "__trunc__") || str_eq(m, "__floor__") || str_eq(m, "__ceil__")
        || str_eq(m, "__pos__") {
        Ok(BigReply::Int(narrow_int(neg, t)))
    } else if str_eq(m, "imag") {
        Ok(BigReply::Value(Value::Int(0)))
    } else if str_eq(m, "denominator") {
        Ok(BigReply::Value(Value::Int(1)))
    } else if str_eq(m, "as_integer_ratio") {
        Ok(BigReply::Ratio(narrow_int(neg, t)))
    } else if str_eq(m, "__neg__") {
        Ok(BigReply::Int(narrow_int(!neg, t)))
    } else if str_eq(m, "__abs__") {
        Ok(BigReply::Int(narrow_int(false, t)))
    } else if str_eq(m, "__invert__") {
        if neg {
            proof {
                crate::int_bytes::lemma_digits_fit(t@, 0);
                vstd::arithmetic::power2::lemma2_to64();
            }
            let d = dec_bytes(&t);
            Ok(BigReply::Int(narrow_int(false, d)))
        } else {
            let u = inc_bytes(&t);
            Ok(BigReply::Int(narrow_int(true, u)))
        }
    } else if str_eq(m, "__float__") {
        Ok(BigReply::ToFloat)
    } else if str_eq(m, "__bool__") {
        proof {
            crate::int_bytes::lemma_digits_fit(t@, 0);
            vstd::arithmetic::power2::lemma2_to64();
        }
        Ok(BigReply::Value(Value::Bool(t.len() > 0)))
    } else {
        Err(no_attribute("int", method))
    }
}

/// `round(v, n)` for a negative `n` goes to the nearest multiple of
/// `10 ** -n`, a tie to the even multiple, and rounds a negative number as
/// the negation of its magnitude's rounding; a non-negative `n` (or none)
/// leaves an integer as it is.
pub proof fn law_round_int_to_nearest(v: int, n: int)
    requires
        n < 0,
        -n <= u32::MAX,
    ensures
        spec_round_bigint(v, None) == v,
        spec_round_bigint(v, Some(-n)) == v,
        spec_round_bigint(-v, Some(n)) == -spec_round_bigint(v, Some(n)),
        ({
            let f = pow10((-n) as nat);
            let r = spec_round_bigint(v, Some(n));
            let d = if r >= v { r - v } else { v - r };
            &&& f > 0
            &&& r % f == 0
            &&& 2 * d <= f
            &&& (2 * d == f ==> (r / f) % 2 == 0)
        }),
{
    let k = (-n) as nat;
    crate::arith::lemma_pow10_mono(0, k);
    let f = pow10(k);
    let a = if v < 0 { -v } else { v };
    crate::arith::law_round_half_even_nearest(a, f);
    let q = round_half_even(a, f);
    let m = q / f;
    vstd::arithmetic::div_mod::lemma_fundamental_div_mod(q, f);
    assert(q == m * f) by (nonlinear_arith) requires q == f * m + q % f, q % f == 0;
    if v < 0 {
        let r = -q;
        assert(r == (-m) * f) by (nonlinear_arith) requires q == m * f, r == -q;
        vstd::arithmetic::div_mod::lemma_fundamental_div_mod_converse(r, f, -m, 0);
        if m % 2 == 0 { assert((-m) % 2 == 0); }
    }
    if v == 0 {
        assert(0int * f + 0 == 0int) by (nonlinear_arith);
        assert(f > 0);
        vstd::arithmetic::div_mod::lemma_fundamental_div_mod_converse(0, f, 0, 0);
        assert(round_half_even(0, f) == 0);
        assert(-v == v);
    }
}

} // verus!
