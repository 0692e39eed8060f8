//! `int.from_bytes` and `int.to_bytes`: integers to and from their byte
//! representation, big- or little-endian, unsigned or two's complement.
//! Integers of any size are a machine word or a sign and a big-endian
//! magnitude ([`WideInt`]).

use vstd::prelude::*;
use vstd::arithmetic::power2::pow2;
use indexmap::IndexMap;
use crate::value::{Value, PyVal, spec_py_type_name, spec_truthy, view_items, view_value, lemma_view_items};
use crate::error::{EvalError, ErrSpec, err_matches, type_error, value_error, exception};
use crate::kwargs::{kwarg_entries, kwarg_from, kwarg_get};
use crate::numeric::{arg_at, not_integer_msg};
use crate::text::{concat_str, str_to_string, str_eq};

verus! {

broadcast use lemma_view_items;

// ---------------------------------------------------------------------------
// Byte order
// ---------------------------------------------------------------------------

/// The `byteorder` argument: positional, else the keyword; `"big"` (the
/// default) or `"little"`, answering whether the order is little-endian.
pub open spec fn spec_byteorder(positional: Option<Value>, kws: Seq<(Seq<char>, Value)>) -> Result<bool, ErrSpec> {
    let v = match positional {
        Some(p) => Some(p),
        None => kwarg_from(kws, "byteorder"@, 0),
    };
    match v {
        None => Ok(false),
        Some(Value::String(s)) => if s@ == "big"@ {
            Ok(false)
        } else if s@ == "little"@ {
            Ok(true)
        } else {
            Err(ErrSpec::Value("byteorder must be either 'little' or 'big'"@))
        },
        Some(other) => Err(ErrSpec::Type("byteorder must be str, not "@ + spec_py_type_name(other))),
    }
}

/// Read the `byteorder` argument (positional or keyword): whether the order
/// is little-endian.
pub fn parse_byteorder(positional: Option<&Value>, kwargs: &IndexMap<String, Value>) -> (r: Result<bool, EvalError>)
    ensures
        match spec_byteorder(match positional { Some(p) => Some(*p), None => None }, kwarg_entries(*kwargs)) {
            Ok(b) => r == Ok::<bool, EvalError>(b),
            Err(es) => r matches Err(e) && err_matches(e, es),
        },
{
    let v = match positional {
        Some(p) => Some(p),
        None => kwarg_get(kwargs, "byteorder"),
    };
    match v {
        None => Ok(false),
        Some(Value::String(s)) => {
            if str_eq(s.as_str(), "big") {
                Ok(false)
            } else if str_eq(s.as_str(), "little") {
                Ok(true)
            } else {
                Err(value_error(str_to_string("byteorder must be either 'little' or 'big'")))
            }
        },
        Some(other) => Err(type_error(concat_str("byteorder must be str, not ", other.py_type_name()))),
    }
}

/// Whether the keyword argument `signed` was given and is true.
pub open spec fn spec_signed_kw(kws: Seq<(Seq<char>, Value)>) -> bool {
    match kwarg_from(kws, "signed"@, 0) {
        Some(v) => spec_truthy(v@),
        None => false,
    }
}

fn signed_kw(kwargs: &IndexMap<String, Value>) -> (r: bool)
    ensures
        r == spec_signed_kw(kwarg_entries(*kwargs)),
{
    match kwarg_get(kwargs, "signed") {
        Some(v) => v.is_truthy(),
        None => false,
    }
}

// ---------------------------------------------------------------------------
// Byte strings as numbers
// ---------------------------------------------------------------------------

/// The unsigned value of big-endian bytes.
pub open spec fn be_value(b: Seq<u8>) -> nat
    decreases b.len(),
{
    if b.len() == 0 { 0 } else { be_value(b.drop_last()) * 256 + b.last() as nat }
}

/// The integer that big-endian bytes encode, in two's complement when
/// `signed` and the top bit is set.
pub open spec fn bytes_int(b: Seq<u8>, signed: bool) -> int {
    if signed && b.len() > 0 && b[0] >= 128 {
        be_value(b) - pow2((8 * b.len()) as nat)
    } else {
        be_value(b) as int
    }
}

/// The bytes with each bit flipped.
pub open spec fn complement(b: Seq<u8>) -> Seq<u8> {
    Seq::new(b.len(), |i: int| (255 - b[i]) as u8)
}

pub(crate) proof fn lemma_be_value_bound(b: Seq<u8>)
    ensures
        be_value(b) < pow2((8 * b.len()) as nat),
    decreases b.len(),
{
    vstd::arithmetic::power2::lemma2_to64();
    if b.len() > 0 {
        lemma_be_value_bound(b.drop_last());
        let k = (8 * b.drop_last().len()) as nat;
        vstd::arithmetic::power2::lemma_pow2_adds(k, 8);
        vstd::arithmetic::power2::lemma2_to64();
        assert(be_value(b.drop_last()) * 256 + b.last() < pow2(k) * 256) by (nonlinear_arith)
            requires be_value(b.drop_last()) < pow2(k), b.last() < 256;
        assert(8 * b.len() == k + 8);
    }
}

/// The complement's value is `2 ** (8 n) - 1 - value`.
proof fn lemma_complement_value(b: Seq<u8>)
    ensures
        be_value(complement(b)) + be_value(b) + 1 == pow2((8 * b.len()) as nat),
    decreases b.len(),
{
    if b.len() == 0 {
        vstd::arithmetic::power2::lemma2_to64();
    } else {
        let c = complement(b);
        assert(c.drop_last() =~= complement(b.drop_last()));
        lemma_complement_value(b.drop_last());
        let k = (8 * b.drop_last().len()) as nat;
        vstd::arithmetic::power2::lemma_pow2_adds(k, 8);
        vstd::arithmetic::power2::lemma2_to64();
        assert(8 * b.len() == k + 8);
        assert(be_value(c) + be_value(b) + 1 == (be_value(c.drop_last()) + be_value(b.drop_last()) + 1) * 256) by (nonlinear_arith)
            requires be_value(c) == be_value(c.drop_last()) * 256 + c.last(),
                be_value(b) == be_value(b.drop_last()) * 256 + b.last(),
                c.last() == 255 - b.last();
    }
}

/// Appending a byte multiplies the value by 256 and adds the byte.
pub(crate) proof fn lemma_be_value_grows(b: Seq<u8>, d: u8)
    ensures
        be_value(b.push(d)) == be_value(b) * 256 + d,
        be_value(b.push(d)) >= be_value(b),
{
    assert(b.push(d).drop_last() =~= b);
}

/// A machine integer, or one that needs arbitrary precision, given by its
/// sign (whether negative) and big-endian magnitude, from which the caller
/// builds a big integer.
#[derive(Debug, PartialEq)]
pub enum WideInt {
    Small(i64),
    Large(bool, Vec<u8>),
}

/// The value of a sign and a big-endian magnitude.
pub open spec fn signed_magnitude(negative: bool, mag: Seq<u8>) -> int {
    if negative { -(be_value(mag) as int) } else { be_value(mag) as int }
}

pub open spec fn wide_value(w: WideInt) -> int {
    match w {
        WideInt::Small(i) => i as int,
        WideInt::Large(neg, m) => signed_magnitude(neg, m@),
    }
}

/// Whether an integer fits a machine word.
pub open spec fn fits_i64(n: int) -> bool {
    i64::MIN <= n <= i64::MAX
}

/// `Small` exactly when the value fits a machine word.
pub open spec fn wide_ok(w: WideInt) -> bool {
    w is Small <==> fits_i64(wide_value(w))
}

/// The integer of a sign and a big-endian magnitude, as a machine integer
/// when it fits.
pub fn narrow_int(negative: bool, mag: Vec<u8>) -> (r: WideInt)
    ensures
        wide_value(r) == signed_magnitude(negative, mag@),
        wide_ok(r),
{
    let limit: u128 = 0x8000_0000_0000_0000;
    let mut acc: u128 = 0;
    let mut big = false;
    let mut i: usize = 0;
    while i < mag.len()
        invariant
            i <= mag@.len(),
            limit == 0x8000_0000_0000_0000,
            !big ==> acc == be_value(mag@.take(i as int)) && acc <= limit,
            big ==> be_value(mag@.take(i as int)) > limit,
        decreases mag.len() - i,
    {
        let d: u8 = mag[i];
        proof {
            lemma_be_value_grows(mag@.take(i as int), d);
            assert(mag@.take(i + 1) =~= mag@.take(i as int).push(d));
        }
        if !big {
            acc = acc * 256 + d as u128;
            if acc > limit {
                big = true;
            }
        }
        i = i + 1;
    }
    assert(mag@.take(mag@.len() as int) =~= mag@);
    if big {
        WideInt::Large(negative, mag)
    } else if negative {
        if acc == limit {
            WideInt::Small(i64::MIN)
        } else {
            let m = acc as i64;
            WideInt::Small(-m)
        }
    } else if acc < limit {
        WideInt::Small(acc as i64)
    } else {
        WideInt::Large(false, mag)
    }
}

/// `n` bytes of 255.
pub open spec fn ones(n: nat) -> Seq<u8> {
    Seq::new(n, |i: int| 255u8)
}

proof fn lemma_be_value_ones(n: nat)
    ensures
        be_value(ones(n)) + 1 == pow2(8 * n),
{
    assert(complement(zeros(n)) =~= ones(n));
    lemma_complement_value(zeros(n));
    lemma_be_value_zeros(zeros(n));
}

/// The value of `pre`, then `d`, then `tail`.
proof fn lemma_be_value_split(pre: Seq<u8>, d: u8, tail: Seq<u8>)
    ensures
        be_value(pre.push(d) + tail) == (be_value(pre) * 256 + d) * pow2(8 * tail.len()) + be_value(tail),
{
    lemma_be_value_concat(pre.push(d), tail);
    lemma_be_value_grows(pre, d);
}

/// One more than the value of the bytes.
pub(crate) fn inc_bytes(b: &Vec<u8>) -> (r: Vec<u8>)
    ensures
        be_value(r@) == be_value(b@) + 1,
{
    let n = b.len();
    let mut j: usize = n;
    while j > 0 && b[j - 1] == 255
        invariant
            j <= b@.len(),
            n == b@.len(),
            forall|i: int| j <= i < b@.len() ==> b@[i] == 255,
        decreases j,
    {
        j = j - 1;
    }
    let mut out: Vec<u8> = Vec::new();
    if j == 0 {
        out.push(1);
    } else {
        let mut i: usize = 0;
        while i < j - 1
            invariant
                0 < j <= b@.len(),
                i <= j - 1,
                out@ == b@.take(i as int),
            decreases j - 1 - i,
        {
            out.push(b[i]);
            i = i + 1;
            assert(out@ =~= b@.take(i as int));
        }
        out.push(b[j - 1] + 1);
    }
    let ghost head = out@;
    let mut k: usize = j;
    while k < n
        invariant
            j <= k <= n,
            out@ == head + zeros((k - j) as nat),
        decreases n - k,
    {
        out.push(0);
        k = k + 1;
        assert(out@ =~= head + zeros((k - j) as nat));
    }
    proof {
        let r = (n - j) as nat;
        let tail = b@.subrange(j as int, n as int);
        assert(tail =~= ones(r));
        lemma_be_value_ones(r);
        lemma_be_value_zeros(zeros(r));
        if j == 0 {
            assert(b@ =~= ones(r));
            lemma_prepend_digit(1, zeros(r));
            assert(head =~= seq![1u8]);
        } else {
            let pre = b@.take(j - 1);
            let d = b@[j - 1];
            assert(b@ =~= pre.push(d) + tail);
            assert(head =~= pre.push((d + 1) as u8));
            lemma_be_value_split(pre, d, tail);
            lemma_be_value_split(pre, (d + 1) as u8, zeros(r));
            let p = pow2(8 * r);
            let q = be_value(pre) * 256;
            assert((q + d + 1) * p == (q + d) * p + p) by (nonlinear_arith);
        }
    }
    out
}

/// One less than the value of the bytes, which is not zero.
pub(crate) fn dec_bytes(b: &Vec<u8>) -> (r: Vec<u8>)
    requires
        be_value(b@) >= 1,
    ensures
        be_value(r@) == be_value(b@) - 1,
{
    let n = b.len();
    let mut j: usize = n;
    while j > 0 && b[j - 1] == 0
        invariant
            j <= b@.len(),
            n == b@.len(),
            forall|i: int| j <= i < b@.len() ==> b@[i] == 0,
        decreases j,
    {
        j = j - 1;
    }
    proof {
        if j == 0 {
            lemma_be_value_zeros(b@);
        }
    }
    let mut out: Vec<u8> = Vec::new();
    let mut i: usize = 0;
    while i < j - 1
        invariant
            0 < j <= b@.len(),
            i <= j - 1,
            out@ == b@.take(i as int),
        decreases j - 1 - i,
    {
        out.push(b[i]);
        i = i + 1;
        assert(out@ =~= b@.take(i as int));
    }
    out.push(b[j - 1] - 1);
    let ghost head = out@;
    let mut k: usize = j;
    while k < n
        invariant
            j <= k <= n,
            out@ == head + ones((k - j) as nat),
        decreases n - k,
    {
        out.push(255);
        k = k + 1;
        assert(out@ =~= head + ones((k - j) as nat));
    }
    proof {
        let r = (n - j) as nat;
        let tail = b@.subrange(j as int, n as int);
        assert(tail =~= zeros(r));
        lemma_be_value_ones(r);
        lemma_be_value_zeros(zeros(r));
        let pre = b@.take(j - 1);
        let d = b@[j - 1];
        assert(b@ =~= pre.push(d) + tail);
        assert(head =~= pre.push((d - 1) as u8));
        lemma_be_value_split(pre, d, tail);
        lemma_be_value_split(pre, (d - 1) as u8, ones(r));
        let p = pow2(8 * r);
        let q = be_value(pre) * 256;
        assert((q + d - 1) * p + (p - 1) == (q + d) * p - 1) by (nonlinear_arith);
    }
    out
}

/// The bytes with each bit flipped.
fn complement_bytes(b: &Vec<u8>) -> (r: Vec<u8>)
    ensures
        r@ == complement(b@),
{
    let mut c: Vec<u8> = Vec::new();
    let mut i: usize = 0;
    while i < b.len()
        invariant
            i <= b@.len(),
            c@ == complement(b@).take(i as int),
        decreases b.len() - i,
    {
        c.push(255 - b[i]);
        i = i + 1;
        assert(c@ =~= complement(b@).take(i as int));
    }
    assert(c@ =~= complement(b@));
    c
}

/// The integer that big-endian bytes encode, as a machine integer when it
/// fits.
fn wide_from_be(be: Vec<u8>, signed: bool) -> (r: WideInt)
    ensures
        wide_value(r) == bytes_int(be@, signed),
        wide_ok(r),
{
    let negative = signed && be.len() > 0 && be[0] >= 128;
    if negative {
        let c = complement_bytes(&be);
        let m = inc_bytes(&c);
        proof {
            lemma_complement_value(be@);
        }
        narrow_int(true, m)
    } else {
        narrow_int(false, be)
    }
}

/// The byte of an item of the iterable given to `from_bytes`.
pub open spec fn spec_from_byte(v: PyVal) -> Result<u8, ErrSpec> {
    match v {
        PyVal::Int(n) => if 0 <= n <= 255 { Ok(n as u8) } else { Err(ErrSpec::Value("bytes must be in range(0, 256)"@)) },
        PyVal::Bool(b) => Ok(if b { 1u8 } else { 0u8 }),
        other => Err(ErrSpec::Type("'"@ + crate::value::pyval_type_name(other) + "' object cannot be interpreted as an integer"@)),
    }
}

/// The bytes of the first `k` items, or the error of the first bad one.
pub open spec fn from_bytes_items(items: Seq<PyVal>, k: int) -> Result<Seq<u8>, ErrSpec>
    decreases k,
{
    if k <= 0 {
        Ok(Seq::empty())
    } else {
        match from_bytes_items(items, k - 1) {
            Err(es) => Err(es),
            Ok(acc) => match spec_from_byte(items[k - 1]) {
                Err(es) => Err(es),
                Ok(x) => Ok(acc.push(x)),
            },
        }
    }
}

proof fn lemma_from_bytes_err_persists(items: Seq<PyVal>, k: int, k2: int)
    requires
        0 <= k <= k2,
        from_bytes_items(items, k) is Err,
    ensures
        from_bytes_items(items, k2) == from_bytes_items(items, k),
    decreases k2 - k,
{
    if k2 > k {
        lemma_from_bytes_err_persists(items, k, k2 - 1);
    }
}

/// The big-endian source bytes of `from_bytes`, or the error.
pub open spec fn spec_from_bytes_source(args: Seq<Value>) -> Result<Seq<u8>, ErrSpec> {
    match arg_at(args, 0) {
        None => Err(ErrSpec::Type("from_bytes() missing required argument 'bytes' (pos 1)"@)),
        Some(Value::Bytes(b)) => Ok(b@),
        Some(Value::List(l)) => from_bytes_items(view_items(l@), l@.len() as int),
        Some(Value::Tuple(t)) => from_bytes_items(view_items(t@), t@.len() as int),
        Some(other) => Err(ErrSpec::Type("cannot convert '"@ + spec_py_type_name(other) + "' object to bytes"@)),
    }
}

/// What `int.from_bytes(bytes, byteorder='big', *, signed=False)` gives.
pub open spec fn spec_int_from_bytes(args: Seq<Value>, kws: Seq<(Seq<char>, Value)>) -> Result<int, ErrSpec> {
    match spec_from_bytes_source(args) {
        Err(es) => Err(es),
        Ok(src) => match spec_byteorder(arg_at(args, 1), kws) {
            Err(es) => Err(es),
            Ok(little) => Ok(bytes_int(if little { src.reverse() } else { src }, spec_signed_kw(kws))),
        },
    }
}

fn from_byte_items(items: &Vec<Value>) -> (r: Result<Vec<u8>, EvalError>)
    ensures
        match from_bytes_items(view_items(items@), items@.len() as int) {
            Ok(b) => r matches Ok(v) && v@ == b,
            Err(es) => r matches Err(e) && err_matches(e, es),
        },
{
    let ghost its = view_items(items@);
    let mut out: Vec<u8> = Vec::new();
    let mut i: usize = 0;
    while i < items.len()
        invariant
            its == view_items(items@),
            its.len() == items@.len(),
            i <= items@.len(),
            from_bytes_items(its, i as int) == Ok::<Seq<u8>, ErrSpec>(out@),
        decreases items.len() - i,
    {
        assert(its[i as int] == view_value(items@[i as int]));
        let x: u8 = match &items[i] {
            Value::Int(n) => if 0 <= *n && *n <= 255 {
                *n as u8
            } else {
                proof { lemma_from_bytes_err_persists(its, i + 1, items@.len() as int); }
                return Err(value_error(str_to_string("bytes must be in range(0, 256)")));
            },
            Value::Bool(b) => if *b { 1 } else { 0 },
            other => {
                proof {
                    crate::value::lemma_type_name_view(*other);
                    lemma_from_bytes_err_persists(its, i + 1, items@.len() as int);
                }
                let s1 = concat_str("'", other.py_type_name());
                let s2 = s1.concat("' object cannot be interpreted as an integer");
                return Err(type_error(s2));
            },
        };
        out.push(x);
        i = i + 1;
    }
    Ok(out)
}

pub(crate) fn reverse_bytes(b: &[u8]) -> (r: Vec<u8>)
    ensures
        r@ == b@.reverse(),
{
    let mut out: Vec<u8> = Vec::new();
    let mut i: usize = b.len();
    while i > 0
        invariant
            i <= b@.len(),
            out@ == b@.subrange(i as int, b@.len() as int).reverse(),
        decreases i,
    {
        i = i - 1;
        out.push(b[i]);
        assert(out@ =~= b@.subrange(i as int, b@.len() as int).reverse());
    }
    assert(b@.subrange(0, b@.len() as int) =~= b@);
    out
}

/// `int.from_bytes(bytes, byteorder='big', *, signed=False)`: the integer
/// that a `bytes` value, or a list or tuple of integers in
/// `range(0, 256)`, encodes; in two's complement when `signed`.
pub fn int_from_bytes(args: &[Value], kwargs: &IndexMap<String, Value>) -> (r: Result<WideInt, EvalError>)
    ensures
        match spec_int_from_bytes(args@, kwarg_entries(*kwargs)) {
            Ok(n) => r matches Ok(w) && wide_value(w) == n && wide_ok(w),
            Err(es) => r matches Err(e) && err_matches(e, es),
        },
{
    if args.len() == 0 {
        return Err(type_error(str_to_string("from_bytes() missing required argument 'bytes' (pos 1)")));
    }
    let be: Vec<u8> = match &args[0] {
        Value::Bytes(b) => crate::bytes_methods::sub_bytes(b.as_slice(), 0, b.len()),
        Value::List(l) => match from_byte_items(l) {
            Ok(b) => b,
            Err(e) => { return Err(e); },
        },
        Value::Tuple(t) => match from_byte_items(t) {
            Ok(b) => b,
            Err(e) => { return Err(e); },
        },
        other => {
            let s1 = concat_str("cannot convert '", other.py_type_name());
            let s2 = s1.concat("' object to bytes");
            return Err(type_error(s2));
        },
    };
    proof {
        if let Value::Bytes(b) = args@[0] {
            assert(b@.subrange(0, b@.len() as int) =~= b@);
        }
    }
    let little = match parse_byteorder(if args.len() > 1 { Some(&args[1]) } else { None }, kwargs) {
        Ok(l) => l,
        Err(e) => { return Err(e); },
    };
    let ordered = if little { reverse_bytes(&be) } else { be };
    let signed = signed_kw(kwargs);
    Ok(wide_from_be(ordered, signed))
}


// ---------------------------------------------------------------------------
// int.to_bytes
// ---------------------------------------------------------------------------

/// The `len` big-endian bytes of `x` modulo `2 ** (8 len)`.
pub open spec fn be_fixed(x: nat, len: nat) -> Seq<u8>
    decreases len,
{
    if len == 0 {
        Seq::empty()
    } else {
        be_fixed(x / 256, (len - 1) as nat).push((x % 256) as u8)
    }
}

/// No leading zero byte.
pub open spec fn no_lead_zero(t: Seq<u8>) -> bool {
    t.len() == 0 || t[0] != 0
}

/// Bytes are the fixed-width encoding of their own value.
proof fn lemma_be_fixed_of_value(s: Seq<u8>)
    ensures
        be_fixed(be_value(s), s.len()) == s,
    decreases s.len(),
{
    if s.len() > 0 {
        let r = s.drop_last();
        lemma_be_fixed_of_value(r);
        let q = be_value(r);
        let d = s.last();
        assert((q * 256 + d) / 256 == q && (q * 256 + d) % 256 == d) by (nonlinear_arith)
            requires 0 <= d < 256, q >= 0;
        assert(s =~= r.push(d));
    }
}

/// The value of a concatenation.
pub(crate) proof fn lemma_be_value_concat(a: Seq<u8>, b: Seq<u8>)
    ensures
        be_value(a + b) == be_value(a) * pow2((8 * b.len()) as nat) + be_value(b),
    decreases b.len(),
{
    vstd::arithmetic::power2::lemma2_to64();
    if b.len() == 0 {
        assert(a + b =~= a);
        assert(pow2(0) == 1);
        assert(be_value(a) * pow2(0) == be_value(a));
    } else {
        let b1 = b.drop_last();
        lemma_be_value_concat(a, b1);
        assert((a + b).drop_last() =~= a + b1);
        let k = (8 * b1.len()) as nat;
        vstd::arithmetic::power2::lemma_pow2_adds(k, 8);
        assert(8 * b.len() == k + 8);
        let av = be_value(a);
        let p = pow2(k);
        let bv1 = be_value(b1);
        let d = b.last();
        assert((a + b).last() == d);
        assert(be_value(a + b) == be_value(a + b1) * 256 + d);
        assert(be_value(b) == bv1 * 256 + d);
        assert((av * p + bv1) * 256 + d == av * (p * 256) + (bv1 * 256 + d)) by (nonlinear_arith);
        assert(p * 256 == pow2((8 * b.len()) as nat));
        assert(be_value(a + b) == av * pow2((8 * b.len()) as nat) + be_value(b));
    }
}

/// Zero bytes have value zero.
pub(crate) proof fn lemma_be_value_zeros(z: Seq<u8>)
    requires
        forall|i: int| 0 <= i < z.len() ==> z[i] == 0,
    ensures
        be_value(z) == 0,
    decreases z.len(),
{
    if z.len() > 0 {
        lemma_be_value_zeros(z.drop_last());
    }
}

/// Digits without a leading zero fit `len` bytes exactly when there are at
/// most `len` of them, and fit the signed window of `len` bytes exactly when
/// there are fewer, or as many with the top bit clear.
pub(crate) proof fn lemma_digits_fit(t: Seq<u8>, len: nat)
    requires
        no_lead_zero(t),
    ensures
        be_value(t) < pow2(8 * len) <==> t.len() <= len,
        len > 0 ==> (be_value(t) < pow2((8 * len - 1) as nat) <==> (t.len() < len || (t.len() == len && t[0] < 128))),
{
    let n = t.len();
    vstd::arithmetic::power2::lemma2_to64();
    lemma_be_value_bound(t);
    if n > 0 {
        let rest = t.subrange(1, n as int);
        let head = t.subrange(0, 1);
        assert(head + rest =~= t);
        lemma_be_value_concat(head, rest);
        lemma_be_value_bound(rest);
        assert(head.drop_last() =~= Seq::<u8>::empty());
        assert(be_value(head.drop_last()) == 0);
        assert(head.last() == t[0]);
        assert(be_value(head) == t[0]);
        let pr = pow2((8 * (n - 1)) as nat);
        assert(be_value(t) == t[0] * pr + be_value(rest));
        assert(be_value(t) >= pr) by (nonlinear_arith)
            requires be_value(t) == t[0] * pr + be_value(rest), t[0] >= 1, be_value(rest) >= 0;
        if n > len {
            if (8 * len) < (8 * (n - 1)) {
                vstd::arithmetic::power2::lemma_pow2_strictly_increases(8 * len, (8 * (n - 1)) as nat);
            }
            if len > 0 {
                vstd::arithmetic::power2::lemma_pow2_strictly_increases((8 * len - 1) as nat, 8 * len);
            }
        } else {
            if n < len {
                vstd::arithmetic::power2::lemma_pow2_strictly_increases(8 * n, (8 * len - 1) as nat);
            }
            if 8 * n < 8 * len {
                vstd::arithmetic::power2::lemma_pow2_strictly_increases(8 * n, 8 * len);
            }
            if n == len {
                vstd::arithmetic::power2::lemma_pow2_adds((8 * (n - 1)) as nat, 7);
                assert((8 * (n - 1)) as nat + 7 == (8 * len - 1) as nat);
                assert(pow2(7) == 128);
                if t[0] < 128 {
                    assert(t[0] * pr + be_value(rest) < 128 * pr) by (nonlinear_arith)
                        requires t[0] < 128, be_value(rest) < pr, t[0] >= 0;
                } else {
                    assert(t[0] * pr + be_value(rest) >= 128 * pr) by (nonlinear_arith)
                        requires t[0] >= 128, be_value(rest) >= 0, pr >= 0;
                }
            }
        }
    } else {
        vstd::arithmetic::power2::lemma_pow2_pos(8 * len);
        vstd::arithmetic::power2::lemma_pow2_pos((8 * len - 1) as nat);
    }
}

/// `n` zero bytes.
pub open spec fn zeros(n: nat) -> Seq<u8> {
    Seq::new(n, |i: int| 0u8)
}

/// The value of a byte put in front of others.
pub(crate) proof fn lemma_prepend_digit(d: u8, r: Seq<u8>)
    ensures
        be_value(seq![d] + r) == d * pow2((8 * r.len()) as nat) + be_value(r),
{
    let h = seq![d];
    lemma_be_value_concat(h, r);
    assert(h.drop_last() =~= Seq::<u8>::empty());
    assert(be_value(h.drop_last()) == 0);
    assert(be_value(h) == d);
}

/// The big-endian digits of `x`, without a leading zero.
pub(crate) fn magnitude_digits(x: u64) -> (r: Vec<u8>)
    ensures
        be_value(r@) == x,
        no_lead_zero(r@),
{
    let mut le: Vec<u8> = Vec::new();
    let mut y: u64 = x;
    proof {
        vstd::arithmetic::power2::lemma2_to64();
        assert(le@.reverse() =~= Seq::<u8>::empty());
        assert(pow2(0) * y == y);
    }
    while y > 0
        invariant
            x == be_value(le@.reverse()) + pow2((8 * le@.len()) as nat) * y,
            (le@.len() > 0 && y == 0) ==> le@.last() != 0,
            pow2(8) == 256,
        decreases y,
    {
        let d: u8 = (y % 256) as u8;
        let y2: u64 = y / 256;
        proof {
            let rr = le@.reverse();
            let k = (8 * le@.len()) as nat;
            lemma_prepend_digit(d, rr);
            assert(le@.push(d).reverse() =~= seq![d] + rr);
            vstd::arithmetic::power2::lemma_pow2_adds(k, 8);
            assert((8 * le@.push(d).len()) as nat == k + 8);
            let p = pow2(k);
            assert(p * (y as int) == d * p + (p * 256) * y2) by (nonlinear_arith)
                requires y == 256 * y2 + d;
        }
        le.push(d);
        y = y2;
    }
    let r = reverse_bytes(&le);
    proof {
        assert(pow2((8 * le@.len()) as nat) * y == 0) by (nonlinear_arith) requires y == 0;
        assert(le@.reverse().reverse() =~= le@);
        if r@.len() > 0 {
            assert(r@[0] == le@.last());
        }
    }
    r
}

/// The bytes without their leading zeros; the value is unchanged.
pub(crate) fn trim_zeros(c: &Vec<u8>) -> (r: Vec<u8>)
    ensures
        be_value(r@) == be_value(c@),
        no_lead_zero(r@),
{
    let mut j: usize = 0;
    while j < c.len() && c[j] == 0
        invariant
            j <= c@.len(),
            forall|i: int| 0 <= i < j ==> c@[i] == 0,
        decreases c.len() - j,
    {
        j = j + 1;
    }
    let r = crate::bytes_methods::sub_bytes(c.as_slice(), j, c.len());
    proof {
        let z = c@.subrange(0, j as int);
        assert(z + r@ =~= c@);
        lemma_be_value_zeros(z);
        lemma_be_value_concat(z, r@);
    }
    r
}

/// The magnitude that [`digits_of`] gives: the value itself when it is not
/// negative, else one less than its absolute value.
pub open spec fn magnitude_of(v: int) -> int {
    if v < 0 { -v - 1 } else { v }
}

/// Whether the integer is negative, and the big-endian digits (no leading
/// zero) of [`magnitude_of`] it.
fn digits_of(value: &WideInt) -> (r: (bool, Vec<u8>))
    ensures
        r.0 <==> wide_value(*value) < 0,
        be_value(r.1@) == magnitude_of(wide_value(*value)),
        no_lead_zero(r.1@),
{
    match value {
        WideInt::Small(i) => {
            if *i < 0 {
                let x: u64 = (-(*i + 1)) as u64;
                (true, magnitude_digits(x))
            } else {
                (false, magnitude_digits(*i as u64))
            }
        },
        WideInt::Large(neg, mag) => {
            let t = trim_zeros(mag);
            if *neg && t.len() > 0 {
                proof {
                    lemma_digits_fit(t@, 0);
                    vstd::arithmetic::power2::lemma2_to64();
                }
                let d = dec_bytes(&t);
                (true, trim_zeros(&d))
            } else {
                proof {
                    if t@.len() == 0 {
                        assert(be_value(t@) == 0);
                    }
                }
                (false, t)
            }
        },
    }
}

/// The `length` argument of `to_bytes` (positional, else keyword; 1 when
/// missing), or the error.
pub open spec fn spec_to_bytes_length(args: Seq<Value>, kws: Seq<(Seq<char>, Value)>) -> Result<nat, ErrSpec> {
    let v = match arg_at(args, 0) {
        Some(p) => Some(p),
        None => kwarg_from(kws, "length"@, 0),
    };
    match v {
        None => Ok(1),
        Some(Value::Int(n)) => if n >= 0 {
            Ok(n as nat)
        } else {
            Err(ErrSpec::Value("length argument must be non-negative"@))
        },
        Some(other) => Err(ErrSpec::Type(not_integer_msg(other))),
    }
}

/// The requested length fits a machine word.
pub open spec fn to_bytes_length_fits(args: Seq<Value>, kws: Seq<(Seq<char>, Value)>) -> bool {
    match spec_to_bytes_length(args, kws) {
        Ok(n) => n <= usize::MAX,
        Err(_) => true,
    }
}

/// Whether `v` can be written in `len` bytes: only zero in none; in two's
/// complement the window `[-2 ** (8 len - 1), 2 ** (8 len - 1))`; unsigned
/// `[0, 2 ** (8 len))`.
pub open spec fn fits_window(v: int, len: nat, signed: bool) -> bool {
    if len == 0 {
        v == 0
    } else if signed {
        -(pow2((8 * len - 1) as nat) as int) <= v < pow2((8 * len - 1) as nat)
    } else {
        0 <= v < pow2(8 * len)
    }
}

/// What `v.to_bytes(length=1, byteorder='big', *, signed=False)` gives.
pub open spec fn spec_int_to_bytes(v: int, args: Seq<Value>, kws: Seq<(Seq<char>, Value)>) -> Result<Seq<u8>, ErrSpec> {
    match spec_to_bytes_length(args, kws) {
        Err(es) => Err(es),
        Ok(len) => match spec_byteorder(arg_at(args, 1), kws) {
            Err(es) => Err(es),
            Ok(little) => {
                let signed = spec_signed_kw(kws);
                if v < 0 && !signed {
                    Err(ErrSpec::Exc("OverflowError"@, "can't convert negative int to unsigned"@))
                } else if !fits_window(v, len, signed) {
                    Err(ErrSpec::Exc("OverflowError"@, "int too big to convert"@))
                } else {
                    let be = be_fixed((v % (pow2(8 * len) as int)) as nat, len);
                    Ok(if little { be.reverse() } else { be })
                }
            },
        },
    }
}

/// The window test of [`fits_window`] read off the digits of the magnitude.
pub open spec fn digits_fit(t: Seq<u8>, len: nat, negative: bool, signed: bool) -> bool {
    if len == 0 {
        t.len() == 0 && !negative
    } else if signed {
        t.len() < len || (t.len() == len && t[0] < 128)
    } else {
        t.len() <= len
    }
}

proof fn lemma_window(t: Seq<u8>, len: nat, negative: bool, signed: bool, v: int)
    requires
        no_lead_zero(t),
        be_value(t) == magnitude_of(v),
        negative <==> v < 0,
        !(negative && !signed),
    ensures
        digits_fit(t, len, negative, signed) <==> fits_window(v, len, signed),
{
    lemma_digits_fit(t, len);
    vstd::arithmetic::power2::lemma2_to64();
}

/// `len` bytes: the digits padded with zeros in front, every bit flipped
/// when `negative` (two's complement of a negative number whose magnitude
/// less one the digits give).
fn encode_fixed(negative: bool, t: &Vec<u8>, len: usize) -> (out: Vec<u8>)
    requires
        t@.len() <= len,
    ensures
        out@.len() == len,
        be_value(out@) == if negative {
            pow2(8 * (len as nat)) - 1 - be_value(t@)
        } else {
            be_value(t@) as int
        },
{
    let pad: usize = len - t.len();
    let ghost p = zeros(pad as nat) + t@;
    let ghost full = if negative { complement(p) } else { p };
    let mut out: Vec<u8> = Vec::new();
    let mut i: usize = 0;
    while i < pad
        invariant
            i <= pad,
            pad + t@.len() == len,
            p == zeros(pad as nat) + t@,
            full == if negative { complement(p) } else { p },
            out@ == full.take(i as int),
        decreases pad - i,
    {
        out.push(if negative { 255 } else { 0 });
        i = i + 1;
        assert(out@ =~= full.take(i as int));
    }
    let mut j: usize = 0;
    while j < t.len()
        invariant
            j <= t@.len(),
            pad + t@.len() == len,
            p == zeros(pad as nat) + t@,
            full == if negative { complement(p) } else { p },
            out@ == full.take(pad + j),
        decreases t.len() - j,
    {
        out.push(if negative { 255 - t[j] } else { t[j] });
        j = j + 1;
        assert(out@ =~= full.take(pad + j));
    }
    proof {
        assert(full.take(len as int) =~= full);
        lemma_be_value_zeros(zeros(pad as nat));
        lemma_be_value_concat(zeros(pad as nat), t@);
        if negative {
            lemma_complement_value(p);
        }
    }
    out
}

/// `int.to_bytes(length=1, byteorder='big', *, signed=False)`: exactly
/// `length` bytes of the integer, raising `OverflowError` when it does not
/// fit or is negative without `signed=True`.
pub fn int_to_bytes(value: &WideInt, args: &[Value], kwargs: &IndexMap<String, Value>) -> (r: Result<Value, EvalError>)
    requires
        to_bytes_length_fits(args@, kwarg_entries(*kwargs)),
    ensures
        match spec_int_to_bytes(wide_value(*value), args@, kwarg_entries(*kwargs)) {
            Ok(b) => r matches Ok(Value::Bytes(out)) && out@ == b,
            Err(es) => r matches Err(e) && err_matches(e, es),
        },
{
    let lv = if args.len() > 0 { Some(&args[0]) } else { kwarg_get(kwargs, "length") };
    let len: usize = match lv {
        None => 1,
        Some(Value::Int(n)) => if *n >= 0 {
            *n as usize
        } else {
            return Err(value_error(str_to_string("length argument must be non-negative")));
        },
        Some(other) => { return Err(crate::numeric::not_integer(other)); },
    };
    let little = match parse_byteorder(if args.len() > 1 { Some(&args[1]) } else { None }, kwargs) {
        Ok(l) => l,
        Err(e) => { return Err(e); },
    };
    let signed = signed_kw(kwargs);
    let (negative, t) = digits_of(value);
    let ghost v = wide_value(*value);
    let ghost m = magnitude_of(v);
    if negative && !signed {
        return Err(exception("OverflowError", str_to_string("can't convert negative int to unsigned")));
    }
    let fits = if len == 0 {
        t.len() == 0 && !negative
    } else if signed {
        t.len() < len || (t.len() == len && t[0] < 128)
    } else {
        t.len() <= len
    };
    proof { lemma_window(t@, len as nat, negative, signed, v); }
    if !fits {
        return Err(exception("OverflowError", str_to_string("int too big to convert")));
    }
    let out = encode_fixed(negative, &t, len);
    proof {
        lemma_be_value_bound(t@);
        vstd::arithmetic::power2::lemma2_to64();
        if negative {
            assert(be_value(out@) == pow2(8 * (len as nat)) + v);
            assert((v % (pow2(8 * (len as nat)) as int)) == pow2(8 * (len as nat)) + v) by {
                if len > 0 {
                    vstd::arithmetic::power2::lemma_pow2_strictly_increases((8 * len - 1) as nat, 8 * (len as nat));
                }
                vstd::arithmetic::div_mod::lemma_fundamental_div_mod_converse(v, pow2(8 * (len as nat)) as int, -1, pow2(8 * (len as nat)) + v);
            }
        } else {
            assert((v % (pow2(8 * (len as nat)) as int)) == v) by {
                if len > 0 && signed {
                    vstd::arithmetic::power2::lemma_pow2_strictly_increases((8 * len - 1) as nat, 8 * (len as nat));
                }
                vstd::arithmetic::div_mod::lemma_small_mod(v as nat, pow2(8 * (len as nat)));
            }
        }
        lemma_be_fixed_of_value(out@);
    }
    let ordered = if little { reverse_bytes(&out) } else { out };
    Ok(Value::Bytes(ordered))
}

// ---------------------------------------------------------------------------
// Round trip
// ---------------------------------------------------------------------------

/// The fixed-width encoding has the requested length and the value modulo
/// `2 ** (8 len)`.
proof fn lemma_be_fixed_value(x: nat, len: nat)
    ensures
        be_fixed(x, len).len() == len,
        be_value(be_fixed(x, len)) == x % pow2(8 * len),
    decreases len,
{
    vstd::arithmetic::power2::lemma2_to64();
    if len == 0 {
        assert(x % 1 == 0);
    } else {
        let l1 = (len - 1) as nat;
        lemma_be_fixed_value(x / 256, l1);
        let f = be_fixed(x, len);
        assert(f.drop_last() =~= be_fixed(x / 256, l1));
        vstd::arithmetic::power2::lemma_pow2_adds(8, 8 * l1);
        assert(8 * len == 8 + 8 * l1);
        vstd::arithmetic::power2::lemma_pow2_pos(8 * l1);
        vstd::arithmetic::div_mod::lemma_mod_breakdown(x as int, 256, pow2(8 * l1) as int);
        assert(be_value(f) == be_value(f.drop_last()) * 256 + f.last());
    }
}

/// The top bit of the first of `len >= 1` bytes is set exactly when their
/// value reaches `2 ** (8 len - 1)`.
proof fn lemma_top_bit(b: Seq<u8>)
    requires
        b.len() >= 1,
    ensures
        b[0] >= 128 <==> be_value(b) >= pow2((8 * b.len() - 1) as nat),
{
    let n = b.len();
    vstd::arithmetic::power2::lemma2_to64();
    let rest = b.subrange(1, n as int);
    let head = b.subrange(0, 1);
    assert(head + rest =~= b);
    lemma_be_value_concat(head, rest);
    lemma_be_value_bound(rest);
    assert(head.drop_last() =~= Seq::<u8>::empty());
    assert(be_value(head.drop_last()) == 0);
    assert(head.last() == b[0]);
    let pr = pow2((8 * (n - 1)) as nat);
    vstd::arithmetic::power2::lemma_pow2_adds((8 * (n - 1)) as nat, 7);
    assert((8 * (n - 1)) as nat + 7 == (8 * n - 1) as nat);
    if b[0] < 128 {
        assert(b[0] * pr + be_value(rest) < 128 * pr) by (nonlinear_arith)
            requires b[0] < 128, be_value(rest) < pr, b[0] >= 0;
    } else {
        assert(b[0] * pr + be_value(rest) >= 128 * pr) by (nonlinear_arith)
            requires b[0] >= 128, be_value(rest) >= 0, pr >= 0;
    }
}

/// Writing an integer that fits into `len` bytes with `to_bytes` and reading
/// the bytes back with `from_bytes`, in the same byte order and signedness,
/// gives the integer back.
pub proof fn law_to_bytes_then_from_bytes(v: int, len: nat, signed: bool, little: bool)
    requires
        fits_window(v, len, signed),
        v >= 0 || signed,
    ensures
        ({
            let be = be_fixed((v % (pow2(8 * len) as int)) as nat, len);
            let written = if little { be.reverse() } else { be };
            bytes_int(if little { written.reverse() } else { written }, signed) == v
        }),
{
    vstd::arithmetic::power2::lemma2_to64();
    vstd::arithmetic::power2::lemma_pow2_pos(8 * len);
    let pw = pow2(8 * len) as int;
    let x = (v % pw) as nat;
    let be = be_fixed(x, len);
    lemma_be_fixed_value(x, len);
    assert(be.reverse().reverse() =~= be);
    if len > 0 {
        vstd::arithmetic::power2::lemma_pow2_strictly_increases((8 * len - 1) as nat, 8 * len);
        vstd::arithmetic::power2::lemma_pow2_adds((8 * len - 1) as nat, 1);
        assert((8 * len - 1) as nat + 1 == 8 * len);
    }
    if v >= 0 {
        vstd::arithmetic::div_mod::lemma_small_mod(v as nat, pw as nat);
        assert(x % (pw as nat) == x) by {
            vstd::arithmetic::div_mod::lemma_small_mod(x, pw as nat);
        }
        if signed && len > 0 {
            lemma_top_bit(be);
        }
    } else {
        vstd::arithmetic::div_mod::lemma_fundamental_div_mod_converse(v, pw, -1, pw + v);
        assert(x % (pw as nat) == x) by {
            vstd::arithmetic::div_mod::lemma_small_mod(x, pw as nat);
        }
        lemma_top_bit(be);
    }
}

/// Reading `n` bytes with `from_bytes` and writing the integer back with
/// `to_bytes` in `n` bytes, in the same byte order and signedness, gives the
/// bytes back: the integer always fits, and is negative only when signed.
pub proof fn law_from_bytes_then_to_bytes(raw: Seq<u8>, signed: bool, little: bool)
    ensures
        ({
            let v = bytes_int(if little { raw.reverse() } else { raw }, signed);
            let len = raw.len();
            &&& fits_window(v, len, signed)
            &&& (v >= 0 || signed)
            &&& ({
                let be = be_fixed((v % (pow2(8 * len) as int)) as nat, len);
                (if little { be.reverse() } else { be }) == raw
            })
        }),
{
    let b = if little { raw.reverse() } else { raw };
    let len = raw.len();
    assert(b.len() == len);
    let v = bytes_int(b, signed);
    let pw = pow2(8 * len) as int;
    vstd::arithmetic::power2::lemma2_to64();
    vstd::arithmetic::power2::lemma_pow2_pos(8 * len);
    lemma_be_value_bound(b);
    lemma_be_fixed_of_value(b);
    if len > 0 {
        vstd::arithmetic::power2::lemma_pow2_adds((8 * len - 1) as nat, 1);
        assert((8 * len - 1) as nat + 1 == 8 * len);
        lemma_top_bit(b);
    }
    if signed && len > 0 && b[0] >= 128 {
        vstd::arithmetic::div_mod::lemma_fundamental_div_mod_converse(v, pw, -1, be_value(b) as int);
    } else {
        vstd::arithmetic::div_mod::lemma_small_mod(be_value(b), pw as nat);
    }
    assert((v % pw) as nat == be_value(b));
    assert(raw.reverse().reverse() =~= raw);
}

/// The round trip over the two calls: when `v.to_bytes(length, byteorder,
/// **kws)` gives bytes, `int.from_bytes(those bytes, byteorder, **kws)`
/// gives `v` back (the same keywords, so the same signedness).
pub proof fn law_to_bytes_call_then_from_bytes_call(v: int, length: i64, order: Value, kws: Seq<(Seq<char>, Value)>, out: Seq<u8>, bytes: Vec<u8>)
    requires
        spec_int_to_bytes(v, seq![Value::Int(length), order], kws) == Ok::<Seq<u8>, ErrSpec>(out),
        bytes@ == out,
    ensures
        spec_int_from_bytes(seq![Value::Bytes(bytes), order], kws) == Ok::<int, ErrSpec>(v),
{
    let args = seq![Value::Int(length), order];
    let len = length as nat;
    let little = spec_byteorder(Some(order), kws)->Ok_0;
    let signed = spec_signed_kw(kws);
    assert(arg_at(args, 0) == Some(Value::Int(length)));
    assert(arg_at(args, 1) == Some(order));
    law_to_bytes_then_from_bytes(v, len, signed, little);
    let args2 = seq![Value::Bytes(bytes), order];
    assert(arg_at(args2, 0) == Some(Value::Bytes(bytes)));
    assert(arg_at(args2, 1) == Some(order));
}

} // verus!
