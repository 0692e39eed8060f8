//! The method table of `int` receivers that fit a machine word: rounding,
//! bit length and count, the numeric-tower attributes and the unary dunders.

use vstd::prelude::*;
use indexmap::IndexMap;
use crate::value::{Value, PyVal};
use crate::error::{EvalError, ErrSpec, err_matches, type_error};
use crate::kwargs::{kwarg_entries, reject_kwargs, unexpected_kwarg_msg};
use crate::numeric::{spec_int_of, not_integer_msg, arg_at, value_to_i64, magnitude};
use crate::arith::round_int;
use crate::int_bytes::{WideInt, wide_value, wide_ok};
use crate::wide_methods::spec_round_bigint;
use crate::bytes_methods::{no_attr_msg, no_attribute};
use crate::text::str_eq;

verus! {

/// What an `int` method hands back: a value, an integer of any size (a
/// rounded result), or a result that the value model does not hold and the
/// caller builds: the integer `2 ** 63` (the negation or magnitude of the
/// smallest machine integer), or the float nearest to an integer.
pub enum IntReply {
    Value(Value),
    Int(WideInt),
    MinMagnitude,
    ToFloat(i64),
}

/// The ghost form of an [`IntReply`].
pub enum IntReplyView {
    Value(PyVal),
    Int(int),
    MinMagnitude,
    ToFloat(int),
}

pub open spec fn int_reply_view(r: IntReply) -> IntReplyView {
    match r {
        IntReply::Value(v) => IntReplyView::Value(v@),
        IntReply::Int(w) => IntReplyView::Int(wide_value(w)),
        IntReply::MinMagnitude => IntReplyView::MinMagnitude,
        IntReply::ToFloat(i) => IntReplyView::ToFloat(i as int),
    }
}

/// The number of bits of `n`: 0 for 0, else one more than that of `n / 2`.
pub open spec fn bit_len(n: nat) -> nat
    decreases n,
{
    if n == 0 { 0 } else { 1 + bit_len(n / 2) }
}

/// The number of one bits of `n`.
pub open spec fn popcount(n: nat) -> nat
    decreases n,
{
    if n == 0 { 0 } else { (n % 2) + popcount(n / 2) }
}

pub(crate) proof fn lemma_bit_len_bound(n: nat)
    ensures
        bit_len(n) <= n,
        popcount(n) <= n,
    decreases n,
{
    if n > 0 {
        lemma_bit_len_bound(n / 2);
    }
}

/// The bit length of `n`.
pub(crate) fn bit_length_of(n: u64) -> (r: u64)
    ensures
        r == bit_len(n as nat),
{
    let mut m: u64 = n;
    let mut k: u64 = 0;
    proof { lemma_bit_len_bound(n as nat); }
    while m > 0
        invariant
            k + bit_len(m as nat) == bit_len(n as nat),
            bit_len(n as nat) <= n,
        decreases m,
    {
        m = m / 2;
        k = k + 1;
    }
    k
}

/// The number of one bits of `n`.
pub(crate) fn bit_count_of(n: u64) -> (r: u64)
    ensures
        r == popcount(n as nat),
{
    let mut m: u64 = n;
    let mut k: u64 = 0;
    proof { lemma_bit_len_bound(n as nat); }
    while m > 0
        invariant
            k + popcount(m as nat) == popcount(n as nat),
            popcount(n as nat) <= n,
        decreases m,
    {
        k = k + m % 2;
        m = m / 2;
    }
    k
}

/// The `ndigits` of `__round__`: missing or `None` is no rounding; otherwise
/// an integer.
pub open spec fn spec_round_ndigits(args: Seq<Value>) -> Result<Option<int>, ErrSpec> {
    match arg_at(args, 0) {
        None => Ok(None),
        Some(Value::PyNone) => Ok(None),
        Some(v) => match spec_int_of(v) {
            Some(n) => Ok(Some(n)),
            None => Err(ErrSpec::Type(not_integer_msg(v))),
        },
    }
}

pub(crate) fn round_ndigits(args: &[Value]) -> (r: Result<Option<i64>, EvalError>)
    ensures
        match spec_round_ndigits(args@) {
            Ok(o) => r matches Ok(o2) && o == match o2 { Some(n) => Some(n as int), None => None::<int> },
            Err(es) => r matches Err(e) && err_matches(e, es),
        },
{
    if args.len() == 0 {
        return Ok(None);
    }
    match &args[0] {
        Value::PyNone => Ok(None),
        v => match value_to_i64(v) {
            Ok(n) => Ok(Some(n)),
            Err(e) => Err(e),
        },
    }
}

/// The calls that can be completed: all but `__round__` with an `ndigits`
/// of `i64::MIN`, whose negation overflows.
pub open spec fn int_method_fits(i: i64, method: Seq<char>, args: Seq<Value>) -> bool {
    method == "__round__"@ ==> match spec_round_ndigits(args) {
        Ok(nd) => nd != Some(i64::MIN as int),
        Err(_) => true,
    }
}

/// What each `int` method returns for the receiver `i`.
pub open spec fn spec_int_method(i: int, method: Seq<char>, args: Seq<Value>) -> Result<IntReplyView, ErrSpec> {
    if method == "__round__"@ {
        match spec_round_ndigits(args) {
            Err(es) => Err(es),
            Ok(nd) => Ok(IntReplyView::Int(spec_round_bigint(i, nd))),
        }
    } else if method == "bit_length"@ {
        Ok(IntReplyView::Value(PyVal::Int(bit_len((if i < 0 { -i } else { i }) as nat) as int)))
    } else if method == "bit_count"@ {
        Ok(IntReplyView::Value(PyVal::Int(popcount((if i < 0 { -i } else { i }) as nat) as int)))
    } else if method == "conjugate"@ || method == "real"@ || method == "numerator"@ {
        Ok(IntReplyView::Value(PyVal::Int(i)))
    } else if method == "imag"@ {
        Ok(IntReplyView::Value(PyVal::Int(0)))
    } else if method == "denominator"@ {
        Ok(IntReplyView::Value(PyVal::Int(1)))
    } else if method == "as_integer_ratio"@ {
        Ok(IntReplyView::Value(PyVal::Tuple(seq![PyVal::Int(i), PyVal::Int(1)])))
    } else if method == "__index__"@ || method == "__int__"@ || method == "__trunc__"@ || method == "__floor__"@
        || method == "__ceil__"@ || method == "__pos__"@ {
        Ok(IntReplyView::Value(PyVal::Int(i)))
    } else if method == "__float__"@ {
        Ok(IntReplyView::ToFloat(i))
    } else if method == "__bool__"@ {
        Ok(IntReplyView::Value(PyVal::Bool(i != 0)))
    } else if method == "__invert__"@ {
        Ok(IntReplyView::Value(PyVal::Int(-i - 1)))
    } else if method == "__neg__"@ {
        if i == i64::MIN { Ok(IntReplyView::MinMagnitude) } else { Ok(IntReplyView::Value(PyVal::Int(-i))) }
    } else if method == "__abs__"@ {
        if i == i64::MIN {
            Ok(IntReplyView::MinMagnitude)
        } else {
            Ok(IntReplyView::Value(PyVal::Int(if i < 0 { -i } else { i })))
        }
    } else {
        Err(ErrSpec::Attribute(no_attr_msg("int"@, method)))
    }
}

/// What a call of an `int` method returns; every `int` method here is
/// positional-only.
pub open spec fn spec_dispatch_int(i: int, method: Seq<char>, args: Seq<Value>, kws: Seq<(Seq<char>, Value)>) -> Result<IntReplyView, ErrSpec> {
    if kws.len() > 0 {
        Err(ErrSpec::Type(unexpected_kwarg_msg(method, kws[0].0)))
    } else {
        spec_int_method(i, method, args)
    }
}

fn int_value(v: Value) -> (r: Result<IntReply, EvalError>)
    ensures
        r matches Ok(x) && int_reply_view(x) == IntReplyView::Value(v@),
{
    Ok(IntReply::Value(v))
}

/// Dispatch a method call on an `int` receiver: `__round__`, `bit_length`,
/// `bit_count`, the numeric-tower attributes (`real`, `imag`, `numerator`,
/// `denominator`, `conjugate`, `as_integer_ratio`) and the unary dunders.
#[verifier::rlimit(40)]
pub fn dispatch_int_method(i: i64, method: &str, args: &[Value], kwargs: &IndexMap<String, Value>)
    -> (r: Result<IntReply, EvalError>)
    requires
        int_method_fits(i, method@, args@),
    ensures
        match spec_dispatch_int(i as int, method@, args@, kwarg_entries(*kwargs)) {
            Ok(v) => r matches Ok(x) && int_reply_view(x) == v,
            Err(es) => r matches Err(e) && err_matches(e, es),
        },
        r matches Ok(IntReply::Int(w)) ==> wide_ok(w),
{
    match reject_kwargs(method, kwargs) {
        Ok(()) => {},
        Err(e) => { return Err(e); },
    }
    let m = method;
    if str_eq(m, "__round__") {
        let nd = match round_ndigits(args) {
            Ok(nd) => nd,
            Err(e) => { return Err(e); },
        };
        Ok(IntReply::Int(round_int(i, nd)))
    } else if str_eq(m, "bit_length") {
        let mag = magnitude(i);
        let bits = bit_length_of(mag);
        proof { lemma_bit_len_bound(mag as nat); }
        assert(bits <= 64) by {
            vstd::arithmetic::power2::lemma2_to64();
            lemma_bit_len_pow2(mag as nat, 64);
        }
        int_value(Value::Int(bits as i64))
    } else if str_eq(m, "bit_count") {
        let mag = magnitude(i);
        let ones = bit_count_of(mag);
        assert(ones <= 64) by {
            vstd::arithmetic::power2::lemma2_to64();
            lemma_popcount_bound(mag as nat, 64);
        }
        int_value(Value::Int(ones as i64))
    } else if str_eq(m, "conjugate") || str_eq(m, "real") || str_eq(m, "numerator") {
        int_value(Value::Int(i))
    } else if str_eq(m, "imag") {
        int_value(Value::Int(0))
    } else if str_eq(m, "denominator") {
        int_value(Value::Int(1))
    } else if str_eq(m, "as_integer_ratio") {
        let mut pair: Vec<Value> = Vec::new();
        pair.push(Value::Int(i));
        pair.push(Value::Int(1));
        proof {
            assert(pair@ =~= seq![Value::Int(i), Value::Int(1)]);
            crate::value::lemma_view_items(pair@);
            assert(crate::value::view_items(pair@) =~= seq![PyVal::Int(i as int), PyVal::Int(1)]);
        }
        int_value(Value::Tuple(pair))
    } else if str_eq(m, "__index__") || str_eq(m, "__int__") || str_eq(m, "__trunc__") || str_eq(m, "__floor__")
        || str_eq(m, "__ceil__") || str_eq(m, "__pos__") {
        int_value(Value::Int(i))
    } else if str_eq(m, "__float__") {
        Ok(IntReply::ToFloat(i))
    } else if str_eq(m, "__bool__") {
        int_value(Value::Bool(i != 0))
    } else if str_eq(m, "__invert__") {
        assert(!i == -i - 1) by (bit_vector);
        int_value(Value::Int(!i))
    } else if str_eq(m, "__neg__") {
        if i == i64::MIN { Ok(IntReply::MinMagnitude) } else { int_value(Value::Int(-i)) }
    } else if str_eq(m, "__abs__") {
        if i == i64::MIN {
            Ok(IntReply::MinMagnitude)
        } else {
            int_value(Value::Int(if i < 0 { -i } else { i }))
        }
    } else {
        Err(no_attribute("int", method))
    }
}

/// A number below `2 ** k` has at most `k` bits.
proof fn lemma_bit_len_pow2(n: nat, k: nat)
    requires
        n < vstd::arithmetic::power2::pow2(k),
    ensures
        bit_len(n) <= k,
    decreases k,
{
    if n > 0 {
        if k == 0 {
            vstd::arithmetic::power2::lemma2_to64();
        } else {
            vstd::arithmetic::power2::lemma_pow2_unfold(k);
            lemma_bit_len_pow2(n / 2, (k - 1) as nat);
        }
    }
}

/// A number below `2 ** k` has at most `k` one bits.
proof fn lemma_popcount_bound(n: nat, k: nat)
    requires
        n < vstd::arithmetic::power2::pow2(k),
    ensures
        popcount(n) <= k,
    decreases k,
{
    if n > 0 {
        if k == 0 {
            vstd::arithmetic::power2::lemma2_to64();
        } else {
            vstd::arithmetic::power2::lemma_pow2_unfold(k);
            lemma_popcount_bound(n / 2, (k - 1) as nat);
        }
    }
}

} // verus!
