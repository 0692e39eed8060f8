//! Integer helpers shared by the builtins and the method tables: index and
//! length conversions, integer arguments, argument counts, rounding and
//! modular exponentiation.

use vstd::prelude::*;
use crate::value::{Value, spec_py_type_name};
use crate::error::{EvalError, is_type_error, is_runtime_error, type_error, runtime_error, decimal, decimal_chars};
use crate::text::{concat_str, str_to_string, string_from_chars};

verus! {

/// Convert a Python-visible `i64` index into a `usize` slot, failing with a
/// `RuntimeError` when it is negative or does not fit.
pub fn to_index(i: i64) -> (r: Result<usize, EvalError>)
    ensures
        r is Ok <==> 0 <= i <= usize::MAX,
        r matches Ok(u) ==> u == i,
        r matches Err(e) ==> is_runtime_error(e, "index overflow or negative"@),
{
    if i < 0 {
        return Err(runtime_error(str_to_string("index overflow or negative")));
    }
    let u: u64 = i as u64;
    if u > usize::MAX as u64 {
        return Err(runtime_error(str_to_string("index overflow or negative")));
    }
    Ok(u as usize)
}

/// The magnitude of `x` as an unsigned integer.
pub fn magnitude(x: i64) -> (r: u64)
    ensures
        r == (if x < 0 { -(x as int) } else { x as int }),
{
    if x >= 0 {
        x as u64
    } else if x == i64::MIN {
        0x8000_0000_0000_0000u64
    } else {
        (-x) as u64
    }
}

/// Convert a container length into `i64` for signed index arithmetic,
/// failing with a `RuntimeError` when it exceeds `i64::MAX`.
pub fn to_len_i64(len: usize) -> (r: Result<i64, EvalError>)
    ensures
        r is Ok <==> len <= i64::MAX,
        r matches Ok(n) ==> n == len,
        r matches Err(e) ==> is_runtime_error(e, "collection length overflows i64"@),
{
    if len as u64 > i64::MAX as u64 {
        return Err(runtime_error(str_to_string("collection length overflows i64")));
    }
    Ok(len as i64)
}

/// The integer an argument stands for, when it is an `int` or a `bool`.
pub open spec fn spec_int_of(v: Value) -> Option<int> {
    match v {
        Value::Int(i) => Some(i as int),
        Value::Bool(b) => Some(if b { 1int } else { 0int }),
        _ => None,
    }
}

/// The message for a value that is not an integer.
pub open spec fn not_integer_msg(v: Value) -> Seq<char> {
    "'"@ + spec_py_type_name(v) + "' object cannot be interpreted as an integer"@
}

/// `'{type}' object cannot be interpreted as an integer` for `v`.
pub fn not_integer(v: &Value) -> (e: EvalError)
    ensures
        is_type_error(e, not_integer_msg(*v)),
{
    let s1 = concat_str("'", v.py_type_name());
    let s2 = s1.concat("' object cannot be interpreted as an integer");
    assert(s2@ =~= not_integer_msg(*v));
    type_error(s2)
}

/// Read an integer-valued argument: an `int`, or a `bool` as 0/1. Anything
/// else, a float included, raises `TypeError`.
pub fn value_to_i64(val: &Value) -> (r: Result<i64, EvalError>)
    ensures
        spec_int_of(*val) is Some <==> r is Ok,
        r matches Ok(i) ==> spec_int_of(*val) == Some(i as int),
        r matches Err(e) ==> is_type_error(e, not_integer_msg(*val)),
{
    match val {
        Value::Int(i) => Ok(*i),
        Value::Bool(b) => Ok(if *b { 1 } else { 0 }),
        _ => Err(not_integer(val)),
    }
}

/// An optional integer index argument: missing or `None` is `None`; any
/// other value must be an integer.
pub open spec fn spec_opt_index(arg: Option<Value>) -> Result<Option<int>, Seq<char>> {
    match arg {
        None => Ok(None),
        Some(Value::PyNone) => Ok(None),
        Some(v) => match spec_int_of(v) {
            Some(i) => Ok(Some(i)),
            None => Err(not_integer_msg(v)),
        },
    }
}

/// Optional integer index argument: missing or `None` gives `None` (use the
/// default); otherwise it is read as an integer.
pub fn opt_index_arg(arg: Option<&Value>) -> (r: Result<Option<i64>, EvalError>)
    ensures
        match spec_opt_index(match arg { Some(v) => Some(*v), None => None }) {
            Ok(o) => r matches Ok(o2) && o == (match o2 { Some(i) => Some(i as int), None => None::<int> }),
            Err(m) => r matches Err(e) && is_type_error(e, m),
        },
{
    match arg {
        None => Ok(None),
        Some(Value::PyNone) => Ok(None),
        Some(v) => match value_to_i64(v) {
            Ok(i) => Ok(Some(i)),
            Err(e) => Err(e),
        },
    }
}

/// The argument at `i`, if there is one.
pub open spec fn arg_at(args: Seq<Value>, i: int) -> Option<Value> {
    if 0 <= i < args.len() { Some(args[i]) } else { None }
}

/// `i` counted from the end when negative, then clamped into `[0, len]`.
pub open spec fn clamp_index(i: int, len: int) -> int {
    let j = if i < 0 { i + len } else { i };
    if j < 0 { 0 } else if j > len { len } else { j }
}

pub fn clamp_index_exec(i: i64, len: i64) -> (r: i64)
    requires
        0 <= len,
    ensures
        r == clamp_index(i as int, len as int),
{
    let j: i64 = if i < 0 { i + len } else { i };
    if j < 0 { 0 } else if j > len { len } else { j }
}

/// A bound argument clamped into `[0, len]`, or the message of the
/// `TypeError` raised for a non-integer.
pub open spec fn clamped_bound(arg: Option<Value>, default: int, len: int) -> Result<int, Seq<char>> {
    match arg {
        None => Ok(default),
        Some(v) => match spec_int_of(v) {
            Some(i) => Ok(clamp_index(i, len)),
            None => Err(not_integer_msg(v)),
        },
    }
}

/// The bounds of `list.index`/`tuple.index(value, start, stop)` over `len`
/// elements, or the message of the `TypeError` raised.
pub open spec fn spec_sequence_index_range(method: Seq<char>, args: Seq<Value>, len: int) -> Result<(int, int), Seq<char>> {
    if args.len() == 0 || args.len() > 3 {
        Err(method + "() takes 1 to 3 arguments"@)
    } else {
        match clamped_bound(arg_at(args, 1), 0, len) {
            Err(m) => Err(m),
            Ok(start) => match clamped_bound(arg_at(args, 2), len, len) {
                Err(m) => Err(m),
                Ok(end) => Ok((start, if end < start { start } else { end })),
            },
        }
    }
}

fn clamped_bound_exec(arg: Option<&Value>, default: i64, len: i64) -> (r: Result<i64, EvalError>)
    requires
        0 <= default <= len,
    ensures
        match clamped_bound(match arg { Some(v) => Some(*v), None => None }, default as int, len as int) {
            Ok(b) => r matches Ok(b2) && b2 == b,
            Err(m) => r matches Err(e) && is_type_error(e, m),
        },
{
    match arg {
        None => Ok(default),
        Some(v) => match value_to_i64(v) {
            Ok(i) => Ok(clamp_index_exec(i, len)),
            Err(e) => Err(e),
        },
    }
}

/// Resolve the optional `start`/`end` arguments of `list.index` and
/// `tuple.index` into a half-open slot range over `len` elements. The bounds
/// are integer-only; negative ones count from the end and clamp to
/// `[0, len]`; an inverted range collapses to empty at `start`.
pub fn sequence_index_range(method: &str, args: &[Value], len: usize) -> (r: Result<(usize, usize), EvalError>)
    requires
        len <= i64::MAX,
    ensures
        match spec_sequence_index_range(method@, args@, len as int) {
            Ok((a, b)) => r matches Ok((a2, b2)) && a2 == a && b2 == b,
            Err(m) => r matches Err(e) && is_type_error(e, m),
        },
{
    if args.len() == 0 || args.len() > 3 {
        return Err(type_error(concat_str(method, "() takes 1 to 3 arguments")));
    }
    let len_i = len as i64;
    let start = match clamped_bound_exec(if args.len() > 1 { Some(&args[1]) } else { None }, 0, len_i) {
        Ok(v) => v,
        Err(e) => { return Err(e); },
    };
    let end = match clamped_bound_exec(if args.len() > 2 { Some(&args[2]) } else { None }, len_i, len_i) {
        Ok(v) => v,
        Err(e) => { return Err(e); },
    };
    let end2 = if end < start { start } else { end };
    Ok((start as usize, end2 as usize))
}

/// The message for a wrong number of arguments.
pub open spec fn arg_count_msg(name: Seq<char>, given: nat, min: nat, max: nat) -> Seq<char> {
    if min == max {
        name + "() takes exactly "@ + decimal(min) + " argument(s) ("@ + decimal(given) + " given)"@
    } else {
        name + "() takes "@ + decimal(min) + " to "@ + decimal(max) + " arguments ("@ + decimal(given) + " given)"@
    }
}

/// Check that a builtin received between `min` and `max` positional
/// arguments, raising `TypeError` otherwise.
pub fn check_arg_count(name: &str, args: &[Value], min: usize, max: usize) -> (r: Result<(), EvalError>)
    ensures
        r is Ok <==> min <= args@.len() <= max,
        r matches Err(e) ==> is_type_error(e, arg_count_msg(name@, args@.len(), min as nat, max as nat)),
{
    let n = args.len();
    if n < min || n > max {
        let given = string_from_chars(&decimal_chars(n as u64));
        let lo = string_from_chars(&decimal_chars(min as u64));
        if min == max {
            let s1 = concat_str(name, "() takes exactly ");
            let s2 = s1.concat(lo.as_str());
            let s3 = s2.concat(" argument(s) (");
            let s4 = s3.concat(given.as_str());
            let s5 = s4.concat(" given)");
            assert(s5@ =~= arg_count_msg(name@, args@.len(), min as nat, max as nat));
            return Err(type_error(s5));
        }
        let hi = string_from_chars(&decimal_chars(max as u64));
        let s1 = concat_str(name, "() takes ");
        let s2 = s1.concat(lo.as_str());
        let s3 = s2.concat(" to ");
        let s4 = s3.concat(hi.as_str());
        let s5 = s4.concat(" arguments (");
        let s6 = s5.concat(given.as_str());
        let s7 = s6.concat(" given)");
        assert(s7@ =~= arg_count_msg(name@, args@.len(), min as nat, max as nat));
        return Err(type_error(s7));
    }
    Ok(())
}

} // verus!
