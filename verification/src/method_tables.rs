//! The method-table entries that route a receiver slot to the method table
//! of its type: `str`, `bytes`, `bytearray` and `int`.

use vstd::prelude::*;
use indexmap::IndexMap;
use crate::value::{Value, PyVal};
use crate::error::{EvalError, ErrSpec, err_matches, type_error};
use crate::kwargs::kwarg_entries;
use crate::outcome::MethodOutcome;
use crate::text::concat_str;
use crate::str_methods::{dispatch_string_method, spec_dispatch_str};
use crate::bytes_methods::{dispatch_bytes_method, spec_dispatch_bytes, dispatch_bytearray_method,
    spec_bytearray_method};
use crate::int_methods::{IntReply, IntReplyView, int_reply_view, dispatch_int_method, spec_dispatch_int,
    int_method_fits};
use crate::int_bytes::{WideInt, int_to_bytes, spec_int_to_bytes, to_bytes_length_fits};
use crate::text::str_eq;

verus! {

/// The message of a receiver routed to the wrong table.
pub open spec fn mismatch_msg(expected: Seq<char>) -> Seq<char> {
    "internal: method table expected "@ + expected
}

/// The error of a receiver routed to the wrong table.
pub fn type_mismatch(expected: &str) -> (e: EvalError)
    ensures
        err_matches(e, ErrSpec::Type(mismatch_msg(expected@))),
{
    type_error(concat_str("internal: method table expected ", expected))
}

/// A pure outcome described by a result of the value's view.
pub open spec fn outcome_matches(r: Result<MethodOutcome, EvalError>, s: Result<PyVal, ErrSpec>) -> bool {
    match s {
        Ok(v) => r matches Ok(o) && o.value@ == v && o.mem_delta == 0,
        Err(es) => r matches Err(e) && err_matches(e, es),
    }
}

/// The `str` table entry: a `str` receiver runs `dispatch_string_method`.
pub fn str_methods(obj: &mut Value, method: &str, args: &[Value], kwargs: &IndexMap<String, Value>)
    -> (r: Result<MethodOutcome, EvalError>)
    requires
        *old(obj) matches Value::String(s) ==> s@.len() < usize::MAX,
    ensures
        *final(obj) == *old(obj),
        match *old(obj) {
            Value::String(s) => outcome_matches(r, spec_dispatch_str(s@, method@, args@, kwarg_entries(*kwargs))),
            _ => r matches Err(e) && err_matches(e, ErrSpec::Type(mismatch_msg("str"@))),
        },
{
    match obj {
        Value::String(s) => match dispatch_string_method(s.as_str(), method, args, kwargs) {
            Ok(v) => Ok(MethodOutcome::pure(v)),
            Err(e) => Err(e),
        },
        _ => Err(type_mismatch("str")),
    }
}

/// The `bytes` table entry: a `bytes` receiver runs `dispatch_bytes_method`.
pub fn bytes_methods(obj: &mut Value, method: &str, args: &[Value], kwargs: &IndexMap<String, Value>)
    -> (r: Result<MethodOutcome, EvalError>)
    requires
        *old(obj) matches Value::Bytes(b) ==> b@.len() < usize::MAX,
    ensures
        *final(obj) == *old(obj),
        match *old(obj) {
            Value::Bytes(b) => outcome_matches(r, spec_dispatch_bytes(b@, method@, args@, kwarg_entries(*kwargs))),
            _ => r matches Err(e) && err_matches(e, ErrSpec::Type(mismatch_msg("bytes"@))),
        },
{
    match obj {
        Value::Bytes(b) => match dispatch_bytes_method(b.as_slice(), method, args, kwargs) {
            Ok(v) => Ok(MethodOutcome::pure(v)),
            Err(e) => Err(e),
        },
        _ => Err(type_mismatch("bytes")),
    }
}

/// The `bytearray` table entry: a `bytearray` receiver runs
/// `dispatch_bytearray_method` on its buffer in place.
pub fn bytearray_methods(obj: &mut Value, method: &str, args: &[Value], kwargs: &IndexMap<String, Value>)
    -> (r: Result<MethodOutcome, EvalError>)
    requires
        *old(obj) matches Value::ByteArray(b) ==> b@.len() < usize::MAX - 1,
    ensures
        match *old(obj) {
            Value::ByteArray(b) => match spec_bytearray_method(b@, method@, args@, kwarg_entries(*kwargs)) {
                Ok((v, delta, after)) => (r matches Ok(o) && o.value@ == v && o.mem_delta == delta)
                    && (*final(obj) matches Value::ByteArray(b2) && b2@ == after),
                Err(es) => r matches Err(e) && err_matches(e, es),
            },
            _ => (r matches Err(e) && err_matches(e, ErrSpec::Type(mismatch_msg("bytearray"@))))
                && *final(obj) == *old(obj),
        },
{
    match obj {
        Value::ByteArray(b) => dispatch_bytearray_method(b, method, args, kwargs),
        _ => Err(type_mismatch("bytearray")),
    }
}

/// What the `int` table gives: `to_bytes` on an `int` or a `bool`, every
/// other method on an `int` only.
pub open spec fn spec_int_table(obj: Value, method: Seq<char>, args: Seq<Value>, kws: Seq<(Seq<char>, Value)>) -> Result<IntReplyView, ErrSpec> {
    if method == "to_bytes"@ {
        let v = match obj {
            Value::Int(i) => Some(i as int),
            Value::Bool(b) => Some(if b { 1int } else { 0int }),
            _ => None,
        };
        match v {
            Some(n) => match spec_int_to_bytes(n, args, kws) {
                Ok(b) => Ok(IntReplyView::Value(PyVal::Bytes(b))),
                Err(es) => Err(es),
            },
            None => Err(ErrSpec::Type(mismatch_msg("int"@))),
        }
    } else {
        match obj {
            Value::Int(i) => spec_dispatch_int(i as int, method, args, kws),
            _ => Err(ErrSpec::Type(mismatch_msg("int"@))),
        }
    }
}

/// The `int` table entry: `to_bytes` for an `int` or `bool` receiver, the
/// rest of the `int` methods for an `int` receiver.
pub fn int_methods(obj: &mut Value, method: &str, args: &[Value], kwargs: &IndexMap<String, Value>)
    -> (r: Result<IntReply, EvalError>)
    requires
        method@ == "to_bytes"@ ==> to_bytes_length_fits(args@, kwarg_entries(*kwargs)),
        method@ != "to_bytes"@ ==> (*old(obj) matches Value::Int(i) ==> int_method_fits(i, method@, args@)),
    ensures
        *final(obj) == *old(obj),
        match spec_int_table(*old(obj), method@, args@, kwarg_entries(*kwargs)) {
            Ok(v) => r matches Ok(x) && int_reply_view(x) == v,
            Err(es) => r matches Err(e) && err_matches(e, es),
        },
{
    if str_eq(method, "to_bytes") {
        let w = match obj {
            Value::Int(i) => WideInt::Small(*i),
            Value::Bool(b) => WideInt::Small(if *b { 1 } else { 0 }),
            _ => { return Err(type_mismatch("int")); },
        };
        return match int_to_bytes(&w, args, kwargs) {
            Ok(v) => Ok(IntReply::Value(v)),
            Err(e) => Err(e),
        };
    }
    match obj {
        Value::Int(i) => dispatch_int_method(*i, method, args, kwargs),
        _ => Err(type_mismatch("int")),
    }
}

} // verus!
