//! The builtin functions whose result is a computation on their arguments
//! alone: `len`, `bool`, `abs`, `all`, `any`, `list`, `tuple`, `round`,
//! `int`, `chr`, `ord`, `bin`, `oct`, `hex`, `bytes` and `bytearray`, routed
//! by name.

use vstd::prelude::*;
use indexmap::IndexMap;
use crate::value::{Value, PyVal, spec_py_type_name, spec_truthy, view_items, spec_iter_items, iterate_value,
    lemma_view_items};
use crate::error::{EvalError, EvalResult, ErrSpec, err_matches, result_matches, type_error};
use crate::kwargs::{kwarg_entries, kwarg_from, kwarg_get};
use crate::numeric::{spec_int_of, not_integer_msg, value_to_i64, check_arg_count, arg_count_msg, arg_at,
    to_len_i64};
use crate::text::{concat_str, str_eq, chars_of};
use crate::int_bytes::{WideInt, wide_value, wide_ok};
use crate::wide_methods::spec_round_bigint;
use crate::arith::{round_int, pow_three_arg, spec_pow3};
use crate::int_parse::{builtin_int, spec_builtin_int, IntConversion, IntConversionView};
use crate::builtins::{builtin_chr, builtin_ord, builtin_int_radix, builtin_bytes, spec_chr, spec_ord,
    spec_int_radix, spec_bytes_ctor};

verus! {

broadcast use lemma_view_items;

/// What a builtin hands back: a value, an integer of any size, or a float
/// computation the caller does (the truncation of `int(float)`, the
/// rounding of `round(float, ndigits)`, the magnitude of `abs(complex)`).
#[derive(Debug, PartialEq)]
pub enum BuiltinReply {
    Value(Value),
    Int(WideInt),
    TruncFloat(u64),
    RoundFloat(u64, Option<i64>),
    ComplexNorm(u64, u64),
}

/// The ghost form of a [`BuiltinReply`].
pub enum BuiltinView {
    Value(PyVal),
    Int(int),
    TruncFloat(u64),
    RoundFloat(u64, Option<int>),
    ComplexNorm(u64, u64),
}

/// `r` is the reply that `v` describes.
pub open spec fn builtin_reply_matches(r: BuiltinReply, v: BuiltinView) -> bool {
    match v {
        BuiltinView::Value(pv) => r matches BuiltinReply::Value(x) && x@ == pv,
        BuiltinView::Int(n) => r matches BuiltinReply::Int(w) && wide_value(w) == n && wide_ok(w),
        BuiltinView::TruncFloat(f) => r == BuiltinReply::TruncFloat(f),
        BuiltinView::RoundFloat(f, nd) => r matches BuiltinReply::RoundFloat(f2, nd2)
            && f2 == f && nd == match nd2 { Some(n) => Some(n as int), None => None::<int> },
        BuiltinView::ComplexNorm(re, im) => r == BuiltinReply::ComplexNorm(re, im),
    }
}

/// The length of a sized value: characters of a `str`, bytes of a `bytes`
/// or `bytearray`, members of a tuple, list, set, frozenset or deque.
pub open spec fn spec_len_of(v: Value) -> Option<nat> {
    match v {
        Value::String(s) => Some(s@.len()),
        Value::Bytes(b) => Some(b@.len()),
        Value::ByteArray(b) => Some(b@.len()),
        Value::Tuple(t) => Some(t@.len()),
        Value::List(l) => Some(l@.len()),
        Value::PySet(s) => Some(s@.len()),
        Value::Frozenset(s) => Some(s@.len()),
        Value::Deque(d, _) => Some(d@.len()),
        _ => None,
    }
}

/// `len(x)`.
pub open spec fn spec_len(args: Seq<Value>) -> Result<BuiltinView, ErrSpec> {
    if args.len() != 1 {
        Err(ErrSpec::Type(arg_count_msg("len"@, args.len(), 1, 1)))
    } else {
        match spec_len_of(args[0]) {
            None => Err(ErrSpec::Type("object of type '"@ + spec_py_type_name(args[0]) + "' has no len()"@)),
            Some(n) => if n <= i64::MAX {
                Ok(BuiltinView::Value(PyVal::Int(n as int)))
            } else {
                Err(ErrSpec::Runtime("collection length overflows i64"@))
            },
        }
    }
}

/// `abs(x)`: the magnitude of an integer (a float's sign bit cleared); a
/// complex number's magnitude is the caller's float computation.
pub open spec fn spec_abs(args: Seq<Value>) -> Result<BuiltinView, ErrSpec> {
    if args.len() != 1 {
        Err(ErrSpec::Type(arg_count_msg("abs"@, args.len(), 1, 1)))
    } else {
        match args[0] {
            Value::Int(i) => Ok(BuiltinView::Int(if i < 0 { -(i as int) } else { i as int })),
            Value::Bool(b) => Ok(BuiltinView::Value(PyVal::Int(if b { 1 } else { 0 }))),
            Value::Float(f) => Ok(BuiltinView::Value(PyVal::Float(f % 0x8000_0000_0000_0000u64))),
            Value::Complex(re, im) => Ok(BuiltinView::ComplexNorm(re, im)),
            other => Err(ErrSpec::Type("bad operand type for abs(): '"@ + spec_py_type_name(other) + "'"@)),
        }
    }
}

/// Whether some item (`any`) or every item (`all`) is truthy.
pub open spec fn some_truthy(items: Seq<PyVal>, want: bool) -> bool {
    exists|i: int| 0 <= i < items.len() && spec_truthy(#[trigger] items[i]) == want
}

/// `all(iterable)` and `any(iterable)`.
pub open spec fn spec_all_any(any: bool, args: Seq<Value>) -> Result<BuiltinView, ErrSpec> {
    let name = if any { "any"@ } else { "all"@ };
    if args.len() != 1 {
        Err(ErrSpec::Type(arg_count_msg(name, args.len(), 1, 1)))
    } else {
        match spec_iter_items(args[0]@) {
            None => Err(ErrSpec::Type("'"@ + spec_py_type_name(args[0]) + "' object is not iterable"@)),
            Some(items) => Ok(BuiltinView::Value(PyVal::Bool(
                if some_truthy(items, any) { any } else { !any }))),
        }
    }
}

/// `list(iterable=())` and `tuple(iterable=())`.
pub open spec fn spec_sequence_ctor(tuple: bool, args: Seq<Value>) -> Result<BuiltinView, ErrSpec> {
    let name = if tuple { "tuple"@ } else { "list"@ };
    if args.len() > 1 {
        Err(ErrSpec::Type(arg_count_msg(name, args.len(), 0, 1)))
    } else {
        let items = if args.len() == 0 { Some(Seq::<PyVal>::empty()) } else { spec_iter_items(args[0]@) };
        match items {
            None => Err(ErrSpec::Type("'"@ + spec_py_type_name(args[0]) + "' object is not iterable"@)),
            Some(items) => Ok(BuiltinView::Value(if tuple { PyVal::Tuple(items) } else { PyVal::List(items) })),
        }
    }
}

/// The `ndigits` of `round`: positional, else keyword; `None` or missing is
/// no rounding; anything else must be an integer.
pub open spec fn spec_round_digits(args: Seq<Value>, kws: Seq<(Seq<char>, Value)>) -> Result<Option<int>, ErrSpec> {
    let nd = match arg_at(args, 1) {
        Some(v) => Some(v),
        None => kwarg_from(kws, "ndigits"@, 0),
    };
    match nd {
        None => Ok(None),
        Some(Value::PyNone) => Ok(None),
        Some(v) => match spec_int_of(v) {
            Some(n) => Ok(Some(n)),
            None => Err(ErrSpec::Type(not_integer_msg(v))),
        },
    }
}

/// `round(number, ndigits=None)`.
pub open spec fn spec_round(args: Seq<Value>, kws: Seq<(Seq<char>, Value)>) -> Result<BuiltinView, ErrSpec> {
    if !(1 <= args.len() <= 2) {
        Err(ErrSpec::Type(arg_count_msg("round"@, args.len(), 1, 2)))
    } else {
        match spec_round_digits(args, kws) {
            Err(es) => Err(es),
            Ok(nd) => match args[0] {
                Value::Int(i) => Ok(BuiltinView::Int(spec_round_bigint(i as int, nd))),
                Value::Bool(b) => Ok(BuiltinView::Value(PyVal::Int(if b { 1 } else { 0 }))),
                Value::Float(f) => Ok(BuiltinView::RoundFloat(f, nd)),
                other => Err(ErrSpec::Type("type '"@ + spec_py_type_name(other) + "' doesn't define __round__"@)),
            },
        }
    }
}

/// A value result as a builtin result.
pub open spec fn value_result(r: Result<PyVal, ErrSpec>) -> Result<BuiltinView, ErrSpec> {
    match r {
        Ok(v) => Ok(BuiltinView::Value(v)),
        Err(es) => Err(es),
    }
}

/// What the builtin `name` gives for the arguments; `None` for a name that
/// is not one of these builtins.
pub open spec fn spec_builtin(name: Seq<char>, args: Seq<Value>, kws: Seq<(Seq<char>, Value)>) -> Option<Result<BuiltinView, ErrSpec>> {
    if name == "len"@ {
        Some(spec_len(args))
    } else if name == "bool"@ {
        Some(if args.len() > 1 {
            Err(ErrSpec::Type(arg_count_msg("bool"@, args.len(), 0, 1)))
        } else {
            Ok(BuiltinView::Value(PyVal::Bool(args.len() == 1 && spec_truthy(args[0]@))))
        })
    } else if name == "abs"@ {
        Some(spec_abs(args))
    } else if name == "all"@ || name == "any"@ {
        Some(spec_all_any(name == "any"@, args))
    } else if name == "list"@ || name == "tuple"@ {
        Some(spec_sequence_ctor(name == "tuple"@, args))
    } else if name == "round"@ {
        Some(spec_round(args, kws))
    } else if name == "int"@ {
        Some(match spec_builtin_int(args, kws) {
            Ok(IntConversionView::Exact(n)) => Ok(BuiltinView::Int(n)),
            Ok(IntConversionView::Float(f)) => Ok(BuiltinView::TruncFloat(f)),
            Err(es) => Err(es),
        })
    } else if name == "chr"@ {
        Some(value_result(spec_chr(args)))
    } else if name == "ord"@ {
        Some(value_result(spec_ord(args)))
    } else if name == "bin"@ || name == "oct"@ || name == "hex"@ {
        Some(value_result(spec_int_radix(name, args)))
    } else if name == "bytes"@ || name == "bytearray"@ {
        Some(value_result(spec_bytes_ctor(args, name == "bytearray"@)))
    } else if name == "pow"@ {
        if args.len() == 2 {
            None
        } else if args.len() == 3 {
            Some(value_result(spec_pow3(args[0], args[1], args[2])))
        } else {
            Some(Err(ErrSpec::Type(arg_count_msg("pow"@, args.len(), 2, 3))))
        }
    } else {
        None
    }
}

fn from_value(r: EvalResult) -> (out: Result<BuiltinReply, EvalError>)
    ensures
        r matches Ok(v) ==> out matches Ok(x) && x == BuiltinReply::Value(v),
        r matches Err(e) ==> out == Err::<BuiltinReply, EvalError>(e),
{
    match r {
        Ok(v) => Ok(BuiltinReply::Value(v)),
        Err(e) => Err(e),
    }
}

fn len_of(args: &[Value]) -> (r: Result<BuiltinReply, EvalError>)
    ensures
        match spec_len(args@) {
            Ok(v) => r matches Ok(x) && builtin_reply_matches(x, v),
            Err(es) => r matches Err(e) && err_matches(e, es),
        },
{
    match check_arg_count("len", args, 1, 1) {
        Ok(()) => {},
        Err(e) => { return Err(e); },
    }
    let n: usize = match &args[0] {
        Value::String(s) => chars_of(s.as_str()).len(),
        Value::Bytes(b) => b.len(),
        Value::ByteArray(b) => b.len(),
        Value::Tuple(t) => t.len(),
        Value::List(l) => l.len(),
        Value::PySet(s) => s.len(),
        Value::Frozenset(s) => s.len(),
        Value::Deque(d, _) => d.len(),
        other => {
            let s1 = concat_str("object of type '", other.py_type_name());
            let s2 = s1.concat("' has no len()");
            return Err(type_error(s2));
        },
    };
    match to_len_i64(n) {
        Ok(i) => Ok(BuiltinReply::Value(Value::Int(i))),
        Err(e) => Err(e),
    }
}

fn abs_of(args: &[Value]) -> (r: Result<BuiltinReply, EvalError>)
    ensures
        match spec_abs(args@) {
            Ok(v) => r matches Ok(x) && builtin_reply_matches(x, v),
            Err(es) => r matches Err(e) && err_matches(e, es),
        },
{
    match check_arg_count("abs", args, 1, 1) {
        Ok(()) => {},
        Err(e) => { return Err(e); },
    }
    match &args[0] {
        Value::Int(i) => {
            let w = if *i == i64::MIN {
                WideInt::Large(false, vec![0x80u8, 0, 0, 0, 0, 0, 0, 0])
            } else if *i < 0 {
                WideInt::Small(-*i)
            } else {
                WideInt::Small(*i)
            };
            proof {
                if *i == i64::MIN {
                    reveal_with_fuel(crate::int_bytes::be_value, 9);
                }
            }
            Ok(BuiltinReply::Int(w))
        },
        Value::Bool(b) => Ok(BuiltinReply::Value(Value::Int(if *b { 1 } else { 0 }))),
        Value::Float(f) => Ok(BuiltinReply::Value(Value::Float(*f % 0x8000_0000_0000_0000u64))),
        Value::Complex(re, im) => Ok(BuiltinReply::ComplexNorm(*re, *im)),
        other => {
            let s1 = concat_str("bad operand type for abs(): '", other.py_type_name());
            let s2 = s1.concat("'");
            Err(type_error(s2))
        },
    }
}

fn all_any(any: bool, args: &[Value]) -> (r: Result<BuiltinReply, EvalError>)
    ensures
        match spec_all_any(any, args@) {
            Ok(v) => r matches Ok(x) && builtin_reply_matches(x, v),
            Err(es) => r matches Err(e) && err_matches(e, es),
        },
{
    match check_arg_count(if any { "any" } else { "all" }, args, 1, 1) {
        Ok(()) => {},
        Err(e) => { return Err(e); },
    }
    let items = match iterate_value(&args[0]) {
        Ok(v) => v,
        Err(e) => { return Err(e); },
    };
    let ghost its = view_items(items@);
    assert(spec_iter_items(args@[0]@) == Some(its));
    let mut i: usize = 0;
    while i < items.len()
        invariant
            its == view_items(items@),
            its.len() == items@.len(),
            i <= items@.len(),
            args@.len() == 1,
            spec_iter_items(args@[0]@) == Some(its),
            forall|k: int| 0 <= k < i ==> spec_truthy(#[trigger] its[k]) != any,
        decreases items.len() - i,
    {
        assert(its[i as int] == items@[i as int]@);
        if items[i].is_truthy() == any {
            assert(spec_truthy(its[i as int]) == any);
            assert(some_truthy(its, any));
            assert(spec_iter_items(args@[0]@) == Some(its));
            return Ok(BuiltinReply::Value(Value::Bool(any)));
        }
        i = i + 1;
    }
    assert(!some_truthy(its, any));
    Ok(BuiltinReply::Value(Value::Bool(!any)))
}

fn sequence_ctor(tuple: bool, args: &[Value]) -> (r: Result<BuiltinReply, EvalError>)
    ensures
        match spec_sequence_ctor(tuple, args@) {
            Ok(v) => r matches Ok(x) && builtin_reply_matches(x, v),
            Err(es) => r matches Err(e) && err_matches(e, es),
        },
{
    match check_arg_count(if tuple { "tuple" } else { "list" }, args, 0, 1) {
        Ok(()) => {},
        Err(e) => { return Err(e); },
    }
    let items: Vec<Value> = if args.len() == 0 {
        Vec::new()
    } else {
        match iterate_value(&args[0]) {
            Ok(v) => v,
            Err(e) => { return Err(e); },
        }
    };
    proof {
        if args.len() == 0 {
            assert(view_items(items@) =~= Seq::<PyVal>::empty());
        }
    }
    if tuple {
        Ok(BuiltinReply::Value(Value::Tuple(items)))
    } else {
        Ok(BuiltinReply::Value(Value::List(items)))
    }
}

fn round_builtin(args: &[Value], kwargs: &IndexMap<String, Value>) -> (r: Result<BuiltinReply, EvalError>)
    requires
        spec_round_digits(args@, kwarg_entries(*kwargs)) != Ok::<Option<int>, ErrSpec>(Some(i64::MIN as int)),
    ensures
        match spec_round(args@, kwarg_entries(*kwargs)) {
            Ok(v) => r matches Ok(x) && builtin_reply_matches(x, v),
            Err(es) => r matches Err(e) && err_matches(e, es),
        },
{
    match check_arg_count("round", args, 1, 2) {
        Ok(()) => {},
        Err(e) => { return Err(e); },
    }
    let nd_arg: Option<&Value> = if args.len() > 1 { Some(&args[1]) } else { kwarg_get(kwargs, "ndigits") };
    let nd: Option<i64> = match nd_arg {
        None => None,
        Some(Value::PyNone) => None,
        Some(v) => match value_to_i64(v) {
            Ok(n) => Some(n),
            Err(e) => { return Err(e); },
        },
    };
    match &args[0] {
        Value::Int(i) => Ok(BuiltinReply::Int(round_int(*i, nd))),
        Value::Bool(b) => Ok(BuiltinReply::Value(Value::Int(if *b { 1 } else { 0 }))),
        Value::Float(f) => Ok(BuiltinReply::RoundFloat(*f, nd)),
        other => {
            let s1 = concat_str("type '", other.py_type_name());
            let s2 = s1.concat("' doesn't define __round__");
            Err(type_error(s2))
        },
    }
}

/// The calls that can be completed: all but `round` with an `ndigits` of
/// `i64::MIN`, whose negation overflows.
pub open spec fn builtin_fits(name: Seq<char>, args: Seq<Value>, kws: Seq<(Seq<char>, Value)>) -> bool {
    name == "round"@ ==> spec_round_digits(args, kws) != Ok::<Option<int>, ErrSpec>(Some(i64::MIN as int))
}

/// Run the builtin `name` when it is one of the builtins here (`None`
/// otherwise, for the caller's other builtins, and for two-argument `pow`,
/// which is the `**` operator's).
pub fn dispatch_pure_builtin(name: &str, args: &[Value], kwargs: &IndexMap<String, Value>)
    -> (r: Result<Option<BuiltinReply>, EvalError>)
    requires
        builtin_fits(name@, args@, kwarg_entries(*kwargs)),
    ensures
        match spec_builtin(name@, args@, kwarg_entries(*kwargs)) {
            None => r == Ok::<Option<BuiltinReply>, EvalError>(None),
            Some(Ok(v)) => r matches Ok(Some(x)) && builtin_reply_matches(x, v),
            Some(Err(es)) => r matches Err(e) && err_matches(e, es),
        },
{
    let out = if str_eq(name, "len") {
        len_of(args)
    } else if str_eq(name, "bool") {
        match check_arg_count("bool", args, 0, 1) {
            Ok(()) => {},
            Err(e) => { return Err(e); },
        }
        Ok(BuiltinReply::Value(Value::Bool(args.len() == 1 && args[0].is_truthy())))
    } else if str_eq(name, "abs") {
        abs_of(args)
    } else if str_eq(name, "all") || str_eq(name, "any") {
        all_any(str_eq(name, "any"), args)
    } else if str_eq(name, "list") || str_eq(name, "tuple") {
        sequence_ctor(str_eq(name, "tuple"), args)
    } else if str_eq(name, "round") {
        round_builtin(args, kwargs)
    } else if str_eq(name, "int") {
        match builtin_int(args, kwargs) {
            Ok(IntConversion::Exact(w)) => Ok(BuiltinReply::Int(w)),
            Ok(IntConversion::Float(f)) => Ok(BuiltinReply::TruncFloat(f)),
            Err(e) => Err(e),
        }
    } else if str_eq(name, "chr") {
        from_value(builtin_chr(args))
    } else if str_eq(name, "ord") {
        from_value(builtin_ord(args))
    } else if str_eq(name, "bin") || str_eq(name, "oct") || str_eq(name, "hex") {
        from_value(builtin_int_radix(name, args))
    } else if str_eq(name, "bytes") || str_eq(name, "bytearray") {
        from_value(builtin_bytes(args, str_eq(name, "bytearray")))
    } else if str_eq(name, "pow") {
        match check_arg_count("pow", args, 2, 3) {
            Ok(()) => {},
            Err(e) => { return Err(e); },
        }
        if args.len() == 2 {
            return Ok(None);
        }
        from_value(pow_three_arg(&args[0], &args[1], &args[2]))
    } else {
        return Ok(None);
    };
    match out {
        Ok(x) => Ok(Some(x)),
        Err(e) => Err(e),
    }
}

/// The start, stop and step of `range(...)` from its integer arguments:
/// `range(stop)`, `range(start, stop)` or `range(start, stop, step)`.
pub open spec fn spec_range_bounds(c: Seq<i64>) -> Result<(i64, i64, i64), ErrSpec> {
    let t: Option<(i64, i64, i64)> = if c.len() == 1 {
        Some((0i64, c[0], 1i64))
    } else if c.len() == 2 {
        Some((c[0], c[1], 1i64))
    } else if c.len() == 3 {
        Some((c[0], c[1], c[2]))
    } else {
        None
    };
    match t {
        None => Err(ErrSpec::Type("range expected at most 3 arguments"@)),
        Some((a, b, s)) => if s == 0 {
            Err(ErrSpec::Value("range() arg 3 must not be zero"@))
        } else {
            Ok((a, b, s))
        },
    }
}

/// The bounds of a `range`, from its arguments already read as integers.
pub fn range_bounds(c: &[i64]) -> (r: Result<(i64, i64, i64), EvalError>)
    ensures
        match spec_range_bounds(c@) {
            Ok(t) => r == Ok::<(i64, i64, i64), EvalError>(t),
            Err(es) => r matches Err(e) && err_matches(e, es),
        },
{
    let (a, b, s) = if c.len() == 1 {
        (0i64, c[0], 1i64)
    } else if c.len() == 2 {
        (c[0], c[1], 1i64)
    } else if c.len() == 3 {
        (c[0], c[1], c[2])
    } else {
        return Err(type_error(crate::text::str_to_string("range expected at most 3 arguments")));
    };
    if s == 0 {
        return Err(crate::error::value_error(crate::text::str_to_string("range() arg 3 must not be zero")));
    }
    Ok((a, b, s))
}

// ---------------------------------------------------------------------------
// Laws
// ---------------------------------------------------------------------------

/// `len(x)` is the number of items that iterating `x` gives: for every
/// iterable value `x` (str, bytes, bytearray, tuple, list, set, frozenset,
/// deque), `list(x)` holds its items and `len(x)` is how many there are.
pub proof fn law_len_counts_the_items(v: Value, kws: Seq<(Seq<char>, Value)>)
    requires
        spec_iter_items(v@) is Some,
        spec_iter_items(v@)->Some_0.len() <= i64::MAX,
    ensures
        ({
            let items = spec_iter_items(v@)->Some_0;
            &&& spec_builtin("list"@, seq![v], kws) == Some(Ok::<BuiltinView, ErrSpec>(BuiltinView::Value(PyVal::List(items))))
            &&& spec_builtin("len"@, seq![v], kws) == Some(Ok::<BuiltinView, ErrSpec>(BuiltinView::Value(PyVal::Int(items.len() as int))))
        }),
{
    reveal_strlit("len");
    reveal_strlit("list");
    reveal_strlit("bool");
    reveal_strlit("abs");
    reveal_strlit("all");
    reveal_strlit("any");
    reveal_strlit("tuple");
    assert("list"@ != "tuple"@) by { assert("list"@.len() != "tuple"@.len()); }
    assert("list"@ != "len"@) by { assert("list"@[1] != "len"@[1]); }
    assert("list"@ != "bool"@) by { assert("list"@[0] != "bool"@[0]); }
    assert("list"@ != "abs"@ && "list"@ != "all"@ && "list"@ != "any"@) by {
        assert("list"@.len() == 4 && "abs"@.len() == 3 && "all"@.len() == 3 && "any"@.len() == 3);
    }
    crate::value::lemma_view_items_len_all();
    let n = spec_iter_items(v@)->Some_0.len();
    match v {
        Value::String(s) => { assert(v@ == PyVal::Str(s@)); assert(n == s@.len()); },
        Value::Bytes(b) => { assert(v@ == PyVal::Bytes(b@)); assert(n == b@.len()); },
        Value::ByteArray(b) => { assert(v@ == PyVal::ByteArray(b@)); assert(n == b@.len()); },
        Value::Tuple(t) => { assert(v@ == PyVal::Tuple(view_items(t@))); assert(view_items(t@).len() == t@.len()); },
        Value::List(t) => { assert(v@ == PyVal::List(view_items(t@))); assert(view_items(t@).len() == t@.len()); },
        Value::PySet(t) => { assert(v@ == PyVal::PySet(view_items(t@))); assert(view_items(t@).len() == t@.len()); },
        Value::Frozenset(t) => { assert(v@ == PyVal::Frozenset(view_items(t@))); assert(view_items(t@).len() == t@.len()); },
        Value::Deque(t, _) => { assert(view_items(t@).len() == t@.len()); },
        _ => {},
    }
}

/// `any(x)` is true exactly when some item of `x` is truthy, and `all(x)`
/// exactly when every item is (so `all` of nothing is true and `any` of
/// nothing false).
pub proof fn law_any_all_over_items(v: Value, kws: Seq<(Seq<char>, Value)>)
    requires
        spec_iter_items(v@) is Some,
    ensures
        ({
            let items = spec_iter_items(v@)->Some_0;
            &&& spec_builtin("any"@, seq![v], kws) == Some(Ok::<BuiltinView, ErrSpec>(BuiltinView::Value(PyVal::Bool(
                    exists|i: int| 0 <= i < items.len() && spec_truthy(#[trigger] items[i])))))
            &&& spec_builtin("all"@, seq![v], kws) == Some(Ok::<BuiltinView, ErrSpec>(BuiltinView::Value(PyVal::Bool(
                    forall|i: int| 0 <= i < items.len() ==> spec_truthy(#[trigger] items[i])))))
        }),
{
    reveal_strlit("len");
    reveal_strlit("bool");
    reveal_strlit("abs");
    reveal_strlit("all");
    reveal_strlit("any");
    assert("any"@ != "len"@ && "any"@ != "abs"@ && "any"@ != "all"@) by {
        assert("any"@[0] != "len"@[0] && "any"@[1] != "abs"@[1] && "any"@[1] != "all"@[1]);
    }
    assert("all"@ != "len"@ && "all"@ != "abs"@) by {
        assert("all"@[0] != "len"@[0] && "all"@[1] != "abs"@[1]);
    }
    assert("any"@ != "bool"@ && "all"@ != "bool"@) by { assert("bool"@.len() == 4 && "any"@.len() == 3 && "all"@.len() == 3); }
    let items = spec_iter_items(v@)->Some_0;
    let ex = exists|i: int| 0 <= i < items.len() && spec_truthy(#[trigger] items[i]);
    let fa = forall|i: int| 0 <= i < items.len() ==> spec_truthy(#[trigger] items[i]);
    assert(some_truthy(items, true) == ex);
    if some_truthy(items, false) {
        let i = choose|i: int| 0 <= i < items.len() && spec_truthy(#[trigger] items[i]) == false;
        assert(!fa);
    } else {
        assert(fa);
    }
}

/// `abs(i)` of an integer is its distance from zero: never negative, and
/// `i` or `-i`.
pub proof fn law_abs_of_int(i: i64)
    ensures
        spec_abs(seq![Value::Int(i)]) matches Ok(BuiltinView::Int(r)) && r >= 0 && (r == i || r == -i),
{
}

} // verus!
