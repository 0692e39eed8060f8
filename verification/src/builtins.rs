//! The builtin functions whose result is a plain computation on their
//! arguments: `chr`, `ord`, `bin`/`oct`/`hex` and the `bytes`/`bytearray`
//! constructors. Arguments reach them already coerced (an object with
//! `__index__` has been turned into its integer).

use vstd::prelude::*;
use crate::value::{Value, PyVal, spec_py_type_name, view_items, spec_iter_items, iterate_value};
use crate::error::{EvalError, EvalResult, ErrSpec, err_matches, result_matches, type_error, value_error,
    exception, decimal, decimal_chars, radix_digits, radix_chars};
use crate::numeric::{spec_int_of, value_to_i64, not_integer_msg, check_arg_count, arg_count_msg, arg_at, magnitude};
use crate::text::{chars_of, concat_str, str_to_string, string_from_chars, str_eq};
use crate::helpers::{int_items_to_bytes, bytes_from_int_items, ord_single_byte};
use vstd::string::StringSliceAdditionalSpecFns;
use vstd::utf8::encode_utf8;

verus! {

broadcast use crate::value::lemma_view_items;

/// Whether `code` is a Unicode scalar value (a valid `char`).
pub open spec fn is_scalar_code(code: int) -> bool {
    0 <= code <= 0x10FFFF && !(0xD800 <= code <= 0xDFFF)
}

/// The character with code `code`, when it is a scalar value. Calls
/// `char::from_u32`, documented to return `None` exactly for codes above
/// `0x10FFFF` and for surrogates.
#[verifier::external_body]
pub(crate) fn char_from_code(code: u32) -> (r: Option<char>)
    ensures
        r is Some <==> is_scalar_code(code as int),
        r matches Some(c) ==> c as u32 == code,
{
    char::from_u32(code)
}

/// What `chr(i)` returns.
pub open spec fn spec_chr(args: Seq<Value>) -> Result<PyVal, ErrSpec> {
    if args.len() != 1 {
        Err(ErrSpec::Type(arg_count_msg("chr"@, args.len(), 1, 1)))
    } else {
        match spec_int_of(args[0]) {
            None => Err(ErrSpec::Type(not_integer_msg(args[0]))),
            Some(code) => if is_scalar_code(code) {
                Ok(PyVal::Str(seq![code as char]))
            } else {
                Err(ErrSpec::Exc("ValueError"@, "chr() arg not in range(0x110000)"@))
            },
        }
    }
}

/// `chr(i)`: the one-character string of code point `i`; a code that is not
/// a Unicode scalar value raises `ValueError`.
pub fn builtin_chr(args: &[Value]) -> (r: EvalResult)
    ensures
        result_matches(r, spec_chr(args@)),
{
    match check_arg_count("chr", args, 1, 1) {
        Ok(()) => {},
        Err(e) => { return Err(e); },
    }
    let code = match value_to_i64(&args[0]) {
        Ok(c) => c,
        Err(e) => { return Err(e); },
    };
    if code < 0 || code > 0xFFFF_FFFF {
        return Err(exception("ValueError", str_to_string("chr() arg not in range(0x110000)")));
    }
    match char_from_code(code as u32) {
        Some(c) => {
            let mut one: Vec<char> = Vec::new();
            one.push(c);
            proof { vstd::utf8::char_u32_cast(c, code as u32); }
            assert(one@ =~= seq![code as char]);
            Ok(Value::String(string_from_chars(&one)))
        },
        None => Err(exception("ValueError", str_to_string("chr() arg not in range(0x110000)"))),
    }
}

/// What `ord(c)` returns.
pub open spec fn spec_ord(args: Seq<Value>) -> Result<PyVal, ErrSpec> {
    if args.len() != 1 {
        Err(ErrSpec::Type(arg_count_msg("ord"@, args.len(), 1, 1)))
    } else {
        match args[0] {
            Value::String(s) => if s@.len() == 1 {
                Ok(PyVal::Int(s@[0] as u32 as int))
            } else {
                Err(ErrSpec::Exc("TypeError"@,
                    "ord() expected a character, but string of length "@ + decimal(s@.len()) + " found"@))
            },
            Value::Bytes(b) => if b@.len() == 1 {
                Ok(PyVal::Int(b@[0] as int))
            } else {
                Err(ErrSpec::Type("ord() expected a character, but string of length "@ + decimal(b@.len()) + " found"@))
            },
            Value::ByteArray(b) => if b@.len() == 1 {
                Ok(PyVal::Int(b@[0] as int))
            } else {
                Err(ErrSpec::Type("ord() expected a character, but string of length "@ + decimal(b@.len()) + " found"@))
            },
            other => Err(ErrSpec::Type("ord() expected string of length 1, but "@ + spec_py_type_name(other) + " found"@)),
        }
    }
}

/// `ord(c)`: the code point of a one-character string, or the value of a
/// one-byte `bytes`/`bytearray`.
pub fn builtin_ord(args: &[Value]) -> (r: EvalResult)
    ensures
        result_matches(r, spec_ord(args@)),
{
    match check_arg_count("ord", args, 1, 1) {
        Ok(()) => {},
        Err(e) => { return Err(e); },
    }
    match &args[0] {
        Value::String(s) => {
            let cs = chars_of(s.as_str());
            if cs.len() != 1 {
                let n = string_from_chars(&decimal_chars(cs.len() as u64));
                let s1 = concat_str("ord() expected a character, but string of length ", n.as_str());
                let s2 = s1.concat(" found");
                return Err(exception("TypeError", s2));
            }
            Ok(Value::Int(cs[0] as u32 as i64))
        },
        Value::Bytes(b) => match ord_single_byte(b.as_slice()) {
            Ok(Some(v)) => Ok(v),
            Ok(None) => Ok(Value::PyNone),
            Err(e) => Err(e),
        },
        Value::ByteArray(b) => match ord_single_byte(b.as_slice()) {
            Ok(Some(v)) => Ok(v),
            Ok(None) => Ok(Value::PyNone),
            Err(e) => Err(e),
        },
        other => {
            let s1 = concat_str("ord() expected string of length 1, but ", other.py_type_name());
            let s2 = s1.concat(" found");
            Err(type_error(s2))
        },
    }
}

/// The base and prefix letter of `bin`, `oct` and `hex`.
pub open spec fn radix_of(name: Seq<char>) -> (nat, char) {
    if name == "bin"@ { (2, 'b') } else if name == "oct"@ { (8, 'o') } else { (16, 'x') }
}

/// `n` written in `base` with the prefix `0<letter>`, signed.
pub open spec fn prefixed_radix(n: int, base: nat, letter: char) -> Seq<char> {
    if n < 0 {
        seq!['-', '0', letter] + radix_digits((-n) as nat, base)
    } else {
        seq!['0', letter] + radix_digits(n as nat, base)
    }
}

/// What `bin(n)`, `oct(n)` and `hex(n)` return.
pub open spec fn spec_int_radix(name: Seq<char>, args: Seq<Value>) -> Result<PyVal, ErrSpec> {
    if args.len() != 1 {
        Err(ErrSpec::Type(arg_count_msg(name, args.len(), 1, 1)))
    } else {
        match spec_int_of(args[0]) {
            None => Err(ErrSpec::Type(not_integer_msg(args[0]))),
            Some(n) => Ok(PyVal::Str(prefixed_radix(n, radix_of(name).0, radix_of(name).1))),
        }
    }
}

/// `bin(n)` / `oct(n)` / `hex(n)` (any other name renders hex): the integer
/// in base 2, 8 or 16 with a `0b`/`0o`/`0x` prefix after any minus sign.
pub fn builtin_int_radix(name: &str, args: &[Value]) -> (r: EvalResult)
    ensures
        result_matches(r, spec_int_radix(name@, args@)),
{
    match check_arg_count(name, args, 1, 1) {
        Ok(()) => {},
        Err(e) => { return Err(e); },
    }
    let n = match value_to_i64(&args[0]) {
        Ok(n) => n,
        Err(e) => { return Err(e); },
    };
    let (base, letter): (u64, char) = if str_eq(name, "bin") {
        (2, 'b')
    } else if str_eq(name, "oct") {
        (8, 'o')
    } else {
        (16, 'x')
    };
    let digits = radix_chars(magnitude(n), base);
    let mut out: Vec<char> = Vec::new();
    if n < 0 {
        out.push('-');
    }
    out.push('0');
    out.push(letter);
    crate::str_methods::extend_chars(&mut out, &digits);
    assert(out@ =~= prefixed_radix(n as int, base as nat, letter));
    Ok(Value::String(string_from_chars(&out)))
}

/// The bytes that `bytes(x[, encoding])` builds, or its error.
pub open spec fn spec_bytes_source(args: Seq<Value>) -> Result<Seq<u8>, ErrSpec> {
    if args.len() == 0 {
        Ok(Seq::empty())
    } else {
        match args[0] {
            Value::Int(n) => if n < 0 || n > usize::MAX {
                Err(ErrSpec::Value("negative count"@))
            } else {
                Ok(Seq::new(n as nat, |_i: int| 0u8))
            },
            Value::Bytes(b) => Ok(b@),
            Value::ByteArray(b) => Ok(b@),
            Value::String(s) => match arg_at(args, 1) {
                Some(Value::String(e)) => if e@ == "utf-8"@ || e@ == "utf_8"@ || e@ == "ascii"@ {
                    Ok(encode_utf8(s@))
                } else {
                    Err(ErrSpec::Exc("LookupError"@, "unknown encoding: "@ + e@))
                },
                Some(_) => Err(ErrSpec::Type("encoding must be a str"@)),
                None => Err(ErrSpec::Type("string argument without an encoding"@)),
            },
            other => match spec_iter_items(other@) {
                None => Err(ErrSpec::Type("'"@ + spec_py_type_name(other) + "' object is not iterable"@)),
                Some(items) => int_items_to_bytes(items, items.len() as int),
            },
        }
    }
}

/// What `bytes(...)` (or `bytearray(...)` when `mutable`) returns.
pub open spec fn spec_bytes_ctor(args: Seq<Value>, mutable: bool) -> Result<PyVal, ErrSpec> {
    match spec_bytes_source(args) {
        Err(es) => Err(es),
        Ok(b) => Ok(if mutable { PyVal::ByteArray(b) } else { PyVal::Bytes(b) }),
    }
}

/// `bytes()` / `bytearray()`: empty with no argument; `n` zero bytes for an
/// integer `n >= 0`; a copy of a bytes-like; a string's UTF-8 bytes given
/// `utf-8`/`utf_8`/`ascii` as the encoding; otherwise the integers of an
/// iterable, each in `range(0, 256)`.
pub fn builtin_bytes(args: &[Value], mutable: bool) -> (r: EvalResult)
    ensures
        result_matches(r, spec_bytes_ctor(args@, mutable)),
{
    let raw: Vec<u8> = if args.len() == 0 {
        Vec::new()
    } else {
        match &args[0] {
            Value::Int(n) => {
                if *n < 0 || *n as u64 > usize::MAX as u64 {
                    return Err(value_error(str_to_string("negative count")));
                }
                let count = *n as usize;
                let mut out: Vec<u8> = Vec::new();
                let mut i: usize = 0;
                while i < count
                    invariant
                        i <= count,
                        out@ == Seq::new(i as nat, |_i: int| 0u8),
                    decreases count - i,
                {
                    out.push(0);
                    i = i + 1;
                    assert(out@ =~= Seq::new(i as nat, |_i: int| 0u8));
                }
                out
            },
            Value::Bytes(b) => crate::bytes_methods::sub_bytes(b.as_slice(), 0, b.len()),
            Value::ByteArray(b) => crate::bytes_methods::sub_bytes(b.as_slice(), 0, b.len()),
            Value::String(s) => {
                let enc = match if args.len() > 1 { Some(&args[1]) } else { None } {
                    Some(Value::String(e)) => e,
                    Some(_) => { return Err(type_error(str_to_string("encoding must be a str"))); },
                    None => { return Err(type_error(str_to_string("string argument without an encoding"))); },
                };
                let e = enc.as_str();
                if str_eq(e, "utf-8") || str_eq(e, "utf_8") || str_eq(e, "ascii") {
                    let b = s.as_str().as_bytes();
                    crate::bytes_methods::sub_bytes(b, 0, b.len())
                } else {
                    return Err(exception("LookupError", concat_str("unknown encoding: ", e)));
                }
            },
            other => {
                let items = match iterate_value(other) {
                    Ok(v) => v,
                    Err(e) => { return Err(e); },
                };
                match bytes_from_int_items(items.as_slice()) {
                    Ok(b) => b,
                    Err(e) => { return Err(e); },
                }
            },
        }
    };
    if args.len() > 0 {
        assert(raw@ =~= spec_bytes_source(args@)->Ok_0) by {
            match args@[0] {
                Value::Bytes(b) => { assert(b@.subrange(0, b@.len() as int) =~= b@); },
                Value::ByteArray(b) => { assert(b@.subrange(0, b@.len() as int) =~= b@); },
                Value::String(s) => {
                    assert(encode_utf8(s@).subrange(0, encode_utf8(s@).len() as int) =~= encode_utf8(s@));
                },
                _ => {},
            }
        }
    }
    if mutable { Ok(Value::ByteArray(raw)) } else { Ok(Value::Bytes(raw)) }
}

/// `chr` and `ord` undo each other: `chr(i)` is a one-character string for
/// every code point `i` that is a scalar value, and `ord` of that string
/// gives `i` back; any other `i` raises `ValueError`.
pub proof fn law_ord_of_chr(i: i64, s: String)
    ensures
        is_scalar_code(i as int) ==> {
            &&& (spec_chr(seq![Value::Int(i)]) matches Ok(PyVal::Str(t)) && t.len() == 1)
            &&& (s@ == spec_chr(seq![Value::Int(i)])->Ok_0->Str_0 ==> spec_ord(seq![Value::String(s)]) == Ok::<PyVal, ErrSpec>(PyVal::Int(i as int)))
        },
        !is_scalar_code(i as int) ==> (spec_chr(seq![Value::Int(i)]) matches Err(ErrSpec::Exc(c, _)) && c == "ValueError"@),
{
    assert(spec_int_of(Value::Int(i)) == Some(i as int));
    if is_scalar_code(i as int) {
        let c = (i as int) as char;
        assert((c as u32) as int == i as int);
    }
}

} // verus!
