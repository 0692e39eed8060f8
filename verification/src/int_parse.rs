//! `int(x)` and `int(text, base)`: integer literals in bases 2 to 36 with
//! sign, base prefix and digit-group underscores, parsed to integers of any
//! size.

use vstd::prelude::*;
use vstd::utf8::encode_utf8;
use vstd::string::StringSliceAdditionalSpecFns;
use indexmap::IndexMap;
use vstd::utf8::{valid_utf8, decode_utf8};
use crate::value::{Value, spec_py_type_name};
use crate::error::{EvalError, ErrSpec, err_matches, exception, decimal, decimal_chars, type_error, value_error,
    radix_digits, digit_char};
use crate::builtins::{radix_of, prefixed_radix};
use crate::unicode::is_unicode_ws;
use crate::kwargs::{kwarg_entries, kwarg_from, kwarg_get, kwargs_len, first_key_other_than, kwarg_other_than};
use crate::numeric::{spec_int_of, not_integer_msg, value_to_i64, check_arg_count, arg_count_msg, arg_at};
use crate::bytes_methods::utf8_decode;
use crate::text::{chars_of, str_to_string, string_from_chars, concat_str};
use crate::helpers::{byte_underscores_ok, bytes_without_underscores, clean_underscores, starts_with_ci, strip_ci, ascii_fold};
use crate::str_methods::{spec_strip_chars, strip_str, sub_chars, skip_lead_chars, skip_trail_chars};
use crate::int_bytes::{WideInt, signed_magnitude, wide_value, wide_ok, narrow_int};

verus! {

// ---------------------------------------------------------------------------
// Digits of a radix
// ---------------------------------------------------------------------------

/// The digit a character stands for in bases up to 36: `0`-`9`, then `a`-`z`
/// or `A`-`Z` for 10 to 35; 36 for any other character.
pub open spec fn radix_digit_of(c: char) -> nat {
    if '0' <= c <= '9' {
        (c as nat - 48) as nat
    } else if 'a' <= c <= 'z' {
        (c as nat - 87) as nat
    } else if 'A' <= c <= 'Z' {
        (c as nat - 55) as nat
    } else {
        36
    }
}

/// The value of digits in `radix`, `_` skipped wherever it stands; `None`
/// when some other character is not a digit of the radix.
pub open spec fn radix_digits_value(s: Seq<char>, radix: nat) -> Option<nat>
    decreases s.len(),
{
    if s.len() == 0 {
        Some(0)
    } else {
        match radix_digits_value(s.drop_last(), radix) {
            None => None,
            Some(v) => if s.last() == '_' {
                Some(v)
            } else if radix_digit_of(s.last()) < radix {
                Some(v * radix + radix_digit_of(s.last()))
            } else {
                None
            },
        }
    }
}

/// What `BigUint::from_str_radix` accepts and gives: one leading `+` is
/// dropped unless another `+` follows it; what remains must be non-empty,
/// must not start with `_`, and must be digits of the radix and `_`.
pub open spec fn parse_unsigned_radix(s: Seq<char>, radix: nat) -> Option<nat> {
    let t = if s.len() > 0 && s[0] == '+' && !(s.len() > 1 && s[1] == '+') { s.drop_first() } else { s };
    if t.len() == 0 || t[0] == '_' {
        None
    } else {
        radix_digits_value(t, radix)
    }
}

/// What `BigInt::from_str_radix` gives: a leading `-` that no `+` follows
/// negates the unsigned parse of the rest; otherwise the unsigned parse of
/// the whole text.
pub open spec fn parse_signed_radix(s: Seq<char>, radix: nat) -> Option<int> {
    if s.len() > 0 && s[0] == '-' && !(s.len() > 1 && s[1] == '+') {
        match parse_unsigned_radix(s.drop_first(), radix) {
            Some(n) => Some(-n),
            None => None,
        }
    } else {
        match parse_unsigned_radix(s, radix) {
            Some(n) => Some(n as int),
            None => None,
        }
    }
}

/// Parse digits into an integer of any size. Calls num-bigint's
/// `BigInt::from_str_radix` (which panics on a radix outside 2 to 36) and
/// hands the result on as its sign and big-endian magnitude
/// (`BigInt::to_bytes_be`). The contract claims that the parse succeeds
/// exactly when [`parse_signed_radix`] does, with the same value.
#[verifier::external_body]
fn bigint_from_str_radix(digits: &str, radix: u32) -> (r: Option<(bool, Vec<u8>)>)
    requires
        2 <= radix <= 36,
    ensures
        match parse_signed_radix(digits@, radix as nat) {
            None => r is None,
            Some(n) => r matches Some(p) && signed_magnitude(p.0, p.1@) == n,
        },
{
    match <num_bigint::BigInt as num_traits::Num>::from_str_radix(digits, radix) {
        Ok(b) => {
            let (sign, mag) = b.to_bytes_be();
            let negative = match sign {
                num_bigint::Sign::Minus => true,
                num_bigint::Sign::NoSign => false,
                num_bigint::Sign::Plus => false,
            };
            Some((negative, mag))
        },
        Err(_) => None,
    }
}

/// What `format!("{:?}", s)` writes for a string: the quoted text with
/// Rust's escapes.
pub uninterp spec fn debug_str(s: Seq<char>) -> Seq<char>;

/// `format!("{:?}", s)`: the quoted, escaped rendering of a string.
#[verifier::external_body]
fn str_debug_repr(s: &str) -> (r: String)
    ensures
        r@ == debug_str(s@),
{
    format!("{:?}", s)
}

// ---------------------------------------------------------------------------
// int(text, base)
// ---------------------------------------------------------------------------

/// The radix and the digits after a base prefix: with base 0 the prefix
/// (`0x`, `0o`, `0b`, any case) chooses the radix, else 10; with base 16, 8
/// or 2 the matching prefix may be present and is dropped.
pub open spec fn radix_and_digits(base: int, rest: Seq<char>) -> (nat, Seq<char>) {
    if base == 0 {
        if starts_with_ci(rest, "0x"@) {
            (16, rest.subrange(2, rest.len() as int))
        } else if starts_with_ci(rest, "0o"@) {
            (8, rest.subrange(2, rest.len() as int))
        } else if starts_with_ci(rest, "0b"@) {
            (2, rest.subrange(2, rest.len() as int))
        } else {
            (10, rest)
        }
    } else {
        let p = if base == 16 { "0x"@ } else if base == 8 { "0o"@ } else { "0b"@ };
        if (base == 16 || base == 8 || base == 2) && starts_with_ci(rest, p) {
            (base as nat, rest.subrange(2, rest.len() as int))
        } else {
            (base as nat, rest)
        }
    }
}

/// Whether some character is not `0`.
pub open spec fn has_nonzero_digit(s: Seq<char>) -> bool {
    exists|i: int| 0 <= i < s.len() && s[i] != '0'
}

/// The message for a text that is no integer literal in `base`.
pub open spec fn invalid_literal_msg(raw: Seq<char>, base: int) -> Seq<char> {
    "invalid literal for int() with base "@ + decimal(base as nat) + ": "@ + debug_str(raw)
}

/// What `int(raw, base)` gives for a string: surrounding white space
/// trimmed, an optional sign, a base prefix, digit groups joined by single
/// underscores; with base 0 a decimal literal may not start with `0`
/// unless it is all zeros.
pub open spec fn spec_parse_int_str(raw: Seq<char>, base: int) -> Result<int, ErrSpec> {
    if base != 0 && !(2 <= base <= 36) {
        Err(ErrSpec::Exc("ValueError"@, "int() base must be >= 2 and <= 36, or 0"@))
    } else {
        let invalid = Err(ErrSpec::Exc("ValueError"@, invalid_literal_msg(raw, base)));
        let trimmed = spec_strip_chars(raw, None, true, true);
        let negative = trimmed.len() > 0 && trimmed[0] == '-';
        let rest = if trimmed.len() > 0 && (trimmed[0] == '-' || trimmed[0] == '+') {
            trimmed.drop_first()
        } else {
            trimmed
        };
        let (radix, digits_raw) = radix_and_digits(base, rest);
        let bytes = encode_utf8(digits_raw);
        if !byte_underscores_ok(bytes) {
            invalid
        } else {
            let cleaned = bytes_without_underscores(bytes);
            if cleaned.len() == 0 {
                invalid
            } else if base == 0 && radix == 10 && cleaned.len() > 1 && cleaned[0] == '0' && has_nonzero_digit(cleaned) {
                invalid
            } else {
                match parse_signed_radix(cleaned, radix) {
                    None => invalid,
                    Some(n) => Ok(if negative { -n } else { n }),
                }
            }
        }
    }
}

fn invalid_literal(raw: &str, base: i64) -> (e: EvalError)
    requires
        0 <= base <= 36,
    ensures
        err_matches(e, ErrSpec::Exc("ValueError"@, invalid_literal_msg(raw@, base as int))),
{
    let b = string_from_chars(&decimal_chars(base as u64));
    let s1 = str_to_string("invalid literal for int() with base ");
    let s2 = s1.concat(b.as_str());
    let s3 = s2.concat(": ");
    let d = str_debug_repr(raw);
    let s4 = s3.concat(d.as_str());
    proof {
        reveal_strlit("invalid literal for int() with base ");
    }
    exception("ValueError", s4)
}

fn radix_and_digits_exec(base: i64, rest: &Vec<char>) -> (r: (u32, Vec<char>))
    requires
        base == 0 || 2 <= base <= 36,
    ensures
        r.0 as nat == radix_and_digits(base as int, rest@).0,
        r.1@ == radix_and_digits(base as int, rest@).1,
        2 <= r.0 <= 36,
{
    let px: Vec<char> = vec!['0', 'x'];
    let po: Vec<char> = vec!['0', 'o'];
    let pb: Vec<char> = vec!['0', 'b'];
    proof {
        reveal_strlit("0x");
        reveal_strlit("0o");
        reveal_strlit("0b");
        assert(px@ =~= "0x"@);
        assert(po@ =~= "0o"@);
        assert(pb@ =~= "0b"@);
    }
    if base == 0 {
        if let Some(r) = strip_ci(rest.as_slice(), px.as_slice()) {
            return (16, r);
        }
        if let Some(r) = strip_ci(rest.as_slice(), po.as_slice()) {
            return (8, r);
        }
        if let Some(r) = strip_ci(rest.as_slice(), pb.as_slice()) {
            return (2, r);
        }
        (10, sub_chars(rest.as_slice(), 0, rest.len()))
    } else {
        let radix = base as u32;
        let stripped = if base == 16 {
            strip_ci(rest.as_slice(), px.as_slice())
        } else if base == 8 {
            strip_ci(rest.as_slice(), po.as_slice())
        } else if base == 2 {
            strip_ci(rest.as_slice(), pb.as_slice())
        } else {
            None
        };
        proof {
            assert(rest@.subrange(0, rest@.len() as int) =~= rest@);
        }
        match stripped {
            Some(r) => (radix, r),
            None => (radix, sub_chars(rest.as_slice(), 0, rest.len())),
        }
    }
}

fn has_nonzero_exec(s: &Vec<char>) -> (r: bool)
    ensures
        r == has_nonzero_digit(s@),
{
    let mut i: usize = 0;
    while i < s.len()
        invariant
            i <= s@.len(),
            forall|j: int| 0 <= j < i ==> s@[j] == '0',
        decreases s.len() - i,
    {
        if s[i] != '0' {
            return true;
        }
        i = i + 1;
    }
    false
}

/// `int(raw, base)` for a string: the integer the literal denotes, or
/// `ValueError` for a bad base or an invalid literal.
pub fn parse_int_str(raw: &str, base: i64) -> (r: Result<WideInt, EvalError>)
    ensures
        match spec_parse_int_str(raw@, base as int) {
            Ok(n) => r matches Ok(w) && wide_value(w) == n && wide_ok(w),
            Err(es) => r matches Err(e) && err_matches(e, es),
        },
{
    if base != 0 && !(2 <= base && base <= 36) {
        return Err(exception("ValueError", str_to_string("int() base must be >= 2 and <= 36, or 0")));
    }
    let cs = chars_of(raw);
    let trimmed = strip_str(cs.as_slice(), &None, true, true);
    let negative = trimmed.len() > 0 && trimmed[0] == '-';
    let rest = if trimmed.len() > 0 && (trimmed[0] == '-' || trimmed[0] == '+') {
        sub_chars(trimmed.as_slice(), 1, trimmed.len())
    } else {
        sub_chars(trimmed.as_slice(), 0, trimmed.len())
    };
    proof {
        assert(trimmed@.subrange(0, trimmed@.len() as int) =~= trimmed@);
        assert(trimmed@.subrange(1, trimmed@.len() as int) =~= trimmed@.drop_first());
    }
    let (radix, digits_raw) = radix_and_digits_exec(base, &rest);
    let ds = string_from_chars(digits_raw.as_slice());
    let cleaned = match clean_underscores(ds.as_str()) {
        Some(c) => c,
        None => { return Err(invalid_literal(raw, base)); },
    };
    let cc = chars_of(cleaned.as_str());
    if cc.len() == 0 {
        return Err(invalid_literal(raw, base));
    }
    if base == 0 && radix == 10 && cc.len() > 1 && cc[0] == '0' && has_nonzero_exec(&cc) {
        return Err(invalid_literal(raw, base));
    }
    match bigint_from_str_radix(cleaned.as_str(), radix) {
        None => Err(invalid_literal(raw, base)),
        Some((neg, mag)) => {
            let w = narrow_int(neg != negative, mag);
            Ok(w)
        },
    }
}

// ---------------------------------------------------------------------------
// int(x)
// ---------------------------------------------------------------------------

/// What `int(...)` hands back: an integer, or a float (by its bits) whose
/// truncation toward zero the caller computes.
#[derive(Debug, PartialEq)]
pub enum IntConversion {
    Exact(WideInt),
    Float(u64),
}

/// The ghost form of an [`IntConversion`].
pub enum IntConversionView {
    Exact(int),
    Float(u64),
}

/// `int(text, base)` for a `str` or UTF-8 `bytes` text.
pub open spec fn spec_int_with_base(x: Value, base: int) -> Result<IntConversionView, ErrSpec> {
    let text = match x {
        Value::String(s) => Ok(s@),
        Value::Bytes(b) => if valid_utf8(b@) {
            Ok(decode_utf8(b@))
        } else {
            Err(ErrSpec::Value("int() bytes argument is not valid UTF-8"@))
        },
        _ => Err(ErrSpec::Type("int() can't convert non-string with explicit base"@)),
    };
    match text {
        Err(es) => Err(es),
        Ok(t) => match spec_parse_int_str(t, base) {
            Ok(n) => Ok(IntConversionView::Exact(n)),
            Err(es) => Err(es),
        },
    }
}

/// What the builtin `int(x=0, base=10)` gives.
pub open spec fn spec_builtin_int(args: Seq<Value>, kws: Seq<(Seq<char>, Value)>) -> Result<IntConversionView, ErrSpec> {
    if args.len() > 2 {
        Err(ErrSpec::Type(arg_count_msg("int"@, args.len(), 0, 2)))
    } else if first_key_other_than(kws, "base"@, 0) is Some {
        Err(ErrSpec::Type("'"@ + first_key_other_than(kws, "base"@, 0)->Some_0 + "' is an invalid keyword argument for int()"@))
    } else if args.len() == 0 && kws.len() == 0 {
        Ok(IntConversionView::Exact(0))
    } else {
        let base_arg = match arg_at(args, 1) {
            Some(b) => Some(b),
            None => kwarg_from(kws, "base"@, 0),
        };
        match base_arg {
            Some(bv) => if args.len() == 0 {
                Err(ErrSpec::Type("int() missing string argument"@))
            } else {
                match spec_int_of(bv) {
                    None => Err(ErrSpec::Type(not_integer_msg(bv))),
                    Some(base) => spec_int_with_base(args[0], base),
                }
            },
            None => match args[0] {
                Value::Int(i) => Ok(IntConversionView::Exact(i as int)),
                Value::Bool(b) => Ok(IntConversionView::Exact(if b { 1 } else { 0 })),
                Value::Float(f) => Ok(IntConversionView::Float(f)),
                Value::String(s) => match spec_parse_int_str(s@, 10) {
                    Ok(n) => Ok(IntConversionView::Exact(n)),
                    Err(es) => Err(es),
                },
                other => Err(ErrSpec::Type("int() argument must be a string or a number, not '"@ + spec_py_type_name(other) + "'"@)),
            },
        }
    }
}

/// `r` is the conversion that `v` describes.
pub open spec fn conversion_matches(r: IntConversion, v: IntConversionView) -> bool {
    match v {
        IntConversionView::Exact(n) => r matches IntConversion::Exact(w) && wide_value(w) == n && wide_ok(w),
        IntConversionView::Float(f) => r == IntConversion::Float(f),
    }
}

fn int_from_text(x: &Value, base: i64) -> (r: Result<IntConversion, EvalError>)
    ensures
        match spec_int_with_base(*x, base as int) {
            Ok(v) => r matches Ok(c) && conversion_matches(c, v),
            Err(es) => r matches Err(e) && err_matches(e, es),
        },
{
    let parsed = match x {
        Value::String(s) => parse_int_str(s.as_str(), base),
        Value::Bytes(b) => match utf8_decode(b.as_slice()) {
            Ok(s) => parse_int_str(s.as_str(), base),
            Err(_) => {
                return Err(value_error(str_to_string("int() bytes argument is not valid UTF-8")));
            },
        },
        _ => {
            return Err(type_error(str_to_string("int() can't convert non-string with explicit base")));
        },
    };
    match parsed {
        Ok(w) => Ok(IntConversion::Exact(w)),
        Err(e) => Err(e),
    }
}

/// The builtin `int(x=0, base=10)`: an integer passes through, a `bool` is
/// 0 or 1, a string is parsed (a `bytes` text too when a base is given), a
/// float is handed back for truncation; anything else raises `TypeError`.
pub fn builtin_int(args: &[Value], kwargs: &IndexMap<String, Value>) -> (r: Result<IntConversion, EvalError>)
    ensures
        match spec_builtin_int(args@, kwarg_entries(*kwargs)) {
            Ok(v) => r matches Ok(c) && conversion_matches(c, v),
            Err(es) => r matches Err(e) && err_matches(e, es),
        },
{
    match check_arg_count("int", args, 0, 2) {
        Ok(()) => {},
        Err(e) => { return Err(e); },
    }
    match kwarg_other_than(kwargs, "base") {
        Some(bad) => {
            let s1 = concat_str("'", bad.as_str());
            let s2 = s1.concat("' is an invalid keyword argument for int()");
            return Err(type_error(s2));
        },
        None => {},
    }
    let nk = kwargs_len(kwargs);
    if args.len() == 0 && nk == 0 {
        return Ok(IntConversion::Exact(WideInt::Small(0)));
    }
    let base_arg = if args.len() > 1 { Some(&args[1]) } else { kwarg_get(kwargs, "base") };
    match base_arg {
        Some(bv) => {
            if args.len() == 0 {
                return Err(type_error(str_to_string("int() missing string argument")));
            }
            let base = match value_to_i64(bv) {
                Ok(b) => b,
                Err(e) => { return Err(e); },
            };
            int_from_text(&args[0], base)
        },
        None => {
            proof {
                if args@.len() == 0 {
                    // No positional argument and no `base`: then no keyword at all.
                    assert(kwarg_entries(*kwargs).len() > 0);
                    lemma_only_base_key(kwarg_entries(*kwargs), 0);
                }
            }
            match &args[0] {
                Value::Int(i) => Ok(IntConversion::Exact(WideInt::Small(*i))),
                Value::Bool(b) => Ok(IntConversion::Exact(WideInt::Small(if *b { 1 } else { 0 }))),
                Value::Float(f) => Ok(IntConversion::Float(*f)),
                Value::String(s) => match parse_int_str(s.as_str(), 10) {
                    Ok(w) => Ok(IntConversion::Exact(w)),
                    Err(e) => Err(e),
                },
                other => {
                    let s1 = concat_str("int() argument must be a string or a number, not '", other.py_type_name());
                    let s2 = s1.concat("'");
                    Err(type_error(s2))
                },
            }
        },
    }
}

/// When every keyword from `i` on is `base`, one of them is found, if any
/// is there.
proof fn lemma_only_base_key(kws: Seq<(Seq<char>, Value)>, i: int)
    requires
        0 <= i < kws.len(),
        first_key_other_than(kws, "base"@, i) is None,
    ensures
        kwarg_from(kws, "base"@, i) is Some,
{
}

// ---------------------------------------------------------------------------
// Reading back what bin, oct and hex write
// ---------------------------------------------------------------------------

/// A lower-case digit character: `0`-`9` or `a`-`z`.
pub open spec fn is_digit_text(s: Seq<char>) -> bool {
    forall|i: int| 0 <= i < s.len() ==> ('0' <= #[trigger] s[i] <= '9' || 'a' <= s[i] <= 'z')
}

/// A digit character reads back as its digit.
proof fn lemma_digit_char_value(d: nat)
    requires
        d < 36,
    ensures
        radix_digit_of(digit_char(d)) == d,
        '0' <= digit_char(d) <= '9' || 'a' <= digit_char(d) <= 'z',
{
}

/// The digits that `bin`/`oct`/`hex` write read back as the number.
proof fn lemma_radix_digits_value(m: nat, b: nat)
    requires
        2 <= b <= 36,
    ensures
        radix_digits_value(radix_digits(m, b), b) == Some(m),
        is_digit_text(radix_digits(m, b)),
        radix_digits(m, b).len() >= 1,
    decreases m,
{
    let s = radix_digits(m, b);
    if m < b {
        assert(s == seq![digit_char(m)]);
        lemma_digit_char_value(m);
        assert(s.drop_last() =~= Seq::<char>::empty());
        assert(radix_digits_value(s.drop_last(), b) == Some(0nat));
    } else {
        assert(m / b < m) by (nonlinear_arith) requires b >= 2, m >= b;
        lemma_radix_digits_value(m / b, b);
        let d = m % b;
        assert(d < b) by (nonlinear_arith) requires b >= 2, d == m % b;
        lemma_digit_char_value(d);
        assert(s == radix_digits(m / b, b).push(digit_char(d)));
        assert(s.drop_last() =~= radix_digits(m / b, b));
        assert(m == (m / b) * b + d) by (nonlinear_arith) requires b >= 2, d == m % b;
    }
}

/// Nothing is trimmed from a text that starts and ends with no white space.
proof fn lemma_trim_noop(s: Seq<char>)
    requires
        s.len() >= 1,
        !is_unicode_ws(s[0]),
        !is_unicode_ws(s[s.len() - 1]),
    ensures
        spec_strip_chars(s, None, true, true) == s,
{
    assert(skip_lead_chars(s, None, 0, s.len() as int) == 0);
    assert(skip_trail_chars(s, None, 0, s.len() as int) == s.len());
    assert(s.subrange(0, s.len() as int) =~= s);
}

/// The base prefix `0<letter>` is recognised for its own letter only.
proof fn lemma_prefix_letter(body: Seq<char>, letter: char)
    requires
        body.len() >= 2,
        body[0] == '0',
        body[1] == letter,
        letter == 'b' || letter == 'o' || letter == 'x',
    ensures
        starts_with_ci(body, "0x"@) <==> letter == 'x',
        starts_with_ci(body, "0o"@) <==> letter == 'o',
        starts_with_ci(body, "0b"@) <==> letter == 'b',
{
    reveal_strlit("0x");
    reveal_strlit("0o");
    reveal_strlit("0b");
    if starts_with_ci(body, "0x"@) {
        assert(ascii_fold(body[1]) == ascii_fold("0x"@[1]));
    }
    if starts_with_ci(body, "0o"@) {
        assert(ascii_fold(body[1]) == ascii_fold("0o"@[1]));
    }
    if starts_with_ci(body, "0b"@) {
        assert(ascii_fold(body[1]) == ascii_fold("0b"@[1]));
    }
    if letter == 'x' {
        assert forall|i: int| 0 <= i < 2 implies ascii_fold(#[trigger] body[i]) == ascii_fold("0x"@[i]) by {}
    }
    if letter == 'o' {
        assert forall|i: int| 0 <= i < 2 implies ascii_fold(#[trigger] body[i]) == ascii_fold("0o"@[i]) by {}
    }
    if letter == 'b' {
        assert forall|i: int| 0 <= i < 2 implies ascii_fold(#[trigger] body[i]) == ascii_fold("0b"@[i]) by {}
    }
}

/// Bytes that are the ASCII codes of digit characters read back, underscores
/// checked and removed, as those characters.
proof fn lemma_digit_bytes(s: Seq<char>, bytes: Seq<u8>)
    requires
        is_digit_text(s),
        bytes.len() == s.len(),
        forall|i: int| 0 <= i < s.len() ==> #[trigger] bytes[i] == s[i] as u8,
    ensures
        byte_underscores_ok(bytes),
        bytes_without_underscores(bytes) == s,
    decreases s.len(),
{
    if s.len() > 0 {
        lemma_digit_bytes(s.drop_last(), bytes.drop_last());
        let c = s.last();
        assert(bytes.last() == c as u8);
        assert(bytes.last() != 95);
        assert((bytes.last() as char) == c);
        assert(bytes_without_underscores(bytes) =~= s.drop_last().push(c));
        assert(s =~= s.drop_last().push(c));
        assert(bytes[0] == s[0] as u8);
    }
}

/// `int(bin(n), 0)`, `int(oct(n), 0)` and `int(hex(n), 0)` give `n` back,
/// and so does reading the text in its own base (2, 8 or 16).
pub proof fn law_radix_text_parses_back(n: int, name: Seq<char>, base: int)
    requires
        base == 0 || base == radix_of(name).0,
    ensures
        spec_parse_int_str(prefixed_radix(n, radix_of(name).0, radix_of(name).1), base) == Ok::<int, ErrSpec>(n),
{
    let (b, letter) = radix_of(name);
    assert(b == 2 || b == 8 || b == 16);
    assert(b == 2 ==> letter == 'b');
    assert(b == 8 ==> letter == 'o');
    assert(b == 16 ==> letter == 'x');
    let m: nat = if n < 0 { (-n) as nat } else { n as nat };
    let digits = radix_digits(m, b);
    lemma_radix_digits_value(m, b);
    let s = prefixed_radix(n, b, letter);
    let body = seq!['0', letter] + digits;
    assert(s == if n < 0 { seq!['-'] + body } else { body }) by {
        if n < 0 {
            assert(seq!['-', '0', letter] + digits =~= seq!['-'] + (seq!['0', letter] + digits));
        }
    }
    let last = digits[digits.len() - 1];
    assert(s[s.len() - 1] == last);
    assert('0' <= last <= '9' || 'a' <= last <= 'z');
    lemma_trim_noop(s);
    let rest = if n < 0 { s.drop_first() } else { s };
    assert(rest =~= body) by {
        if n < 0 {
            assert((seq!['-'] + body).drop_first() =~= body);
        }
    }
    lemma_prefix_letter(body, letter);
    assert(body.subrange(2, body.len() as int) =~= digits);
    assert(radix_and_digits(base, rest) == (b, digits));
    let bytes = encode_utf8(digits);
    assert(vstd::utf8::is_ascii_chars(digits));
    vstd::utf8::is_ascii_chars_encode_utf8(digits);
    lemma_digit_bytes(digits, bytes);
    assert(digits[0] != '-' && digits[0] != '+' && digits[0] != '_');
    assert(parse_unsigned_radix(digits, b) == Some(m));
}

} // verus!
