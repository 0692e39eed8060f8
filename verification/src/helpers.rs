//! Small conversions shared by the builtins: `ord()` over bytes, `bytes()`
//! from integers, digit-group underscores, base prefixes, the translation
//! table of `bytes.maketrans`, and getter results.

use vstd::prelude::*;
use crate::value::{Value, PyVal, view_items, view_value, lemma_view_items, lemma_view_items_push};
use crate::error::{EvalError, EvalResult, ErrSpec, err_matches, result_matches, type_error, value_error, decimal,
    decimal_chars};
use crate::numeric::{spec_int_of, arg_at};
use crate::text::{concat_str, str_to_string, string_from_chars, str_eq};
use vstd::string::StringSliceAdditionalSpecFns;
use vstd::utf8::encode_utf8;

verus! {

broadcast use lemma_view_items;

// ---------------------------------------------------------------------------
// ord() and bytes()
// ---------------------------------------------------------------------------

/// `ord()` over a bytes-like value: a single byte gives its value; any other
/// length raises `TypeError`.
pub fn ord_single_byte(bytes: &[u8]) -> (r: Result<Option<Value>, EvalError>)
    ensures
        bytes@.len() == 1 ==> (r matches Ok(Some(v)) && v@ == PyVal::Int(bytes@[0] as int)),
        bytes@.len() != 1 ==> (r matches Err(e) && err_matches(e, ErrSpec::Type(
            "ord() expected a character, but string of length "@ + decimal(bytes@.len() as nat) + " found"@))),
{
    if bytes.len() == 1 {
        Ok(Some(Value::Int(bytes[0] as i64)))
    } else {
        let n = string_from_chars(&decimal_chars(bytes.len() as u64));
        let s1 = concat_str("ord() expected a character, but string of length ", n.as_str());
        let s2 = s1.concat(" found");
        Err(type_error(s2))
    }
}

/// The integer an item's view stands for, when it is an `int` or a `bool`.
pub open spec fn pyval_int(v: PyVal) -> Option<int> {
    match v {
        PyVal::Int(i) => Some(i),
        PyVal::Bool(b) => Some(if b { 1int } else { 0int }),
        _ => None,
    }
}

/// The bytes of `items` from the first `k`, or the error of the first item
/// that is not an integer in `range(0, 256)`.
pub open spec fn int_items_to_bytes(items: Seq<PyVal>, k: int) -> Result<Seq<u8>, ErrSpec>
    decreases k,
{
    if k <= 0 {
        Ok(Seq::empty())
    } else {
        match int_items_to_bytes(items, k - 1) {
            Err(es) => Err(es),
            Ok(acc) => match pyval_int(items[k - 1]) {
                None => Err(ErrSpec::Type("bytes() argument items must be ints"@)),
                Some(n) => if 0 <= n < 256 {
                    Ok(acc.push(n as u8))
                } else {
                    Err(ErrSpec::Value("bytes must be in range(0, 256)"@))
                },
            },
        }
    }
}

proof fn lemma_int_items_err_persists(items: Seq<PyVal>, k: int, k2: int)
    requires
        0 <= k <= k2,
        int_items_to_bytes(items, k) is Err,
    ensures
        int_items_to_bytes(items, k2) == int_items_to_bytes(items, k),
    decreases k2 - k,
{
    if k2 > k {
        lemma_int_items_err_persists(items, k, k2 - 1);
    }
}

/// Build a byte vector from integer items, for `bytes(iterable)`: each item
/// must be an `int` (or `bool`) in `range(0, 256)`.
pub fn bytes_from_int_items(items: &[Value]) -> (r: Result<Vec<u8>, EvalError>)
    ensures
        match int_items_to_bytes(view_items(items@), items@.len() as int) {
            Ok(b) => r matches Ok(v) && v@ == b,
            Err(es) => r matches Err(e) && err_matches(e, es),
        },
{
    let ghost its = view_items(items@);
    let mut out: Vec<u8> = Vec::new();
    let mut i: usize = 0;
    while i < items.len()
        invariant
            its == view_items(items@),
            its.len() == items@.len(),
            i <= items@.len(),
            int_items_to_bytes(its, i as int) == Ok::<Seq<u8>, ErrSpec>(out@),
        decreases items.len() - i,
    {
        assert(its[i as int] == view_value(items@[i as int]));
        let n: i64 = match &items[i] {
            Value::Int(v) => *v,
            Value::Bool(b) => if *b { 1 } else { 0 },
            _ => {
                proof { lemma_int_items_err_persists(its, i + 1, items@.len() as int); }
                return Err(type_error(str_to_string("bytes() argument items must be ints")));
            },
        };
        if n < 0 || n > 255 {
            proof { lemma_int_items_err_persists(its, i + 1, items@.len() as int); }
            return Err(value_error(str_to_string("bytes must be in range(0, 256)")));
        }
        out.push(n as u8);
        i = i + 1;
    }
    Ok(out)
}

// ---------------------------------------------------------------------------
// Digit-group underscores and base prefixes
// ---------------------------------------------------------------------------

pub open spec fn is_ascii_digit_char(c: char) -> bool {
    '0' <= c <= '9'
}

/// Every `_` of `s` stands between two ASCII digits.
pub open spec fn underscores_flanked(s: Seq<char>) -> bool {
    forall|i: int| 0 <= i < s.len() && #[trigger] s[i] == '_' ==>
        0 < i && i + 1 < s.len() && is_ascii_digit_char(s[i - 1]) && is_ascii_digit_char(s[i + 1])
}

/// `s` without its underscores.
pub open spec fn without_underscores(s: Seq<char>) -> Seq<char> {
    s.filter(|c: char| c != '_')
}

/// Remove Python's `_` digit separators from a numeric literal, or `None`
/// when one is not between two digits (`_1`, `1_`, `1__0`, `1_.0`).
pub fn clean_numeric_underscores(s: &str) -> (r: Option<String>)
    ensures
        underscores_flanked(s@) ==> (r matches Some(o) && o@ == without_underscores(s@)),
        !underscores_flanked(s@) ==> r is None,
{
    let chars = crate::text::chars_of(s);
    let n = chars.len();
    let mut out: Vec<char> = Vec::new();
    let mut i: usize = 0;
    while i < n
        invariant
            n == chars@.len(),
            chars@ == s@,
            i <= n,
            out@ == without_underscores(chars@.subrange(0, i as int)),
            forall|j: int| 0 <= j < i && #[trigger] chars@[j] == '_' ==>
                0 < j && j + 1 < n && is_ascii_digit_char(chars@[j - 1]) && is_ascii_digit_char(chars@[j + 1]),
        decreases n - i,
    {
        let c = chars[i];
        proof {
            assert(chars@.subrange(0, i + 1).drop_last() =~= chars@.subrange(0, i as int));
            assert(chars@.subrange(0, i + 1).last() == c);
            reveal(Seq::filter);
        }
        if c == '_' {
            let prev_digit = i > 0 && '0' <= chars[i - 1] && chars[i - 1] <= '9';
            let next_digit = i + 1 < n && '0' <= chars[i + 1] && chars[i + 1] <= '9';
            if !(prev_digit && next_digit) {
                return None;
            }
        } else {
            out.push(c);
        }
        i = i + 1;
    }
    assert(chars@.subrange(0, n as int) =~= chars@);
    Some(string_from_chars(&out))
}

/// Whether `s` has no leading, trailing or doubled underscore.
pub open spec fn byte_underscores_ok(b: Seq<u8>) -> bool {
    b.len() == 0 || (b[0] != 95 && b[b.len() - 1] != 95
        && forall|i: int| 0 < i < b.len() && #[trigger] b[i] == 95 ==> b[i - 1] != 95)
}

/// The bytes of `b` other than `_`, each taken as the character of that code.
pub open spec fn bytes_without_underscores(b: Seq<u8>) -> Seq<char>
    decreases b.len(),
{
    if b.len() == 0 {
        Seq::empty()
    } else {
        bytes_without_underscores(b.drop_last()) + (if b.last() == 95 { Seq::empty() } else { seq![b.last() as char] })
    }
}

/// Validate and strip digit-group underscores byte by byte: `None` for a
/// leading, trailing or doubled underscore.
pub fn clean_underscores(s: &str) -> (r: Option<String>)
    ensures
        byte_underscores_ok(s.spec_bytes()) ==> (r matches Some(o) && o@ == bytes_without_underscores(s.spec_bytes())),
        !byte_underscores_ok(s.spec_bytes()) ==> r is None,
{
    let bytes = s.as_bytes();
    let n = bytes.len();
    if n == 0 {
        proof { reveal_strlit(""); }
        return Some(str_to_string(""));
    }
    if bytes[0] == 95 || bytes[n - 1] == 95 {
        return None;
    }
    let mut out: Vec<char> = Vec::new();
    let mut prev_underscore = false;
    let mut i: usize = 0;
    while i < n
        invariant
            n == bytes@.len(),
            n > 0,
            bytes@ == s.spec_bytes(),
            bytes@[0] != 95,
            bytes@[n - 1] != 95,
            i <= n,
            out@ == bytes_without_underscores(bytes@.subrange(0, i as int)),
            prev_underscore == (i > 0 && bytes@[i - 1] == 95),
            forall|j: int| 0 < j < i && #[trigger] bytes@[j] == 95 ==> bytes@[j - 1] != 95,
        decreases n - i,
    {
        let b = bytes[i];
        assert(bytes@.subrange(0, i + 1).drop_last() =~= bytes@.subrange(0, i as int));
        if b == 95 {
            if prev_underscore {
                return None;
            }
            prev_underscore = true;
        } else {
            prev_underscore = false;
            out.push(b as char);
        }
        i = i + 1;
    }
    assert(bytes@.subrange(0, n as int) =~= bytes@);
    Some(string_from_chars(&out))
}

/// ASCII case folding of one character.
pub open spec fn ascii_fold(c: char) -> char {
    if 'A' <= c <= 'Z' { ((c as u32) + 32) as char } else { c }
}

/// Whether `s` starts with `prefix`, ignoring ASCII case.
pub open spec fn starts_with_ci(s: Seq<char>, prefix: Seq<char>) -> bool {
    prefix.len() <= s.len() && forall|i: int| 0 <= i < prefix.len() ==> ascii_fold(#[trigger] s[i]) == ascii_fold(prefix[i])
}

fn fold_exec(c: char) -> (r: char)
    ensures
        r == ascii_fold(c),
{
    if 'A' <= c && c <= 'Z' { ((c as u8) + 32) as char } else { c }
}

/// Strip a prefix (such as `0x`) case-insensitively: the rest of `s`, or
/// `None` when `s` does not start with it.
pub fn strip_ci(s: &[char], prefix: &[char]) -> (r: Option<Vec<char>>)
    ensures
        starts_with_ci(s@, prefix@) ==> (r matches Some(rest) && rest@ == s@.subrange(prefix@.len() as int, s@.len() as int)),
        !starts_with_ci(s@, prefix@) ==> r is None,
{
    if prefix.len() > s.len() {
        return None;
    }
    let mut i: usize = 0;
    while i < prefix.len()
        invariant
            prefix@.len() <= s@.len(),
            i <= prefix@.len(),
            forall|j: int| 0 <= j < i ==> ascii_fold(#[trigger] s@[j]) == ascii_fold(prefix@[j]),
        decreases prefix.len() - i,
    {
        if fold_exec(s[i]) != fold_exec(prefix[i]) {
            return None;
        }
        i = i + 1;
    }
    Some(crate::str_methods::sub_chars(s, prefix.len(), s.len()))
}

// ---------------------------------------------------------------------------
// bytes.maketrans and getter results
// ---------------------------------------------------------------------------

/// The identity table with `from[k]` mapped to `to[k]` for `k < n`, later
/// pairs overriding earlier ones.
pub open spec fn translate_table(from: Seq<u8>, to: Seq<u8>, n: int) -> Seq<u8>
    decreases n,
{
    if n <= 0 {
        Seq::new(256, |i: int| i as u8)
    } else {
        translate_table(from, to, n - 1).update(from[n - 1] as int, to[n - 1])
    }
}

proof fn lemma_translate_table_len(from: Seq<u8>, to: Seq<u8>, n: int)
    ensures
        translate_table(from, to, n).len() == 256,
    decreases n,
{
    if n > 0 {
        lemma_translate_table_len(from, to, n - 1);
    }
}

/// The bytes of a `bytes`/`bytearray` argument.
pub open spec fn bytes_like(v: Option<Value>) -> Option<Seq<u8>> {
    match v {
        Some(Value::Bytes(b)) => Some(b@),
        Some(Value::ByteArray(b)) => Some(b@),
        _ => None,
    }
}

/// What `bytes.maketrans(from, to)` returns.
pub open spec fn spec_bytes_maketrans(args: Seq<Value>) -> Result<PyVal, ErrSpec> {
    match (bytes_like(arg_at(args, 0)), bytes_like(arg_at(args, 1))) {
        (Some(from), Some(to)) => if from.len() != to.len() {
            Err(ErrSpec::Value("maketrans arguments must have same length"@))
        } else {
            Ok(PyVal::Bytes(translate_table(from, to, from.len() as int)))
        },
        _ => Err(ErrSpec::Type("maketrans() requires two bytes-like objects"@)),
    }
}

fn bytes_like_arg(args: &[Value], i: usize) -> (r: Option<&Vec<u8>>)
    ensures
        match bytes_like(arg_at(args@, i as int)) {
            Some(b) => r matches Some(v) && v@ == b,
            None => r is None,
        },
{
    if i >= args.len() {
        return None;
    }
    match &args[i] {
        Value::Bytes(b) => Some(b),
        Value::ByteArray(b) => Some(b),
        _ => None,
    }
}

/// `bytes.maketrans(from, to)`: the 256-byte identity table with each byte
/// of `from` mapped to the byte at the same index of `to`.
pub fn bytes_maketrans(args: &[Value]) -> (r: EvalResult)
    ensures
        result_matches(r, spec_bytes_maketrans(args@)),
{
    let from = match bytes_like_arg(args, 0) {
        Some(b) => b,
        None => { return Err(type_error(str_to_string("maketrans() requires two bytes-like objects"))); },
    };
    let to = match bytes_like_arg(args, 1) {
        Some(b) => b,
        None => { return Err(type_error(str_to_string("maketrans() requires two bytes-like objects"))); },
    };
    if from.len() != to.len() {
        return Err(value_error(str_to_string("maketrans arguments must have same length")));
    }
    let mut table: Vec<u8> = Vec::new();
    let mut b: usize = 0;
    while b < 256
        invariant
            b <= 256,
            table@ == Seq::new(b as nat, |i: int| i as u8),
        decreases 256 - b,
    {
        table.push(b as u8);
        b = b + 1;
        assert(table@ =~= Seq::new(b as nat, |i: int| i as u8));
    }
    let mut k: usize = 0;
    while k < from.len()
        invariant
            from@.len() == to@.len(),
            k <= from@.len(),
            table@ == translate_table(from@, to@, k as int),
            table@.len() == 256,
        decreases from.len() - k,
    {
        table.set(from[k] as usize, to[k]);
        k = k + 1;
    }
    Ok(Value::Bytes(table))
}

/// A single getter result is returned bare; two or more (or none) form a
/// tuple.
pub fn single_or_tuple(results: Vec<Value>) -> (r: Value)
    ensures
        results@.len() == 1 ==> r == results@[0],
        results@.len() != 1 ==> r == Value::Tuple(results),
{
    let mut results = results;
    if results.len() == 1 {
        match results.pop() {
            Some(v) => v,
            None => Value::PyNone,
        }
    } else {
        Value::Tuple(results)
    }
}

/// The views of a vector of strings.
pub open spec fn string_views(v: Seq<String>) -> Seq<Seq<char>> {
    Seq::new(v.len(), |i: int| v[i]@)
}

/// Append `name` to `out` unless it is already there.
pub fn push_unique(out: &mut Vec<String>, name: &str)
    ensures
        string_views(old(out)@).contains(name@) ==> string_views(final(out)@) == string_views(old(out)@),
        !string_views(old(out)@).contains(name@) ==> string_views(final(out)@) == string_views(old(out)@).push(name@),
{
    let mut i: usize = 0;
    while i < out.len()
        invariant
            i <= out@.len(),
            forall|j: int| 0 <= j < i ==> (#[trigger] out@[j])@ != name@,
        decreases out.len() - i,
    {
        if str_eq(out[i].as_str(), name) {
            assert(string_views(out@)[i as int] == name@);
            return;
        }
        i = i + 1;
    }
    let ghost before = out@;
    assert(!string_views(before).contains(name@)) by {
        if string_views(before).contains(name@) {
            let j = choose|j: int| 0 <= j < string_views(before).len() && string_views(before)[j] == name@;
            assert(before[j]@ == name@);
        }
    }
    out.push(str_to_string(name));
    assert(string_views(out@) =~= string_views(before).push(name@));
}

} // verus!
