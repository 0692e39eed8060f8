//! The `bytes`, `bytearray` and `memoryview` method tables. Every operation
//! is byte-wise; case mapping and character classes are ASCII-only, as in
//! CPython.

use vstd::prelude::*;
use indexmap::IndexMap;
use crate::kwargs::{kwarg_entries, reject_kwargs, unexpected_kwarg_msg};
use crate::outcome::{MethodOutcome, saturating_isize};
use crate::value::{Value, PyVal, spec_py_type_name, pyval_type_name, view_items, view_value, lemma_view_items, spec_iter_items, iterate_value};
use crate::error::{EvalError, EvalResult, ErrSpec, err_matches, result_matches, type_error, value_error,
    attribute_error, exception, is_type_error};
use crate::numeric::{to_len_i64, opt_index_arg, spec_opt_index, arg_at, clamp_index, clamp_index_exec, spec_int_of};
use crate::text::{concat_str, str_to_string, str_eq, occurs_at, seq_contains, find_from, rfind_to, bytes_match_at, chars_match_at, chars_of, string_from_chars};
use crate::error::{digit_char, digit_to_char, decimal, decimal_chars};
use vstd::string::StringSliceAdditionalSpecFns;

verus! {

broadcast use lemma_view_items;

// ---------------------------------------------------------------------------
// Small helpers
// ---------------------------------------------------------------------------

/// An `int` result for a count or position `n`; a length past `i64::MAX`
/// raises the `RuntimeError` of the length conversion.
pub open spec fn int_result(n: int) -> Result<PyVal, ErrSpec> {
    if n <= i64::MAX {
        Ok(PyVal::Int(n))
    } else {
        Err(ErrSpec::Runtime("collection length overflows i64"@))
    }
}

/// `Value::Int(n)` for a count or position.
pub fn usize_value(n: usize) -> (r: EvalResult)
    ensures
        result_matches(r, int_result(n as int)),
{
    match to_len_i64(n) {
        Ok(i) => Ok(Value::Int(i)),
        Err(e) => Err(e),
    }
}

/// The bytes of `b` from `lo` to `hi`, copied.
pub fn sub_bytes(b: &[u8], lo: usize, hi: usize) -> (r: Vec<u8>)
    requires
        lo <= hi <= b@.len(),
    ensures
        r@ == b@.subrange(lo as int, hi as int),
{
    let mut out: Vec<u8> = Vec::new();
    let mut i: usize = lo;
    while i < hi
        invariant
            lo <= i <= hi <= b@.len(),
            out@ == b@.subrange(lo as int, i as int),
        decreases hi - i,
    {
        out.push(b[i]);
        i = i + 1;
        assert(out@ =~= b@.subrange(lo as int, i as int));
    }
    out
}

/// Append the bytes of `src` to `out`.
pub fn extend_bytes(out: &mut Vec<u8>, src: &[u8])
    ensures
        final(out)@ == old(out)@ + src@,
{
    let mut i: usize = 0;
    let ghost start = out@;
    while i < src.len()
        invariant
            i <= src@.len(),
            out@ == start + src@.subrange(0, i as int),
        decreases src.len() - i,
    {
        out.push(src[i]);
        i = i + 1;
        assert(out@ =~= start + src@.subrange(0, i as int));
    }
    assert(src@.subrange(0, src@.len() as int) =~= src@);
}

/// Append `n` copies of `fill` to `out`.
pub fn push_repeat(out: &mut Vec<u8>, fill: u8, n: usize)
    ensures
        final(out)@ == old(out)@ + Seq::new(n as nat, |_i: int| fill),
{
    let ghost start = out@;
    let mut i: usize = 0;
    while i < n
        invariant
            i <= n,
            out@ == start + Seq::new(i as nat, |_i: int| fill),
        decreases n - i,
    {
        out.push(fill);
        i = i + 1;
        assert(out@ =~= start + Seq::new(i as nat, |_i: int| fill));
    }
}

// ---------------------------------------------------------------------------
// Search windows and needles
// ---------------------------------------------------------------------------

/// The length that windows over `b` clamp against.
pub open spec fn window_len(n: int) -> int {
    if n > i64::MAX { i64::MAX as int } else { n }
}

/// `start`/`end` byte indices resolved to a `[start, end)` window over a
/// buffer of length `n`: negative indices count from the end, indices clamp
/// into range, and an inverted range collapses to empty at `start`.
pub open spec fn spec_byte_window(n: int, start: Option<int>, end: Option<int>) -> (int, int) {
    let len = window_len(n);
    let s = clamp_index(match start { Some(i) => i, None => 0 }, len);
    let e = clamp_index(match end { Some(i) => i, None => len }, len);
    (s, if e < s { s } else { e })
}

pub open spec fn opt_int(o: Option<i64>) -> Option<int> {
    match o { Some(i) => Some(i as int), None => None }
}

/// Resolve `start`/`end` byte indices to a `[start, end)` byte window,
/// matching CPython's negative-index and clamp semantics.
pub fn byte_window(b: &[u8], start: Option<i64>, end: Option<i64>) -> (r: (usize, usize))
    ensures
        r.0 == spec_byte_window(b@.len() as int, opt_int(start), opt_int(end)).0,
        r.1 == spec_byte_window(b@.len() as int, opt_int(start), opt_int(end)).1,
        r.0 <= r.1 <= b@.len(),
{
    let len: i64 = if b.len() as u64 > 0x7fff_ffff_ffff_ffffu64 { 0x7fff_ffff_ffff_ffffi64 } else { b.len() as i64 };
    let s = clamp_index_exec(match start { Some(i) => i, None => 0 }, len);
    let e0 = clamp_index_exec(match end { Some(i) => i, None => len }, len);
    let e = if e0 < s { s } else { e0 };
    (s as usize, e as usize)
}

/// A search needle: a `bytes` object, or an integer byte value.
pub open spec fn spec_needle(method: Seq<char>, arg: Value) -> Result<Seq<u8>, ErrSpec> {
    match arg {
        Value::Bytes(v) => Ok(v@),
        Value::Int(i) => if 0 <= i <= 255 {
            Ok(seq![i as u8])
        } else {
            Err(ErrSpec::Value("byte must be in range(0, 256)"@))
        },
        Value::Bool(b) => Ok(seq![if b { 1u8 } else { 0u8 }]),
        _ => Err(ErrSpec::Type(method + "() argument should be integer or bytes-like object, not '"@
            + spec_py_type_name(arg) + "'"@)),
    }
}

/// Coerce a `bytes` search needle: a `bytes` object, or an integer in
/// `range(0, 256)` taken as a single byte.
pub fn bytes_needle(method: &str, arg: &Value) -> (r: Result<Vec<u8>, EvalError>)
    ensures
        match spec_needle(method@, *arg) {
            Ok(n) => r matches Ok(v) && v@ == n,
            Err(es) => r matches Err(e) && err_matches(e, es),
        },
{
    match arg {
        Value::Bytes(v) => Ok(v.clone()),
        Value::Int(i) => {
            if 0 <= *i && *i <= 255 {
                let mut v: Vec<u8> = Vec::new();
                v.push(*i as u8);
                Ok(v)
            } else {
                Err(value_error(str_to_string("byte must be in range(0, 256)")))
            }
        },
        Value::Bool(b) => {
            let mut v: Vec<u8> = Vec::new();
            v.push(if *b { 1u8 } else { 0u8 });
            Ok(v)
        },
        _ => {
            let s1 = concat_str(method, "() argument should be integer or bytes-like object, not '");
            let s2 = s1.concat(arg.py_type_name());
            let s3 = s2.concat("'");
            assert(s3@ =~= method@ + "() argument should be integer or bytes-like object, not '"@
                + spec_py_type_name(*arg) + "'"@);
            Err(type_error(s3))
        },
    }
}

/// `{method}() takes at least 1 argument`.
pub open spec fn at_least_one_msg(method: Seq<char>) -> Seq<char> {
    method + "() takes at least 1 argument"@
}

/// The needle and window of a `bytes` search call, or its error.
pub open spec fn spec_search_args(b: Seq<u8>, method: Seq<char>, args: Seq<Value>) -> Result<(Seq<u8>, int, int), ErrSpec> {
    if args.len() == 0 || args.len() > 3 {
        Err(ErrSpec::Type(at_least_one_msg(method)))
    } else {
        match spec_needle(method, args[0]) {
            Err(es) => Err(es),
            Ok(needle) => match spec_opt_index(arg_at(args, 1)) {
                Err(m) => Err(ErrSpec::Type(m)),
                Ok(s) => match spec_opt_index(arg_at(args, 2)) {
                    Err(m) => Err(ErrSpec::Type(m)),
                    Ok(e) => {
                        let w = spec_byte_window(b.len() as int, s, e);
                        Ok((needle, w.0, w.1))
                    },
                },
            },
        }
    }
}

/// Shared argument parsing for the `bytes` search family: the needle and the
/// `[start, end)` byte window.
pub fn bytes_search_args(b: &[u8], method: &str, args: &[Value]) -> (r: Result<(Vec<u8>, usize, usize), EvalError>)
    ensures
        match spec_search_args(b@, method@, args@) {
            Ok((n, s, e)) => r matches Ok((v, s2, e2)) && v@ == n && s2 == s && e2 == e && s <= e <= b@.len(),
            Err(es) => r matches Err(x) && err_matches(x, es),
        },
{
    if args.len() == 0 || args.len() > 3 {
        return Err(type_error(concat_str(method, "() takes at least 1 argument")));
    }
    let needle = match bytes_needle(method, &args[0]) {
        Ok(n) => n,
        Err(e) => { return Err(e); },
    };
    let start = match opt_index_arg(if args.len() > 1 { Some(&args[1]) } else { None }) {
        Ok(s) => s,
        Err(e) => { return Err(e); },
    };
    let end = match opt_index_arg(if args.len() > 2 { Some(&args[2]) } else { None }) {
        Ok(s) => s,
        Err(e) => { return Err(e); },
    };
    let (bs, be) = byte_window(b, start, end);
    Ok((needle, bs, be))
}

proof fn lemma_occurs_in_window(b: Seq<u8>, needle: Seq<u8>, bs: int, be: int, k: int)
    requires
        0 <= bs <= be <= b.len(),
        0 <= k,
        bs + k + needle.len() <= be,
    ensures
        occurs_at(b.subrange(bs, be), needle, k) == occurs_at(b, needle, bs + k),
{
    assert(b.subrange(bs, be).subrange(k, k + needle.len()) =~= b.subrange(bs + k, bs + k + needle.len()));
}

/// The first position in `b[bs..be]` where `needle` occurs, as an absolute
/// offset, or -1.
pub fn find_in_window(b: &[u8], needle: &[u8], bs: usize, be: usize) -> (r: Option<usize>)
    requires
        bs <= be <= b@.len(),
    ensures
        match r {
            None => find_from(b@.subrange(bs as int, be as int), needle@, 0) < 0,
            Some(p) => p == bs + find_from(b@.subrange(bs as int, be as int), needle@, 0)
                && find_from(b@.subrange(bs as int, be as int), needle@, 0) >= 0,
        },
{
    let ghost hay = b@.subrange(bs as int, be as int);
    let mut k: usize = 0;
    while k <= be - bs && needle.len() <= be - bs - k
        invariant
            bs <= be <= b@.len(),
            hay == b@.subrange(bs as int, be as int),
            k <= be - bs,
            find_from(hay, needle@, 0) == find_from(hay, needle@, k as int),
        decreases be - bs - k,
    {
        proof { lemma_occurs_in_window(b@, needle@, bs as int, be as int, k as int); }
        if bytes_match_at(b, needle, bs + k) {
            return Some(bs + k);
        }
        if k == be - bs {
            // Only an empty needle fits at the very end, and it always matches.
            assert(needle@.len() == 0);
            assert(hay.subrange(k as int, k as int) =~= needle@);
            assert(false);
        }
        k = k + 1;
    }
    None
}

/// The last position in `b[bs..be]` where `needle` occurs, as an absolute
/// offset, or -1.
pub fn rfind_in_window(b: &[u8], needle: &[u8], bs: usize, be: usize) -> (r: Option<usize>)
    requires
        bs <= be <= b@.len(),
    ensures
        match r {
            None => rfind_to(b@.subrange(bs as int, be as int), needle@, be - bs) < 0,
            Some(p) => p == bs + rfind_to(b@.subrange(bs as int, be as int), needle@, be - bs)
                && rfind_to(b@.subrange(bs as int, be as int), needle@, be - bs) >= 0,
        },
{
    let ghost hay = b@.subrange(bs as int, be as int);
    let n = needle.len();
    if n > be - bs {
        return None;
    }
    let mut e: usize = be - bs;
    while e >= n
        invariant
            bs <= be <= b@.len(),
            hay == b@.subrange(bs as int, be as int),
            n == needle@.len(),
            e <= be - bs,
            rfind_to(hay, needle@, (be - bs) as int) == rfind_to(hay, needle@, e as int),
        decreases e,
    {
        proof { lemma_occurs_in_window(b@, needle@, bs as int, be as int, (e - n) as int); }
        if bytes_match_at(b, needle, bs + e - n) {
            return Some(bs + e - n);
        }
        if e == 0 {
            assert(n == 0);
            assert(hay.subrange(0, 0) =~= needle@);
            assert(false);
        }
        e = e - 1;
    }
    None
}

/// What `find`/`rfind`/`index`/`rindex` return.
pub open spec fn spec_bytes_search(b: Seq<u8>, method: Seq<char>, args: Seq<Value>, from_right: bool, raise_missing: bool) -> Result<PyVal, ErrSpec> {
    match spec_search_args(b, method, args) {
        Err(es) => Err(es),
        Ok((needle, bs, be)) => {
            let hay = b.subrange(bs, be);
            let p = if from_right { rfind_to(hay, needle, be - bs) } else { find_from(hay, needle, 0) };
            if p >= 0 {
                int_result(bs + p)
            } else if raise_missing {
                Err(ErrSpec::Exc("ValueError"@, "subsection not found"@))
            } else {
                Ok(PyVal::Int(-1))
            }
        },
    }
}

/// `find`/`rfind`/`index`/`rindex`: the absolute offset of `needle` within
/// the window; `from_right` looks for the last match; `raise_missing` raises
/// `ValueError` in place of returning -1.
pub fn bytes_search(b: &[u8], method: &str, args: &[Value], from_right: bool, raise_missing: bool) -> (r: EvalResult)
    ensures
        result_matches(r, spec_bytes_search(b@, method@, args@, from_right, raise_missing)),
{
    let (needle, bs, be) = match bytes_search_args(b, method, args) {
        Ok(t) => t,
        Err(e) => { return Err(e); },
    };
    let p = if from_right { rfind_in_window(b, &needle, bs, be) } else { find_in_window(b, &needle, bs, be) };
    match p {
        Some(pos) => usize_value(pos),
        None => if raise_missing {
            Err(exception("ValueError", str_to_string("subsection not found")))
        } else {
            Ok(Value::Int(-1))
        },
    }
}

proof fn lemma_find_bounds(hay: Seq<u8>, needle: Seq<u8>)
    ensures
        find_from(hay, needle, 0) < 0 || find_from(hay, needle, 0) + needle.len() <= hay.len(),
        rfind_to(hay, needle, hay.len() as int) < 0 || rfind_to(hay, needle, hay.len() as int) + needle.len() <= hay.len(),
{
    lemma_find_from_bounds(hay, needle, 0);
    lemma_rfind_to_bounds(hay, needle, hay.len() as int);
}

proof fn lemma_find_from_bounds(hay: Seq<u8>, needle: Seq<u8>, from: int)
    ensures
        find_from(hay, needle, from) < 0 || (from <= find_from(hay, needle, from) && find_from(hay, needle, from) + needle.len() <= hay.len()),
    decreases hay.len() - from,
{
    if !(from < 0 || from + needle.len() > hay.len()) && !occurs_at(hay, needle, from) && from < hay.len() {
        lemma_find_from_bounds(hay, needle, from + 1);
    }
}

proof fn lemma_rfind_to_bounds(hay: Seq<u8>, needle: Seq<u8>, end: int)
    ensures
        rfind_to(hay, needle, end) < 0 || (rfind_to(hay, needle, end) + needle.len() <= end && end <= hay.len()),
    decreases end,
{
    if !(end < needle.len() || end > hay.len()) && !occurs_at(hay, needle, end - needle.len()) && end > 0 {
        lemma_rfind_to_bounds(hay, needle, end - 1);
    }
}


// ---------------------------------------------------------------------------
// Counting and affixes
// ---------------------------------------------------------------------------

/// Non-overlapping occurrences of a non-empty `needle` in `hay` from `i` on,
/// scanning left to right.
pub open spec fn count_from<T>(hay: Seq<T>, needle: Seq<T>, i: int) -> nat
    decreases hay.len() - i,
{
    if needle.len() == 0 || i < 0 || i + needle.len() > hay.len() {
        0
    } else if occurs_at(hay, needle, i) {
        1 + count_from(hay, needle, i + needle.len())
    } else {
        count_from(hay, needle, i + 1)
    }
}

/// CPython's occurrence count: non-overlapping, and `len + 1` for an empty
/// needle (it matches at every gap).
pub open spec fn spec_count<T>(hay: Seq<T>, needle: Seq<T>) -> nat {
    if needle.len() == 0 { hay.len() + 1 } else { count_from(hay, needle, 0) }
}

proof fn lemma_count_from_bound<T>(hay: Seq<T>, needle: Seq<T>, i: int)
    requires
        0 <= i,
    ensures
        count_from(hay, needle, i) <= hay.len(),
    decreases hay.len() - i,
{
    if needle.len() == 0 || i + needle.len() > hay.len() {
    } else if occurs_at(hay, needle, i) {
        lemma_count_from_bound(hay, needle, i + needle.len());
        lemma_count_from_le(hay, needle, i + needle.len());
    } else {
        lemma_count_from_bound(hay, needle, i + 1);
    }
}

/// From position `i` there are at most `(len - i)` matches.
proof fn lemma_count_from_le<T>(hay: Seq<T>, needle: Seq<T>, i: int)
    requires
        0 <= i,
    ensures
        count_from(hay, needle, i) <= if i > hay.len() { 0 } else { hay.len() - i },
    decreases hay.len() - i,
{
    if needle.len() == 0 || i + needle.len() > hay.len() {
    } else if occurs_at(hay, needle, i) {
        lemma_count_from_le(hay, needle, i + needle.len());
    } else {
        lemma_count_from_le(hay, needle, i + 1);
    }
}

/// Non-overlapping occurrence count (CPython `bytes.count`); an empty needle
/// matches at every gap, so `len + 1`.
pub fn count_occurrences(hay: &[u8], needle: &[u8]) -> (r: usize)
    requires
        hay@.len() < usize::MAX,
    ensures
        r == spec_count(hay@, needle@),
{
    if needle.len() == 0 {
        return hay.len() + 1;
    }
    let mut count: usize = 0;
    let mut i: usize = 0;
    while i <= hay.len() && needle.len() <= hay.len() - i
        invariant
            needle@.len() > 0,
            i <= hay@.len(),
            count + count_from(hay@, needle@, i as int) == count_from(hay@, needle@, 0),
            count <= i,
        decreases hay.len() - i,
    {
        if bytes_match_at(hay, needle, i) {
            count = count + 1;
            i = i + needle.len();
        } else {
            i = i + 1;
        }
    }
    count
}

/// `affix` is a prefix (`is_start`) or a suffix of `window`.
pub open spec fn has_affix<T>(window: Seq<T>, affix: Seq<T>, is_start: bool) -> bool {
    affix.len() <= window.len() && if is_start {
        window.subrange(0, affix.len() as int) == affix
    } else {
        window.subrange(window.len() - affix.len(), window.len() as int) == affix
    }
}

/// Whether `window` starts (`is_start`) or ends with `affix`.
pub fn bytes_has_affix(window: &[u8], affix: &[u8], is_start: bool) -> (r: bool)
    ensures
        r == has_affix(window@, affix@, is_start),
{
    if affix.len() > window.len() {
        return false;
    }
    let at = if is_start { 0 } else { window.len() - affix.len() };
    bytes_match_at(window, affix, at)
}

/// Testing the affixes of a tuple in order from `k`: the first match wins;
/// an item that is not `bytes` raises `TypeError` when reached.
pub open spec fn tuple_affix_from(items: Seq<Value>, window: Seq<u8>, method: Seq<char>, is_start: bool, k: int) -> Result<bool, ErrSpec>
    decreases items.len() - k,
{
    if k < 0 || k >= items.len() {
        Ok(false)
    } else {
        match items[k] {
            Value::Bytes(p) => if has_affix(window, p@, is_start) {
                Ok(true)
            } else {
                tuple_affix_from(items, window, method, is_start, k + 1)
            },
            _ => Err(ErrSpec::Type("a bytes-like object is required for "@ + method + "()"@)),
        }
    }
}

/// What `startswith`/`endswith` return on `bytes`.
pub open spec fn spec_bytes_affix(b: Seq<u8>, method: Seq<char>, args: Seq<Value>, is_start: bool) -> Result<PyVal, ErrSpec> {
    if args.len() == 0 || args.len() > 3 {
        Err(ErrSpec::Type(at_least_one_msg(method)))
    } else {
        match spec_opt_index(arg_at(args, 1)) {
            Err(m) => Err(ErrSpec::Type(m)),
            Ok(s) => match spec_opt_index(arg_at(args, 2)) {
                Err(m) => Err(ErrSpec::Type(m)),
                Ok(e) => {
                    let w = spec_byte_window(b.len() as int, s, e);
                    let window = b.subrange(w.0, w.1);
                    match args[0] {
                        Value::Bytes(p) => Ok(PyVal::Bool(has_affix(window, p@, is_start))),
                        Value::Tuple(items) => match tuple_affix_from(items@, window, method, is_start, 0) {
                            Ok(m) => Ok(PyVal::Bool(m)),
                            Err(es) => Err(es),
                        },
                        _ => Err(ErrSpec::Type(method + "() first arg must be bytes or a tuple of bytes"@)),
                    }
                },
            },
        }
    }
}

/// Shared `startswith`/`endswith` for `bytes`: honour the `start`/`end`
/// window and accept a single `bytes` affix or a tuple of them.
pub fn bytes_affix(b: &[u8], method: &str, args: &[Value], is_start: bool) -> (r: EvalResult)
    ensures
        result_matches(r, spec_bytes_affix(b@, method@, args@, is_start)),
{
    if args.len() == 0 || args.len() > 3 {
        return Err(type_error(concat_str(method, "() takes at least 1 argument")));
    }
    let start = match opt_index_arg(if args.len() > 1 { Some(&args[1]) } else { None }) {
        Ok(s) => s,
        Err(e) => { return Err(e); },
    };
    let end = match opt_index_arg(if args.len() > 2 { Some(&args[2]) } else { None }) {
        Ok(s) => s,
        Err(e) => { return Err(e); },
    };
    let (bs, be) = byte_window(b, start, end);
    let window = sub_bytes(b, bs, be);
    match &args[0] {
        Value::Bytes(p) => Ok(Value::Bool(bytes_has_affix(&window, p, is_start))),
        Value::Tuple(items) => {
            let ghost goal = spec_bytes_affix(b@, method@, args@, is_start);
            assert(goal == match tuple_affix_from(items@, window@, method@, is_start, 0) {
                Ok(m) => Ok(PyVal::Bool(m)),
                Err(es) => Err(es),
            });
            let mut k: usize = 0;
            while k < items.len()
                invariant
                    goal == spec_bytes_affix(b@, method@, args@, is_start),
                    goal == match tuple_affix_from(items@, window@, method@, is_start, 0) {
                        Ok(m) => Ok(PyVal::Bool(m)),
                        Err(es) => Err(es),
                    },
                    k <= items@.len(),
                    tuple_affix_from(items@, window@, method@, is_start, 0) == tuple_affix_from(items@, window@, method@, is_start, k as int),
                decreases items.len() - k,
            {
                match &items[k] {
                    Value::Bytes(p) => {
                        if bytes_has_affix(&window, p, is_start) {
                            return Ok(Value::Bool(true));
                        }
                    },
                    _ => {
                        let s1 = concat_str("a bytes-like object is required for ", method);
                        let s2 = s1.concat("()");
                        return Err(type_error(s2));
                    },
                }
                k = k + 1;
            }
            Ok(Value::Bool(false))
        },
        _ => Err(type_error(concat_str(method, "() first arg must be bytes or a tuple of bytes"))),
    }
}


// ---------------------------------------------------------------------------
// Hexadecimal
// ---------------------------------------------------------------------------

/// The two lowercase hex digits of a byte.
pub open spec fn hex2(b: u8) -> Seq<char> {
    seq![digit_char((b / 16) as nat), digit_char((b % 16) as nat)]
}

/// A separator goes before byte `i` (of `n`) when it starts a group of
/// `width` bytes, counting groups from the right when `from_right`.
pub open spec fn hex_boundary(n: int, i: int, width: int, from_right: bool) -> bool {
    0 < i && if from_right { (n - i) % width == 0 } else { i % width == 0 }
}

/// The hex rendering of the first `k` bytes of `raw`, with `sep` placed
/// between groups (`width == 0`: no separator).
pub open spec fn hex_prefix(raw: Seq<u8>, sep: char, width: int, from_right: bool, k: int) -> Seq<char>
    decreases k,
{
    if k <= 0 {
        Seq::empty()
    } else {
        hex_prefix(raw, sep, width, from_right, k - 1)
            + (if width > 0 && hex_boundary(raw.len() as int, k - 1, width, from_right) { seq![sep] } else { Seq::empty() })
            + hex2(raw[k - 1])
    }
}

/// What `bytes.hex([sep[, bytes_per_sep]])` returns.
pub open spec fn spec_bytes_hex(raw: Seq<u8>, args: Seq<Value>) -> Result<PyVal, ErrSpec> {
    match arg_at(args, 0) {
        None => Ok(PyVal::Str(hex_prefix(raw, ' ', 0, false, raw.len() as int))),
        Some(Value::PyNone) => Ok(PyVal::Str(hex_prefix(raw, ' ', 0, false, raw.len() as int))),
        Some(Value::String(s)) => if s@.len() != 1 {
            Err(ErrSpec::Value("sep must be length 1."@))
        } else {
            let group: Option<int> = match arg_at(args, 1) {
                None => Some(1),
                Some(Value::Int(n)) => Some(n as int),
                Some(Value::Bool(b)) => Some(if b { 1int } else { 0int }),
                Some(_) => None,
            };
            match group {
                None => Err(ErrSpec::Type("hex() argument 'bytes_per_sep' must be int, not "@
                    + spec_py_type_name(arg_at(args, 1)->Some_0))),
                Some(g) => if g == 0 {
                    Err(ErrSpec::Value("bytes_per_sep must not be zero"@))
                } else {
                    Ok(PyVal::Str(hex_prefix(raw, s@[0], if g < 0 { -g } else { g }, g > 0, raw.len() as int)))
                },
            }
        },
        Some(other) => Err(ErrSpec::Type("hex() argument 'sep' must be str, not "@ + spec_py_type_name(other))),
    }
}

/// The hex rendering of `raw`; `width == 0` places no separator.
fn hex_render(raw: &[u8], sep: char, width: u64, from_right: bool) -> (r: Vec<char>)
    ensures
        r@ == hex_prefix(raw@, sep, width as int, from_right, raw@.len() as int),
{
    let n = raw.len();
    let mut out: Vec<char> = Vec::new();
    let mut i: usize = 0;
    while i < n
        invariant
            n == raw@.len(),
            i <= n,
            out@ == hex_prefix(raw@, sep, width as int, from_right, i as int),
        decreases n - i,
    {
        if width > 0 && i > 0 {
            let boundary = if from_right { ((n - i) as u64) % width == 0 } else { (i as u64) % width == 0 };
            if boundary {
                out.push(sep);
            }
        }
        let byte = raw[i];
        out.push(digit_to_char((byte / 16) as u64));
        out.push(digit_to_char((byte % 16) as u64));
        i = i + 1;
        assert(out@ =~= hex_prefix(raw@, sep, width as int, from_right, i as int));
    }
    out
}

/// `bytes.hex([sep[, bytes_per_sep]])`: bare lowercase hex, or with a
/// one-character separator between groups of `bytes_per_sep` bytes (default
/// 1), counted from the right when positive and from the left when negative.
pub fn bytes_to_hex(raw: &[u8], args: &[Value]) -> (r: EvalResult)
    ensures
        result_matches(r, spec_bytes_hex(raw@, args@)),
{
    let sep: char = match if args.len() > 0 { Some(&args[0]) } else { None } {
        None => { return Ok(Value::String(string_from_chars(&hex_render(raw, ' ', 0, false)))); },
        Some(Value::PyNone) => { return Ok(Value::String(string_from_chars(&hex_render(raw, ' ', 0, false)))); },
        Some(Value::String(s)) => {
            let cs = chars_of(s.as_str());
            if cs.len() != 1 {
                return Err(value_error(str_to_string("sep must be length 1.")));
            }
            cs[0]
        },
        Some(other) => {
            return Err(type_error(concat_str("hex() argument 'sep' must be str, not ", other.py_type_name())));
        },
    };
    let group: i64 = match if args.len() > 1 { Some(&args[1]) } else { None } {
        None => 1,
        Some(Value::Int(n)) => *n,
        Some(Value::Bool(b)) => if *b { 1 } else { 0 },
        Some(other) => {
            return Err(type_error(concat_str("hex() argument 'bytes_per_sep' must be int, not ", other.py_type_name())));
        },
    };
    if group == 0 {
        return Err(value_error(str_to_string("bytes_per_sep must not be zero")));
    }
    let width: u64 = if group < 0 { if group == i64::MIN { 0x8000_0000_0000_0000u64 } else { (-group) as u64 } } else { group as u64 };
    Ok(Value::String(string_from_chars(&hex_render(raw, sep, width, group > 0))))
}

/// The `Debug` rendering of a character, quotes and escapes included.
pub uninterp spec fn debug_char(c: char) -> Seq<char>;

/// `format!("{:?}", c)`: the quoted, escaped rendering of a character.
#[verifier::external_body]
pub(crate) fn char_debug_repr(c: char) -> (r: String)
    ensures
        r@ == debug_char(c),
{
    format!("{:?}", c)
}

/// The value of an ASCII hex digit, if `b` is one.
pub open spec fn hex_value(b: u8) -> Option<u8> {
    if 48 <= b <= 57 {
        Some((b - 48) as u8)
    } else if 97 <= b <= 102 {
        Some((b - 97 + 10) as u8)
    } else if 65 <= b <= 70 {
        Some((b - 65 + 10) as u8)
    } else {
        None
    }
}

/// The message for a byte that is not a hex digit (taken as a Latin-1 char).
pub open spec fn non_hex_msg(b: u8) -> Seq<char> {
    "non-hexadecimal character "@ + debug_char(b as char) + " in fromhex() arg"@
}

/// The value of one hex digit byte, or `ValueError`.
pub fn hex_digit(b: u8) -> (r: Result<u8, EvalError>)
    ensures
        match hex_value(b) {
            Some(v) => r == Ok::<u8, EvalError>(v),
            None => r matches Err(e) && err_matches(e, ErrSpec::Value(non_hex_msg(b))),
        },
{
    if 48 <= b && b <= 57 {
        Ok(b - 48)
    } else if 97 <= b && b <= 102 {
        Ok(b - 97 + 10)
    } else if 65 <= b && b <= 70 {
        Ok(b - 65 + 10)
    } else {
        let d = char_debug_repr(b as char);
        let s1 = concat_str("non-hexadecimal character ", d.as_str());
        let s2 = s1.concat(" in fromhex() arg");
        assert(s2@ =~= non_hex_msg(b));
        Err(value_error(s2))
    }
}

/// Rust's `char::is_ascii_whitespace`: space, tab, newline, form feed,
/// carriage return.
pub open spec fn is_ascii_ws_char(c: char) -> bool {
    c == ' ' || c == '\t' || c == '\n' || c == '\x0C' || c == '\r'
}

/// The characters of `s` that are not ASCII whitespace.
pub open spec fn without_ascii_ws(s: Seq<char>) -> Seq<char> {
    s.filter(|c: char| !is_ascii_ws_char(c))
}

/// Decoding the byte pairs of a hex string from pair `j` on; the first bad
/// digit, high before low, raises.
pub open spec fn hex_pairs_from(bytes: Seq<u8>, j: int) -> Result<Seq<u8>, ErrSpec>
    decreases bytes.len() - 2 * j,
{
    if j < 0 || 2 * j + 1 >= bytes.len() {
        Ok(Seq::empty())
    } else {
        match hex_value(bytes[2 * j]) {
            None => Err(ErrSpec::Value(non_hex_msg(bytes[2 * j]))),
            Some(hi) => match hex_value(bytes[2 * j + 1]) {
                None => Err(ErrSpec::Value(non_hex_msg(bytes[2 * j + 1]))),
                Some(lo) => match hex_pairs_from(bytes, j + 1) {
                    Err(es) => Err(es),
                    Ok(rest) => Ok(seq![(hi * 16 + lo) as u8] + rest),
                },
            },
        }
    }
}

/// What `bytes.fromhex(s)` returns.
pub open spec fn spec_bytes_fromhex(args: Seq<Value>) -> Result<PyVal, ErrSpec> {
    match arg_at(args, 0) {
        Some(Value::String(s)) => {
            let bytes = vstd::utf8::encode_utf8(without_ascii_ws(s@));
            if bytes.len() % 2 != 0 {
                Err(ErrSpec::Value("non-hexadecimal number found in fromhex() arg"@))
            } else {
                match hex_pairs_from(bytes, 0) {
                    Ok(out) => Ok(PyVal::Bytes(out)),
                    Err(es) => Err(es),
                }
            }
        },
        _ => Err(ErrSpec::Type("fromhex() requires a str argument"@)),
    }
}

/// `bytes.fromhex(hex_str)`: parse a hex string into bytes, case-insensitive,
/// ASCII whitespace allowed anywhere.
pub fn bytes_fromhex(args: &[Value]) -> (r: EvalResult)
    ensures
        result_matches(r, spec_bytes_fromhex(args@)),
{
    let s = match if args.len() > 0 { Some(&args[0]) } else { None } {
        Some(Value::String(s)) => s,
        _ => { return Err(type_error(str_to_string("fromhex() requires a str argument"))); },
    };
    let cs = chars_of(s.as_str());
    let mut kept: Vec<char> = Vec::new();
    let mut i: usize = 0;
    while i < cs.len()
        invariant
            i <= cs@.len(),
            kept@ == without_ascii_ws(cs@.subrange(0, i as int)),
        decreases cs.len() - i,
    {
        let c = cs[i];
        proof {
            assert(cs@.subrange(0, i + 1).drop_last() =~= cs@.subrange(0, i as int));
            assert(cs@.subrange(0, i + 1).last() == c);
            reveal(Seq::filter);
        }
        if !(c == ' ' || c == '\t' || c == '\n' || c == '\x0C' || c == '\r') {
            kept.push(c);
        }
        i = i + 1;
    }
    assert(cs@.subrange(0, cs@.len() as int) =~= cs@);
    let cleaned = string_from_chars(&kept);
    let bytes = cleaned.as_str().as_bytes();
    if bytes.len() % 2 != 0 {
        return Err(value_error(str_to_string("non-hexadecimal number found in fromhex() arg")));
    }
    let ghost goal = spec_bytes_fromhex(args@);
    assert(goal == match hex_pairs_from(bytes@, 0) {
        Ok(o) => Ok(PyVal::Bytes(o)),
        Err(es) => Err(es),
    });
    let mut out: Vec<u8> = Vec::new();
    let mut j: usize = 0;
    while j < bytes.len() / 2
        invariant
            goal == spec_bytes_fromhex(args@),
            goal == match hex_pairs_from(bytes@, 0) {
                Ok(o) => Ok(PyVal::Bytes(o)),
                Err(es) => Err::<PyVal, ErrSpec>(es),
            },
            bytes@.len() % 2 == 0,
            j <= bytes@.len() / 2,
            hex_pairs_from(bytes@, 0) == match hex_pairs_from(bytes@, j as int) {
                Ok(rest) => Ok(out@ + rest),
                Err(es) => Err(es),
            },
        decreases bytes.len() / 2 - j,
    {
        let hi = match hex_digit(bytes[2 * j]) {
            Ok(v) => v,
            Err(e) => { return Err(e); },
        };
        let lo = match hex_digit(bytes[2 * j + 1]) {
            Ok(v) => v,
            Err(e) => { return Err(e); },
        };
        let byte: u8 = hi * 16 + lo;
        proof {
            match hex_pairs_from(bytes@, j + 1) {
                Ok(rest) => { assert(out@ + (seq![byte] + rest) =~= out@.push(byte) + rest); },
                Err(_) => {},
            }
        }
        out.push(byte);
        j = j + 1;
    }
    Ok(Value::Bytes(out))
}


// ---------------------------------------------------------------------------
// ASCII case and classes
// ---------------------------------------------------------------------------

pub open spec fn is_upper_byte(c: u8) -> bool { 65 <= c <= 90 }
pub open spec fn is_lower_byte(c: u8) -> bool { 97 <= c <= 122 }
pub open spec fn is_alpha_byte(c: u8) -> bool { is_upper_byte(c) || is_lower_byte(c) }
pub open spec fn is_digit_byte(c: u8) -> bool { 48 <= c <= 57 }
pub open spec fn is_alnum_byte(c: u8) -> bool { is_alpha_byte(c) || is_digit_byte(c) }
/// `u8::is_ascii_whitespace`: space, tab, newline, form feed, carriage return.
pub open spec fn is_ws_byte(c: u8) -> bool { c == 32 || c == 9 || c == 10 || c == 12 || c == 13 }

pub open spec fn upper_byte(c: u8) -> u8 { if is_lower_byte(c) { (c - 32) as u8 } else { c } }
pub open spec fn lower_byte(c: u8) -> u8 { if is_upper_byte(c) { (c + 32) as u8 } else { c } }
pub open spec fn swap_byte(c: u8) -> u8 {
    if is_upper_byte(c) { lower_byte(c) } else if is_lower_byte(c) { upper_byte(c) } else { c }
}

pub fn to_upper_byte(c: u8) -> (r: u8) ensures r == upper_byte(c) { if 97 <= c && c <= 122 { c - 32 } else { c } }
pub fn to_lower_byte(c: u8) -> (r: u8) ensures r == lower_byte(c) { if 65 <= c && c <= 90 { c + 32 } else { c } }

/// The byte-wise case operations.
pub enum CaseOp { Upper, Lower, Swap, Capitalize, Title }

/// The byte at `i` after a case operation over `b`.
pub open spec fn case_byte(b: Seq<u8>, op: CaseOp, i: int) -> u8 {
    match op {
        CaseOp::Upper => upper_byte(b[i]),
        CaseOp::Lower => lower_byte(b[i]),
        CaseOp::Swap => swap_byte(b[i]),
        CaseOp::Capitalize => if i == 0 { upper_byte(b[i]) } else { lower_byte(b[i]) },
        // A letter starts a word when it is first or follows a non-letter.
        CaseOp::Title => if !is_alpha_byte(b[i]) {
            b[i]
        } else if i == 0 || !is_alpha_byte(b[i - 1]) {
            upper_byte(b[i])
        } else {
            lower_byte(b[i])
        },
    }
}

pub open spec fn spec_case_map(b: Seq<u8>, op: CaseOp) -> Seq<u8> {
    Seq::new(b.len(), |i: int| case_byte(b, op, i))
}

/// `upper`/`lower`/`swapcase`/`capitalize`/`title` on ASCII letters; other
/// bytes pass through.
pub fn bytes_case_map(b: &[u8], op: CaseOp) -> (r: Vec<u8>)
    ensures
        r@ == spec_case_map(b@, op),
{
    let mut out: Vec<u8> = Vec::new();
    let mut i: usize = 0;
    while i < b.len()
        invariant
            i <= b@.len(),
            out@ == spec_case_map(b@, op).subrange(0, i as int),
        decreases b.len() - i,
    {
        let c = b[i];
        let r = match op {
            CaseOp::Upper => to_upper_byte(c),
            CaseOp::Lower => to_lower_byte(c),
            CaseOp::Swap => if 65 <= c && c <= 90 { to_lower_byte(c) } else if 97 <= c && c <= 122 { to_upper_byte(c) } else { c },
            CaseOp::Capitalize => if i == 0 { to_upper_byte(c) } else { to_lower_byte(c) },
            CaseOp::Title => {
                let alpha = (65 <= c && c <= 90) || (97 <= c && c <= 122);
                if !alpha {
                    c
                } else if i == 0 || !((65 <= b[i - 1] && b[i - 1] <= 90) || (97 <= b[i - 1] && b[i - 1] <= 122)) {
                    to_upper_byte(c)
                } else {
                    to_lower_byte(c)
                }
            },
        };
        out.push(r);
        i = i + 1;
        assert(out@ =~= spec_case_map(b@, op).subrange(0, i as int));
    }
    assert(spec_case_map(b@, op).subrange(0, b@.len() as int) =~= spec_case_map(b@, op));
    out
}

/// The byte-wise class predicates.
pub enum ClassOp { Digit, Alpha, Alnum, Space, Upper, Lower }

pub open spec fn class_holds(op: ClassOp, c: u8) -> bool {
    match op {
        ClassOp::Digit => is_digit_byte(c),
        ClassOp::Alpha => is_alpha_byte(c),
        ClassOp::Alnum => is_alnum_byte(c),
        ClassOp::Space => is_ws_byte(c),
        ClassOp::Upper => is_upper_byte(c),
        ClassOp::Lower => is_lower_byte(c),
    }
}

/// `isdigit`/`isalpha`/`isalnum`/`isspace`: non-empty and every byte in the
/// class; `isupper`/`islower`: some byte of that case and none of the other.
pub open spec fn spec_class(b: Seq<u8>, op: ClassOp) -> bool {
    match op {
        ClassOp::Upper => (exists|i: int| 0 <= i < b.len() && is_upper_byte(b[i]))
            && !(exists|i: int| 0 <= i < b.len() && is_lower_byte(b[i])),
        ClassOp::Lower => (exists|i: int| 0 <= i < b.len() && is_lower_byte(b[i]))
            && !(exists|i: int| 0 <= i < b.len() && is_upper_byte(b[i])),
        _ => b.len() > 0 && forall|i: int| 0 <= i < b.len() ==> class_holds(op, b[i]),
    }
}

fn class_byte(op: &ClassOp, c: u8) -> (r: bool)
    ensures
        r == class_holds(*op, c),
{
    match op {
        ClassOp::Digit => 48 <= c && c <= 57,
        ClassOp::Alpha => (65 <= c && c <= 90) || (97 <= c && c <= 122),
        ClassOp::Alnum => (65 <= c && c <= 90) || (97 <= c && c <= 122) || (48 <= c && c <= 57),
        ClassOp::Space => c == 32 || c == 9 || c == 10 || c == 12 || c == 13,
        ClassOp::Upper => 65 <= c && c <= 90,
        ClassOp::Lower => 97 <= c && c <= 122,
    }
}

/// Whether some byte of `b` is in the class `op`.
fn any_in_class(b: &[u8], op: ClassOp) -> (r: bool)
    ensures
        r == exists|i: int| 0 <= i < b@.len() && class_holds(op, b@[i]),
{
    let mut i: usize = 0;
    while i < b.len()
        invariant
            i <= b@.len(),
            forall|j: int| 0 <= j < i ==> !class_holds(op, b@[j]),
        decreases b.len() - i,
    {
        if class_byte(&op, b[i]) {
            return true;
        }
        i = i + 1;
    }
    false
}

/// The byte-class predicates of `bytes`.
pub fn bytes_class(b: &[u8], op: ClassOp) -> (r: bool)
    ensures
        r == spec_class(b@, op),
{
    match op {
        ClassOp::Upper => any_in_class(b, ClassOp::Upper) && !any_in_class(b, ClassOp::Lower),
        ClassOp::Lower => any_in_class(b, ClassOp::Lower) && !any_in_class(b, ClassOp::Upper),
        _ => {
            if b.len() == 0 {
                return false;
            }
            let mut i: usize = 0;
            while i < b.len()
                invariant
                    !(op is Upper) && !(op is Lower),
                    i <= b@.len(),
                    forall|j: int| 0 <= j < i ==> class_holds(op, b@[j]),
                decreases b.len() - i,
            {
                if !class_byte(&op, b[i]) {
                    assert(!class_holds(op, b@[i as int]));
                    return false;
                }
                i = i + 1;
            }
            true
        },
    }
}

// ---------------------------------------------------------------------------
// Strip, affix removal, translate, padding
// ---------------------------------------------------------------------------

/// A byte is stripped when it is ASCII whitespace (no set given) or in the set.
pub open spec fn strippable(set: Option<Seq<u8>>, c: u8) -> bool {
    match set {
        None => is_ws_byte(c),
        Some(s) => s.contains(c),
    }
}

pub open spec fn skip_lead(b: Seq<u8>, set: Option<Seq<u8>>, lo: int, hi: int) -> int
    decreases hi - lo,
{
    if lo < hi && strippable(set, b[lo]) { skip_lead(b, set, lo + 1, hi) } else { lo }
}

pub open spec fn skip_trail(b: Seq<u8>, set: Option<Seq<u8>>, lo: int, hi: int) -> int
    decreases hi - lo,
{
    if hi > lo && strippable(set, b[hi - 1]) { skip_trail(b, set, lo, hi - 1) } else { hi }
}

/// The bytes left after stripping the left end (`left`) and the right end
/// (`right`).
pub open spec fn spec_strip(b: Seq<u8>, set: Option<Seq<u8>>, left: bool, right: bool) -> Seq<u8> {
    let lo = if left { skip_lead(b, set, 0, b.len() as int) } else { 0 };
    let hi = if right { skip_trail(b, set, lo, b.len() as int) } else { b.len() as int };
    b.subrange(lo, hi)
}

fn byte_in(set: &[u8], c: u8) -> (r: bool)
    ensures
        r == set@.contains(c),
{
    let mut i: usize = 0;
    while i < set.len()
        invariant
            i <= set@.len(),
            forall|j: int| 0 <= j < i ==> set@[j] != c,
        decreases set.len() - i,
    {
        if set[i] == c {
            return true;
        }
        i = i + 1;
    }
    false
}

fn strippable_exec(set: &Option<Vec<u8>>, c: u8) -> (r: bool)
    ensures
        r == strippable(match set { Some(v) => Some(v@), None => None }, c),
{
    match set {
        None => c == 32 || c == 9 || c == 10 || c == 12 || c == 13,
        Some(s) => byte_in(s, c),
    }
}

proof fn lemma_skip_bounds(b: Seq<u8>, set: Option<Seq<u8>>, lo: int, hi: int)
    requires
        0 <= lo <= hi <= b.len(),
    ensures
        lo <= skip_lead(b, set, lo, hi) <= hi,
        lo <= skip_trail(b, set, lo, hi) <= hi,
    decreases hi - lo,
{
    if lo < hi {
        lemma_skip_bounds(b, set, lo + 1, hi);
        lemma_skip_bounds(b, set, lo, hi - 1);
    }
}

/// `strip`/`lstrip`/`rstrip` with an optional byte set.
pub fn bytes_strip(b: &[u8], set: &Option<Vec<u8>>, left: bool, right: bool) -> (r: Vec<u8>)
    ensures
        r@ == spec_strip(b@, match set { Some(v) => Some(v@), None => None }, left, right),
{
    let ghost sset = match set { Some(v) => Some(v@), None => None::<Seq<u8>> };
    let mut lo: usize = 0;
    let mut hi: usize = b.len();
    if left {
        while lo < hi && strippable_exec(set, b[lo])
            invariant
                sset == match set { Some(v) => Some(v@), None => None::<Seq<u8>> },
                hi == b@.len(),
                lo <= hi,
                skip_lead(b@, sset, 0, hi as int) == skip_lead(b@, sset, lo as int, hi as int),
            decreases hi - lo,
        {
            lo = lo + 1;
        }
    }
    let ghost lo0 = lo;
    proof { lemma_skip_bounds(b@, sset, 0, b@.len() as int); }
    if right {
        while hi > lo && strippable_exec(set, b[hi - 1])
            invariant
                sset == match set { Some(v) => Some(v@), None => None::<Seq<u8>> },
                lo == lo0,
                lo <= hi <= b@.len(),
                skip_trail(b@, sset, lo as int, b@.len() as int) == skip_trail(b@, sset, lo as int, hi as int),
            decreases hi - lo,
        {
            hi = hi - 1;
        }
    }
    sub_bytes(b, lo, hi)
}

/// `b` without `affix` at its start (`is_start`) or end, when it has it.
pub open spec fn spec_remove_affix(b: Seq<u8>, affix: Seq<u8>, is_start: bool) -> Seq<u8> {
    if has_affix(b, affix, is_start) {
        if is_start { b.subrange(affix.len() as int, b.len() as int) } else { b.subrange(0, b.len() - affix.len()) }
    } else {
        b
    }
}

/// `removeprefix`/`removesuffix`.
pub fn bytes_remove_affix(b: &[u8], affix: &[u8], is_start: bool) -> (r: Vec<u8>)
    ensures
        r@ == spec_remove_affix(b@, affix@, is_start),
{
    if bytes_has_affix(b, affix, is_start) {
        if is_start { sub_bytes(b, affix.len(), b.len()) } else { sub_bytes(b, 0, b.len() - affix.len()) }
    } else {
        sub_bytes(b, 0, b.len())
    }
}

/// The first `k` bytes of `b` through `translate`: bytes in `delete` drop
/// out, the others map through `table` when one is given.
pub open spec fn translate_prefix(b: Seq<u8>, table: Option<Seq<u8>>, delete: Seq<u8>, k: int) -> Seq<u8>
    decreases k,
{
    if k <= 0 {
        Seq::empty()
    } else {
        let rest = translate_prefix(b, table, delete, k - 1);
        let c = b[k - 1];
        if delete.contains(c) {
            rest
        } else {
            rest.push(match table { Some(t) => t[c as int], None => c })
        }
    }
}

/// `translate(table, delete)` over a 256-byte table (or none).
pub fn bytes_translate(b: &[u8], table: &Option<Vec<u8>>, delete: &[u8]) -> (r: Vec<u8>)
    requires
        table matches Some(t) ==> t@.len() == 256,
    ensures
        r@ == translate_prefix(b@, match table { Some(t) => Some(t@), None => None }, delete@, b@.len() as int),
{
    let mut out: Vec<u8> = Vec::new();
    let mut i: usize = 0;
    while i < b.len()
        invariant
            i <= b@.len(),
            table matches Some(t) ==> t@.len() == 256,
            out@ == translate_prefix(b@, match table { Some(t) => Some(t@), None => None }, delete@, i as int),
        decreases b.len() - i,
    {
        let c = b[i];
        if !byte_in(delete, c) {
            let m = match table {
                Some(t) => t[c as usize],
                None => c,
            };
            out.push(m);
        }
        i = i + 1;
    }
    out
}

/// The padding kinds of `center`/`ljust`/`rjust`.
pub enum PadKind { Center, Left, Right }

/// How much of `total` padding goes on the left when centring to `width`:
/// half, and the odd one too when `total` and `width` are both odd.
pub open spec fn center_left(total: int, width: int) -> int {
    total / 2 + if total % 2 == 1 && width % 2 == 1 { 1int } else { 0int }
}

/// The left padding of a centred text, as `center_left` gives it.
pub fn center_left_exec(total: usize, width: usize) -> (r: usize)
    requires
        total <= width,
    ensures
        r as int == center_left(total as int, width as int),
        r <= total,
{
    total / 2 + if total % 2 == 1 && width % 2 == 1 { 1 } else { 0 }
}

/// `b` padded with `fill` to `width` (left-justified, right-justified or
/// centred, the odd byte on the left exactly when `width` is odd);
/// unchanged when already that long.
pub open spec fn spec_pad(b: Seq<u8>, width: int, fill: u8, kind: PadKind) -> Seq<u8> {
    if b.len() >= width {
        b
    } else {
        let pad = width - b.len();
        let left = match kind { PadKind::Left => 0, PadKind::Right => pad, PadKind::Center => center_left(pad, width) };
        Seq::new(left as nat, |_i: int| fill) + b + Seq::new((pad - left) as nat, |_i: int| fill)
    }
}

pub fn bytes_pad(b: &[u8], width: usize, fill: u8, kind: PadKind) -> (r: Vec<u8>)
    ensures
        r@ == spec_pad(b@, width as int, fill, kind),
{
    if b.len() >= width {
        return sub_bytes(b, 0, b.len());
    }
    let pad = width - b.len();
    let left = match kind { PadKind::Left => 0, PadKind::Right => pad, PadKind::Center => center_left_exec(pad, width) };
    let mut out: Vec<u8> = Vec::new();
    push_repeat(&mut out, fill, left);
    extend_bytes(&mut out, b);
    push_repeat(&mut out, fill, pad - left);
    assert(out@ =~= spec_pad(b@, width as int, fill, kind));
    out
}

/// `zfill(width)`: left-pad with `b'0'`, keeping a leading sign byte first.
pub open spec fn spec_zfill(b: Seq<u8>, width: int) -> Seq<u8> {
    if b.len() >= width {
        b
    } else {
        let zeros = Seq::new((width - b.len()) as nat, |_i: int| 48u8);
        if b.len() > 0 && (b[0] == 43 || b[0] == 45) {
            seq![b[0]] + zeros + b.subrange(1, b.len() as int)
        } else {
            zeros + b
        }
    }
}

pub fn bytes_zfill(b: &[u8], width: usize) -> (r: Vec<u8>)
    ensures
        r@ == spec_zfill(b@, width as int),
{
    if b.len() >= width {
        return sub_bytes(b, 0, b.len());
    }
    let pad = width - b.len();
    let mut out: Vec<u8> = Vec::new();
    if b.len() > 0 && (b[0] == 43 || b[0] == 45) {
        out.push(b[0]);
        push_repeat(&mut out, 48, pad);
        let rest = sub_bytes(b, 1, b.len());
        extend_bytes(&mut out, &rest);
    } else {
        push_repeat(&mut out, 48, pad);
        extend_bytes(&mut out, b);
    }
    assert(out@ =~= spec_zfill(b@, width as int));
    out
}


// ---------------------------------------------------------------------------
// Splitting, replacing, partitioning, lines, joining
// ---------------------------------------------------------------------------

/// A list of `bytes` objects.
pub open spec fn bytes_list(parts: Seq<Seq<u8>>) -> PyVal {
    PyVal::List(Seq::new(parts.len(), |i: int| PyVal::Bytes(parts[i])))
}

/// A list value holding `parts` as `bytes` objects.
pub fn bytes_list_value(parts: Vec<Vec<u8>>) -> (r: Value)
    ensures
        r@ == bytes_list(Seq::new(parts@.len(), |i: int| parts@[i]@)),
{
    let mut out: Vec<Value> = Vec::new();
    let mut i: usize = 0;
    while i < parts.len()
        invariant
            i <= parts@.len(),
            view_items(out@) == Seq::new(i as nat, |j: int| PyVal::Bytes(parts@[j]@)),
        decreases parts.len() - i,
    {
        let item = Value::Bytes(parts[i].clone());
        proof { crate::value::lemma_view_items_push(out@, item); }
        out.push(item);
        i = i + 1;
        assert(view_items(out@) =~= Seq::new(i as nat, |j: int| PyVal::Bytes(parts@[j]@)));
    }
    let r = Value::List(out);
    assert(r@ == bytes_list(Seq::new(parts@.len(), |i: int| parts@[i]@))) by {
        assert(view_items(out@) =~= Seq::new(parts@.len(), |j: int| PyVal::Bytes(parts@[j]@)));
        assert(Seq::new(parts@.len(), |j: int| PyVal::Bytes(parts@[j]@)) =~= Seq::new(
            Seq::new(parts@.len(), |i: int| parts@[i]@).len(),
            |j: int| PyVal::Bytes(Seq::new(parts@.len(), |i: int| parts@[i]@)[j]),
        ));
    }
    r
}

/// The views of a vector of byte vectors.
pub open spec fn views(parts: Seq<Vec<u8>>) -> Seq<Seq<u8>> {
    Seq::new(parts.len(), |i: int| parts[i]@)
}

/// The pieces of `b` from `start`, scanning from `i`, split at each
/// non-overlapping occurrence of a non-empty `sep`.
pub open spec fn split_from(b: Seq<u8>, sep: Seq<u8>, start: int, i: int) -> Seq<Seq<u8>>
    decreases b.len() - i,
{
    if sep.len() == 0 || i < 0 || i + sep.len() > b.len() {
        seq![b.subrange(start, b.len() as int)]
    } else if occurs_at(b, sep, i) {
        seq![b.subrange(start, i)] + split_from(b, sep, i + sep.len(), i + sep.len())
    } else {
        split_from(b, sep, start, i + 1)
    }
}

/// `split(sep)` over a non-empty separator.
pub fn bytes_split_on(b: &[u8], sep: &[u8]) -> (r: Vec<Vec<u8>>)
    requires
        sep@.len() > 0,
    ensures
        views(r@) == split_from(b@, sep@, 0, 0),
{
    let mut parts: Vec<Vec<u8>> = Vec::new();
    let mut start: usize = 0;
    let mut i: usize = 0;
    while i <= b.len() && sep.len() <= b.len() - i
        invariant
            sep@.len() > 0,
            start <= i <= b@.len(),
            views(parts@) + split_from(b@, sep@, start as int, i as int) == split_from(b@, sep@, 0, 0),
        decreases b.len() - i,
    {
        if bytes_match_at(b, sep, i) {
            let piece = sub_bytes(b, start, i);
            let ghost before = views(parts@);
            let ghost old_start = start;
            let ghost old_i = i;
            parts.push(piece);
            assert(views(parts@) =~= before.push(piece@));
            i = i + sep.len();
            start = i;
            assert(split_from(b@, sep@, old_start as int, old_i as int) == seq![piece@] + split_from(b@, sep@, start as int, i as int));
            assert(before + (seq![piece@] + split_from(b@, sep@, start as int, i as int)) =~= views(parts@) + split_from(b@, sep@, start as int, i as int));
        } else {
            i = i + 1;
        }
    }
    let last = sub_bytes(b, start, b.len());
    let ghost before = views(parts@);
    parts.push(last);
    assert(views(parts@) =~= before.push(last@));
    assert(views(parts@) =~= before + split_from(b@, sep@, start as int, i as int));
    parts
}

/// `b` from `i` on with each non-overlapping occurrence of a non-empty
/// `needle` replaced by `repl`.
pub open spec fn replace_from(b: Seq<u8>, needle: Seq<u8>, repl: Seq<u8>, i: int) -> Seq<u8>
    decreases b.len() - i,
{
    if needle.len() == 0 || i < 0 || i + needle.len() > b.len() {
        b.subrange(i, b.len() as int)
    } else if occurs_at(b, needle, i) {
        repl + replace_from(b, needle, repl, i + needle.len())
    } else {
        seq![b[i]] + replace_from(b, needle, repl, i + 1)
    }
}

/// `replace(old, new)` over a non-empty `old`.
pub fn bytes_replace_all(b: &[u8], needle: &[u8], repl: &[u8]) -> (r: Vec<u8>)
    requires
        needle@.len() > 0,
    ensures
        r@ == replace_from(b@, needle@, repl@, 0),
{
    let mut out: Vec<u8> = Vec::new();
    let mut i: usize = 0;
    while i <= b.len() && needle.len() <= b.len() - i
        invariant
            needle@.len() > 0,
            i <= b@.len(),
            out@ + replace_from(b@, needle@, repl@, i as int) == replace_from(b@, needle@, repl@, 0),
        decreases b.len() - i,
    {
        if bytes_match_at(b, needle, i) {
            let ghost before = out@;
            extend_bytes(&mut out, repl);
            i = i + needle.len();
            assert(before + (repl@ + replace_from(b@, needle@, repl@, i as int)) =~= out@ + replace_from(b@, needle@, repl@, i as int));
        } else {
            let ghost before = out@;
            out.push(b[i]);
            i = i + 1;
            assert(before + (seq![b@[i - 1]] + replace_from(b@, needle@, repl@, i as int)) =~= out@ + replace_from(b@, needle@, repl@, i as int));
        }
    }
    let rest = sub_bytes(b, i, b.len());
    let ghost before = out@;
    extend_bytes(&mut out, &rest);
    out
}

/// The lines of `b` from `start`, scanning from `i`; `\n`, `\r` and `\r\n`
/// end a line, kept on the line when `keep`.
pub open spec fn lines_from(b: Seq<u8>, start: int, i: int, keep: bool) -> Seq<Seq<u8>>
    decreases b.len() - i,
{
    if i < 0 || i >= b.len() {
        if 0 <= start < b.len() { seq![b.subrange(start, b.len() as int)] } else { Seq::empty() }
    } else if b[i] == 10 || b[i] == 13 {
        let end = if b[i] == 13 && i + 1 < b.len() && b[i + 1] == 10 { i + 2 } else { i + 1 };
        seq![b.subrange(start, if keep { end } else { i })] + lines_from(b, end, end, keep)
    } else {
        lines_from(b, start, i + 1, keep)
    }
}

/// `splitlines(keepends)`: only ASCII `\n`, `\r` and `\r\n` end a line.
pub fn bytes_splitlines(b: &[u8], keep: bool) -> (r: Vec<Vec<u8>>)
    ensures
        views(r@) == lines_from(b@, 0, 0, keep),
{
    let mut lines: Vec<Vec<u8>> = Vec::new();
    let mut start: usize = 0;
    let mut i: usize = 0;
    while i < b.len()
        invariant
            start <= i <= b@.len(),
            views(lines@) + lines_from(b@, start as int, i as int, keep) == lines_from(b@, 0, 0, keep),
        decreases b.len() - i,
    {
        if b[i] == 10 || b[i] == 13 {
            let mut end = i + 1;
            if b[i] == 13 && end < b.len() && b[end] == 10 {
                end = end + 1;
            }
            let line_end = if keep { end } else { i };
            let piece = sub_bytes(b, start, line_end);
            let ghost before = views(lines@);
            lines.push(piece);
            assert(views(lines@) =~= before.push(piece@));
            assert(before + lines_from(b@, start as int, i as int, keep) =~= views(lines@) + lines_from(b@, end as int, end as int, keep));
            start = end;
            i = end;
        } else {
            i = i + 1;
        }
    }
    if start < b.len() {
        let piece = sub_bytes(b, start, b.len());
        let ghost before = views(lines@);
        lines.push(piece);
        assert(views(lines@) =~= before.push(piece@));
        assert(views(lines@) =~= before + lines_from(b@, start as int, i as int, keep));
    } else {
        assert(views(lines@) =~= views(lines@) + lines_from(b@, start as int, i as int, keep));
    }
    lines
}

/// Joining the first `k` items with `sep`; the first item that is not
/// `bytes` raises `TypeError`.
pub open spec fn join_prefix(items: Seq<PyVal>, sep: Seq<u8>, k: int) -> Result<Seq<u8>, ErrSpec>
    decreases k,
{
    if k <= 0 {
        Ok(Seq::empty())
    } else {
        match join_prefix(items, sep, k - 1) {
            Err(es) => Err(es),
            Ok(acc) => match items[k - 1] {
                PyVal::Bytes(p) => Ok(if k - 1 > 0 { acc + sep + p } else { acc + p }),
                other => Err(ErrSpec::Type("sequence item "@ + decimal((k - 1) as nat)
                    + ": expected a bytes-like object, "@ + pyval_type_name(other) + " found"@)),
            },
        }
    }
}

proof fn lemma_join_err_persists(items: Seq<PyVal>, sep: Seq<u8>, k: int, k2: int)
    requires
        0 <= k <= k2,
        join_prefix(items, sep, k) is Err,
    ensures
        join_prefix(items, sep, k2) == join_prefix(items, sep, k),
    decreases k2 - k,
{
    if k2 > k {
        lemma_join_err_persists(items, sep, k, k2 - 1);
    }
}

/// What `sep.join(iterable)` returns on `bytes`.
pub open spec fn spec_bytes_join(b: Seq<u8>, args: Seq<Value>) -> Result<PyVal, ErrSpec> {
    match arg_at(args, 0) {
        None => Err(ErrSpec::Type("join() takes exactly one argument"@)),
        Some(v) => match spec_iter_items(v@) {
            None => Err(ErrSpec::Type("'"@ + spec_py_type_name(v) + "' object is not iterable"@)),
            Some(items) => match join_prefix(items, b, items.len() as int) {
                Ok(out) => Ok(PyVal::Bytes(out)),
                Err(es) => Err(es),
            },
        },
    }
}

/// `sep.join(iterable)` for a `bytes` separator.
pub fn bytes_join(b: &[u8], args: &[Value]) -> (r: EvalResult)
    ensures
        result_matches(r, spec_bytes_join(b@, args@)),
{
    if args.len() == 0 {
        return Err(type_error(str_to_string("join() takes exactly one argument")));
    }
    let items = match iterate_value(&args[0]) {
        Ok(v) => v,
        Err(e) => { return Err(e); },
    };
    let ghost its = view_items(items@);
    proof { lemma_view_items(items@); }
    let ghost goal = spec_bytes_join(b@, args@);
    assert(goal == match join_prefix(its, b@, its.len() as int) {
        Ok(o) => Ok(PyVal::Bytes(o)),
        Err(es) => Err(es),
    });
    let mut out: Vec<u8> = Vec::new();
    let mut i: usize = 0;
    while i < items.len()
        invariant
            goal == spec_bytes_join(b@, args@),
            goal == match join_prefix(its, b@, its.len() as int) {
                Ok(o) => Ok(PyVal::Bytes(o)),
                Err(es) => Err::<PyVal, ErrSpec>(es),
            },
            its == view_items(items@),
            its.len() == items@.len(),
            forall|j: int| 0 <= j < items@.len() ==> its[j] == view_value(#[trigger] items@[j]),
            i <= items@.len(),
            join_prefix(its, b@, i as int) == Ok::<Seq<u8>, ErrSpec>(out@),
        decreases items.len() - i,
    {
        match &items[i] {
            Value::Bytes(part) => {
                if i > 0 {
                    extend_bytes(&mut out, b);
                }
                extend_bytes(&mut out, part);
                i = i + 1;
                proof {
                    assert(its[i - 1] == view_value(items@[i - 1]));
                }
            },
            other => {
                let idx = string_from_chars(&decimal_chars(i as u64));
                let s1 = concat_str("sequence item ", idx.as_str());
                let s2 = s1.concat(": expected a bytes-like object, ");
                let s3 = s2.concat(other.py_type_name());
                let s4 = s3.concat(" found");
                proof {
                    assert(its[i as int] == view_value(*other));
                    crate::value::lemma_type_name_view(*other);
                    assert(s4@ =~= "sequence item "@ + decimal(i as nat) + ": expected a bytes-like object, "@
                        + pyval_type_name(its[i as int]) + " found"@);
                    lemma_join_err_persists(its, b@, i + 1, its.len() as int);
                }
                return Err(type_error(s4));
            },
        }
    }
    Ok(Value::Bytes(out))
}

/// What `partition`/`rpartition(sep)` return: the pieces around the first
/// (last) occurrence of `sep`, or the whole in the head (tail) and two empty
/// pieces.
pub open spec fn spec_partition(b: Seq<u8>, sep: Seq<u8>, from_right: bool) -> Seq<Seq<u8>> {
    let p = if from_right { rfind_to(b, sep, b.len() as int) } else { find_from(b, sep, 0) };
    if p >= 0 {
        seq![b.subrange(0, p), sep, b.subrange(p + sep.len(), b.len() as int)]
    } else if from_right {
        seq![Seq::empty(), Seq::empty(), b]
    } else {
        seq![b, Seq::empty(), Seq::empty()]
    }
}

/// A tuple of `bytes` objects.
pub open spec fn bytes_tuple(parts: Seq<Seq<u8>>) -> PyVal {
    PyVal::Tuple(Seq::new(parts.len(), |i: int| PyVal::Bytes(parts[i])))
}

/// `partition`/`rpartition` over a non-empty separator.
pub fn bytes_partition(b: &[u8], sep: &[u8], from_right: bool) -> (r: Value)
    requires
        sep@.len() > 0,
    ensures
        r@ == bytes_tuple(spec_partition(b@, sep@, from_right)),
{
    let found = if from_right { rfind_in_window(b, sep, 0, b.len()) } else { find_in_window(b, sep, 0, b.len()) };
    assert(b@.subrange(0, b@.len() as int) =~= b@);
    proof { lemma_find_bounds(b@, sep@); }
    let (head, mid, tail) = match found {
        Some(i) => (sub_bytes(b, 0, i), sub_bytes(sep, 0, sep.len()), sub_bytes(b, i + sep.len(), b.len())),
        None => if from_right {
            (Vec::new(), Vec::new(), sub_bytes(b, 0, b.len()))
        } else {
            (sub_bytes(b, 0, b.len()), Vec::new(), Vec::new())
        },
    };
    assert(sep@.subrange(0, sep@.len() as int) =~= sep@);
    let mut out: Vec<Value> = Vec::new();
    let v0 = Value::Bytes(head);
    let v1 = Value::Bytes(mid);
    let v2 = Value::Bytes(tail);
    proof { crate::value::lemma_view_items_push(out@, v0); }
    out.push(v0);
    proof { crate::value::lemma_view_items_push(out@, v1); }
    out.push(v1);
    proof { crate::value::lemma_view_items_push(out@, v2); }
    out.push(v2);
    let r = Value::Tuple(out);
    assert(view_items(out@) =~= Seq::new(3, |i: int| PyVal::Bytes(spec_partition(b@, sep@, from_right)[i])));
    r
}


// ---------------------------------------------------------------------------
// Decoding
// ---------------------------------------------------------------------------

/// The `Display` text of the `Utf8Error` that `std::str::from_utf8` reports
/// for invalid input.
pub uninterp spec fn utf8_error_text(b: Seq<u8>) -> Seq<char>;

/// Decode UTF-8. Calls `std::str::from_utf8`: it succeeds exactly on valid
/// UTF-8, and then yields the characters the bytes encode; on failure the
/// error's `Display` text is returned.
#[verifier::external_body]
pub(crate) fn utf8_decode(b: &[u8]) -> (r: Result<String, String>)
    ensures
        r is Ok <==> vstd::utf8::valid_utf8(b@),
        r matches Ok(s) ==> s@ == vstd::utf8::decode_utf8(b@),
        r matches Err(m) ==> m@ == utf8_error_text(b@),
{
    match std::str::from_utf8(b) {
        Ok(s) => Ok(s.to_string()),
        Err(e) => Err(format!("{e}")),
    }
}

/// UTF-16 decoding: a code unit outside the surrogate range is a character;
/// a high surrogate followed by a low surrogate is one supplementary
/// character; any other surrogate makes the input invalid.
pub open spec fn utf16_decode(u: Seq<u16>) -> Option<Seq<char>>
    decreases u.len(),
{
    if u.len() == 0 {
        Some(Seq::empty())
    } else if u[0] < 0xD800 || u[0] > 0xDFFF {
        match utf16_decode(u.drop_first()) {
            Some(rest) => Some(seq![u[0] as char] + rest),
            None => None,
        }
    } else if u[0] <= 0xDBFF && u.len() >= 2 && 0xDC00 <= u[1] <= 0xDFFF {
        match utf16_decode(u.subrange(2, u.len() as int)) {
            Some(rest) => Some(seq![(0x10000 + (u[0] - 0xD800) * 0x400 + (u[1] - 0xDC00)) as char] + rest),
            None => None,
        }
    } else {
        None
    }
}

/// Decode UTF-16 code units: `None` where a surrogate is unpaired.
pub(crate) fn utf16_decode_units(u: &[u16]) -> (r: Option<String>)
    ensures
        match utf16_decode(u@) {
            Some(cs) => r matches Some(s) && s@ == cs,
            None => r is None,
        },
{
    let n = u.len();
    let mut out: Vec<char> = Vec::new();
    let mut i: usize = 0;
    proof { assert(u@.subrange(0, n as int) =~= u@); assert(out@ + Seq::<char>::empty() =~= out@); }
    while i < n
        invariant
            n == u@.len(),
            i <= n,
            utf16_decode(u@) == match utf16_decode(u@.subrange(i as int, n as int)) {
                Some(rest) => Some(out@ + rest),
                None => None::<Seq<char>>,
            },
        decreases n - i,
    {
        let ghost t = u@.subrange(i as int, n as int);
        let ghost o = out@;
        let w = u[i];
        if w < 0xD800 || w > 0xDFFF {
            let c = match crate::builtins::char_from_code(w as u32) {
                Some(c) => c,
                None => { return None; },
            };
            out.push(c);
            proof {
                assert(t.drop_first() =~= u@.subrange(i + 1, n as int));
                assert(t[0] == w);
                vstd::utf8::char_u32_cast(c, w as u32);
                assert(c == (w as char));
                match utf16_decode(u@.subrange(i + 1, n as int)) {
                    Some(rest) => { assert(o + (seq![c] + rest) =~= out@ + rest); },
                    None => {},
                }
            }
            i = i + 1;
        } else if w <= 0xDBFF && i + 1 < n && 0xDC00 <= u[i + 1] && u[i + 1] <= 0xDFFF {
            let lo = u[i + 1];
            let code: u32 = 0x10000 + ((w - 0xD800) as u32) * 0x400 + ((lo - 0xDC00) as u32);
            let c = match crate::builtins::char_from_code(code) {
                Some(c) => c,
                None => { return None; },
            };
            out.push(c);
            proof {
                assert(t.subrange(2, t.len() as int) =~= u@.subrange(i + 2, n as int));
                assert(t[0] == w && t[1] == lo);
                vstd::utf8::char_u32_cast(c, code);
                assert(code as int == 0x10000 + (w - 0xD800) * 0x400 + (lo - 0xDC00));
                assert(c == ((0x10000 + (w - 0xD800) * 0x400 + (lo - 0xDC00)) as char));
                match utf16_decode(u@.subrange(i + 2, n as int)) {
                    Some(rest) => { assert(o + (seq![c] + rest) =~= out@ + rest); },
                    None => {},
                }
            }
            i = i + 2;
        } else {
            proof { assert(t[0] == w); assert(t.len() >= 2 ==> t[1] == u@[i + 1]); }
            return None;
        }
    }
    proof {
        assert(u@.subrange(i as int, n as int) =~= Seq::<u16>::empty());
        assert(out@ + Seq::<char>::empty() =~= out@);
    }
    Some(crate::text::string_from_chars(out.as_slice()))
}

/// The characters of `s` with ASCII capitals lowered.
pub open spec fn ascii_lower_chars(s: Seq<char>) -> Seq<char> {
    Seq::new(s.len(), |i: int| if 'A' <= s[i] <= 'Z' { ((s[i] as u32) + 32) as char } else { s[i] })
}

pub fn to_ascii_lower_chars(s: &[char]) -> (r: Vec<char>)
    ensures
        r@ == ascii_lower_chars(s@),
{
    let mut out: Vec<char> = Vec::new();
    let mut i: usize = 0;
    while i < s.len()
        invariant
            i <= s@.len(),
            out@ == ascii_lower_chars(s@).subrange(0, i as int),
        decreases s.len() - i,
    {
        let c = s[i];
        let d = if 'A' <= c && c <= 'Z' { ((c as u32) + 32) as u8 as char } else { c };
        proof {
            if 'A' <= c && c <= 'Z' {
                assert((c as u32) + 32 < 256);
            }
        }
        out.push(d);
        i = i + 1;
        assert(out@ =~= ascii_lower_chars(s@).subrange(0, i as int));
    }
    assert(ascii_lower_chars(s@).subrange(0, s@.len() as int) =~= ascii_lower_chars(s@));
    out
}

/// The bytes as Latin-1 characters (each byte one code point).
pub open spec fn latin1_chars(b: Seq<u8>) -> Seq<char> {
    Seq::new(b.len(), |i: int| b[i] as char)
}

pub fn latin1_decode(b: &[u8]) -> (r: Vec<char>)
    ensures
        r@ == latin1_chars(b@),
{
    let mut out: Vec<char> = Vec::new();
    let mut i: usize = 0;
    while i < b.len()
        invariant
            i <= b@.len(),
            out@ == latin1_chars(b@).subrange(0, i as int),
        decreases b.len() - i,
    {
        out.push(b[i] as char);
        i = i + 1;
        assert(out@ =~= latin1_chars(b@).subrange(0, i as int));
    }
    assert(latin1_chars(b@).subrange(0, b@.len() as int) =~= latin1_chars(b@));
    out
}

/// The 16-bit units of byte pairs (a trailing odd byte is dropped).
pub open spec fn utf16_units(b: Seq<u8>, little: bool) -> Seq<u16> {
    Seq::new(b.len() / 2, |i: int| if little {
        (b[2 * i] as int + b[2 * i + 1] as int * 256) as u16
    } else {
        (b[2 * i] as int * 256 + b[2 * i + 1] as int) as u16
    })
}

pub fn pair_units(b: &[u8], from: usize, little: bool) -> (r: Vec<u16>)
    requires
        from <= b@.len(),
    ensures
        r@ == utf16_units(b@.subrange(from as int, b@.len() as int), little),
{
    let ghost body = b@.subrange(from as int, b@.len() as int);
    let len = b.len();
    let n = (len - from) / 2;
    let mut out: Vec<u16> = Vec::new();
    let mut i: usize = 0;
    while i < n
        invariant
            len == b@.len(),
            from <= b@.len(),
            body == b@.subrange(from as int, b@.len() as int),
            n == body.len() / 2,
            i <= n,
            out@ == utf16_units(body, little).subrange(0, i as int),
        decreases n - i,
    {
        assert(2 * i + 2 <= len - from) by (nonlinear_arith)
            requires
                i < n,
                n == (len - from) / 2,
                from <= len,
        ;
        let c0 = b[from + 2 * i] as u16;
        let c1 = b[from + 2 * i + 1] as u16;
        let u: u16 = if little { c0 + c1 * 256 } else { c0 * 256 + c1 };
        out.push(u);
        i = i + 1;
        assert(out@ =~= utf16_units(body, little).subrange(0, i as int));
    }
    assert(utf16_units(body, little).subrange(0, n as int) =~= utf16_units(body, little));
    out
}

/// The byte order and body of a UTF-16 decode under the lowered encoding
/// name: `be`/`le` in the name force the order; otherwise a byte-order mark
/// picks it (and is dropped), defaulting to little-endian.
pub open spec fn utf16_layout(b: Seq<u8>, lname: Seq<char>) -> (bool, int) {
    if seq_contains(lname, "be"@) {
        (false, 0)
    } else if seq_contains(lname, "le"@) {
        (true, 0)
    } else if b.len() >= 2 && b[0] == 0xFF && b[1] == 0xFE {
        (true, 2)
    } else if b.len() >= 2 && b[0] == 0xFE && b[1] == 0xFF {
        (false, 2)
    } else {
        (true, 0)
    }
}

pub open spec fn is_utf8_name(n: Seq<char>) -> bool { n == "utf-8"@ || n == "utf_8"@ || n == "u8"@ }
pub open spec fn is_ascii_name(n: Seq<char>) -> bool { n == "ascii"@ || n == "us-ascii"@ }
pub open spec fn is_latin1_name(n: Seq<char>) -> bool {
    n == "latin-1"@ || n == "latin1"@ || n == "iso-8859-1"@ || n == "iso8859-1"@
}
pub open spec fn is_utf16_name(n: Seq<char>) -> bool {
    n == "utf-16"@ || n == "utf16"@ || n == "utf-16-le"@ || n == "utf-16le"@ || n == "utf_16_le"@
        || n == "utf-16-be"@ || n == "utf-16be"@ || n == "utf_16_be"@
}

/// What `bytes.decode(encoding='utf-8')` returns.
pub open spec fn spec_bytes_decode(b: Seq<u8>, args: Seq<Value>) -> Result<PyVal, ErrSpec> {
    let enc: Option<Seq<char>> = match arg_at(args, 0) {
        None => Some("utf-8"@),
        Some(Value::String(n)) => Some(n@),
        Some(_) => None,
    };
    match enc {
        None => Err(ErrSpec::Type("decode() argument must be str"@)),
        Some(e) => {
            let lname = ascii_lower_chars(e);
            if is_utf8_name(lname) {
                if vstd::utf8::valid_utf8(b) {
                    Ok(PyVal::Str(vstd::utf8::decode_utf8(b)))
                } else {
                    Err(ErrSpec::Value("invalid utf-8: "@ + utf8_error_text(b)))
                }
            } else if is_ascii_name(lname) {
                if forall|i: int| 0 <= i < b.len() ==> b[i] < 128 {
                    Ok(PyVal::Str(latin1_chars(b)))
                } else {
                    Err(ErrSpec::Exc("UnicodeDecodeError"@, "'ascii' codec can't decode byte"@))
                }
            } else if is_latin1_name(lname) {
                Ok(PyVal::Str(latin1_chars(b)))
            } else if is_utf16_name(lname) {
                let (little, from) = utf16_layout(b, lname);
                match utf16_decode(utf16_units(b.subrange(from, b.len() as int), little)) {
                    Some(cs) => Ok(PyVal::Str(cs)),
                    None => Err(ErrSpec::Value("invalid utf-16 data"@)),
                }
            } else {
                Err(ErrSpec::Value("unknown encoding: "@ + lname))
            }
        },
    }
}

/// Whether `s` contains the characters of `pat`.
pub fn chars_contain(s: &[char], pat: &[char]) -> (r: bool)
    ensures
        r == seq_contains(s@, pat@),
{
    let mut i: usize = 0;
    while i < s.len()
        invariant
            i <= s@.len(),
            forall|j: int| 0 <= j < i ==> !occurs_at(s@, pat@, j),
        decreases s.len() - i,
    {
        if chars_match_at(s, pat, i) {
            return true;
        }
        i = i + 1;
    }
    if chars_match_at(s, pat, s.len()) {
        return true;
    }
    false
}

/// `bytes.decode(encoding="utf-8")`: UTF-8, ASCII, Latin-1 and UTF-16
/// (plain, `-le`, `-be`); encoding names match case-insensitively.
pub fn bytes_decode(b: &[u8], args: &[Value]) -> (r: EvalResult)
    ensures
        result_matches(r, spec_bytes_decode(b@, args@)),
{
    let enc: Vec<char> = match if args.len() > 0 { Some(&args[0]) } else { None } {
        None => chars_of("utf-8"),
        Some(Value::String(n)) => chars_of(n.as_str()),
        Some(_) => { return Err(type_error(str_to_string("decode() argument must be str"))); },
    };
    let lower = to_ascii_lower_chars(&enc);
    let lname = string_from_chars(&lower);
    let l = lname.as_str();
    if str_eq(l, "utf-8") || str_eq(l, "utf_8") || str_eq(l, "u8") {
        match utf8_decode(b) {
            Ok(s) => Ok(Value::String(s)),
            Err(m) => Err(value_error(concat_str("invalid utf-8: ", m.as_str()))),
        }
    } else if str_eq(l, "ascii") || str_eq(l, "us-ascii") {
        let ghost goal = spec_bytes_decode(b@, args@);
        assert(goal == if forall|i: int| 0 <= i < b@.len() ==> b@[i] < 128 {
            Ok(PyVal::Str(latin1_chars(b@)))
        } else {
            Err(ErrSpec::Exc("UnicodeDecodeError"@, "'ascii' codec can't decode byte"@))
        });
        let mut i: usize = 0;
        while i < b.len()
            invariant
                goal == spec_bytes_decode(b@, args@),
                goal == if forall|i: int| 0 <= i < b@.len() ==> b@[i] < 128 {
                    Ok(PyVal::Str(latin1_chars(b@)))
                } else {
                    Err::<PyVal, ErrSpec>(ErrSpec::Exc("UnicodeDecodeError"@, "'ascii' codec can't decode byte"@))
                },
                i <= b@.len(),
                forall|j: int| 0 <= j < i ==> b@[j] < 128,
            decreases b.len() - i,
        {
            if b[i] >= 128 {
                assert(!(forall|j: int| 0 <= j < b@.len() ==> b@[j] < 128));
                return Err(exception("UnicodeDecodeError", str_to_string("'ascii' codec can't decode byte")));
            }
            i = i + 1;
        }
        Ok(Value::String(string_from_chars(&latin1_decode(b))))
    } else if str_eq(l, "latin-1") || str_eq(l, "latin1") || str_eq(l, "iso-8859-1") || str_eq(l, "iso8859-1") {
        Ok(Value::String(string_from_chars(&latin1_decode(b))))
    } else if str_eq(l, "utf-16") || str_eq(l, "utf16") || str_eq(l, "utf-16-le") || str_eq(l, "utf-16le")
        || str_eq(l, "utf_16_le") || str_eq(l, "utf-16-be") || str_eq(l, "utf-16be") || str_eq(l, "utf_16_be") {
        let be_pat = chars_of("be");
        let le_pat = chars_of("le");
        let (little, from): (bool, usize) = if chars_contain(&lower, &be_pat) {
            (false, 0)
        } else if chars_contain(&lower, &le_pat) {
            (true, 0)
        } else if b.len() >= 2 && b[0] == 0xFF && b[1] == 0xFE {
            (true, 2)
        } else if b.len() >= 2 && b[0] == 0xFE && b[1] == 0xFF {
            (false, 2)
        } else {
            (true, 0)
        };
        let units = pair_units(b, from, little);
        match utf16_decode_units(&units) {
            Some(s) => Ok(Value::String(s)),
            None => Err(value_error(str_to_string("invalid utf-16 data"))),
        }
    } else {
        Err(value_error(concat_str("unknown encoding: ", l)))
    }
}


// ---------------------------------------------------------------------------
// The `bytes` method table
// ---------------------------------------------------------------------------

/// `a bytes-like object is required`.
pub open spec fn bytes_like_msg() -> Seq<char> {
    "a bytes-like object is required"@
}

/// What `split([sep])` returns (the separator defaults to a space).
pub open spec fn spec_bytes_split(b: Seq<u8>, args: Seq<Value>) -> Result<PyVal, ErrSpec> {
    match arg_at(args, 0) {
        None => Ok(bytes_list(ws_words(b))),
        Some(Value::Bytes(s)) => if s@.len() == 0 {
            Err(ErrSpec::Value("empty separator"@))
        } else {
            Ok(bytes_list(split_from(b, s@, 0, 0)))
        },
        Some(_) => Err(ErrSpec::Type("split() argument must be bytes"@)),
    }
}

/// The runs of bytes between runs of ASCII white space, none of them
/// empty.
pub open spec fn ws_words(b: Seq<u8>) -> Seq<Seq<u8>>
    decreases b.len(),
{
    if b.len() == 0 {
        Seq::empty()
    } else if is_ws_byte(b.last()) {
        ws_words(b.drop_last())
    } else if b.len() >= 2 && !is_ws_byte(b[b.len() - 2]) {
        let w = ws_words(b.drop_last());
        w.update(w.len() - 1, w.last().push(b.last()))
    } else {
        ws_words(b.drop_last()).push(seq![b.last()])
    }
}

/// `b` split on runs of ASCII white space.
pub fn bytes_split_ws(b: &[u8]) -> (r: Vec<Vec<u8>>)
    ensures
        views(r@) == ws_words(b@),
{
    let mut out: Vec<Vec<u8>> = Vec::new();
    let mut cur: Vec<u8> = Vec::new();
    let mut i: usize = 0;
    proof { assert(b@.take(0) =~= Seq::<u8>::empty()); assert(views(out@) =~= Seq::<Seq<u8>>::empty()); }
    while i < b.len()
        invariant
            i <= b@.len(),
            (cur@.len() > 0) == (i > 0 && !is_ws_byte(b@[i - 1])),
            ws_words(b@.take(i as int)) == if cur@.len() > 0 { views(out@).push(cur@) } else { views(out@) },
        decreases b.len() - i,
    {
        let c = b[i];
        let ghost before = views(out@);
        let ghost cur0 = cur@;
        let ghost t = b@.take(i + 1);
        proof {
            assert(t.drop_last() =~= b@.take(i as int));
            assert(t.last() == c);
            assert(t.len() >= 2 ==> t[t.len() - 2] == b@[i - 1]);
        }
        if c == 32 || c == 9 || c == 10 || c == 12 || c == 13 {
            if cur.len() > 0 {
                let mut w: Vec<u8> = Vec::new();
                std::mem::swap(&mut w, &mut cur);
                out.push(w);
                proof { assert(views(out@) =~= before.push(cur0)); }
            }
            proof { assert(ws_words(t) == ws_words(b@.take(i as int))); }
        } else {
            cur.push(c);
            proof {
                if cur0.len() > 0 {
                    let w = before.push(cur0);
                    assert(ws_words(t) == w.update(w.len() - 1, w.last().push(c)));
                    assert(w.update(w.len() - 1, w.last().push(c)) =~= before.push(cur@));
                } else {
                    assert(ws_words(t) == before.push(seq![c]));
                    assert(cur@ =~= seq![c]);
                }
            }
        }
        i = i + 1;
    }
    proof { assert(b@.take(i as int) =~= b@); }
    if cur.len() > 0 {
        let ghost before = views(out@);
        out.push(cur);
        proof { assert(views(out@) =~= before.push(cur@)); }
    }
    out
}

fn bytes_split_method(b: &[u8], args: &[Value]) -> (r: EvalResult)
    ensures
        result_matches(r, spec_bytes_split(b@, args@)),
{
    let sep: Vec<u8> = match if args.len() > 0 { Some(&args[0]) } else { None } {
        Some(Value::Bytes(s)) => s.clone(),
        Some(_) => { return Err(type_error(str_to_string("split() argument must be bytes"))); },
        None => { return Ok(bytes_list_value(bytes_split_ws(b))); },
    };
    if sep.len() == 0 {
        return Err(value_error(str_to_string("empty separator")));
    }
    let parts = bytes_split_on(b, &sep);
    Ok(bytes_list_value(parts))
}

/// What `replace(old, new)` returns (a `count` argument is ignored).
pub open spec fn spec_bytes_replace(b: Seq<u8>, args: Seq<Value>) -> Result<PyVal, ErrSpec> {
    match arg_at(args, 0) {
        Some(Value::Bytes(needle)) => match arg_at(args, 1) {
            Some(Value::Bytes(repl)) => if needle@.len() == 0 {
                Ok(PyVal::Bytes(b))
            } else {
                Ok(PyVal::Bytes(replace_from(b, needle@, repl@, 0)))
            },
            _ => Err(ErrSpec::Type("replace() second argument must be bytes"@)),
        },
        _ => Err(ErrSpec::Type("replace() first argument must be bytes"@)),
    }
}

fn bytes_replace_method(b: &[u8], args: &[Value]) -> (r: EvalResult)
    ensures
        result_matches(r, spec_bytes_replace(b@, args@)),
{
    let needle = match if args.len() > 0 { Some(&args[0]) } else { None } {
        Some(Value::Bytes(n)) => n,
        _ => { return Err(type_error(str_to_string("replace() first argument must be bytes"))); },
    };
    let repl = match if args.len() > 1 { Some(&args[1]) } else { None } {
        Some(Value::Bytes(n)) => n,
        _ => { return Err(type_error(str_to_string("replace() second argument must be bytes"))); },
    };
    if needle.len() == 0 {
        assert(b@.subrange(0, b@.len() as int) =~= b@);
        return Ok(Value::Bytes(sub_bytes(b, 0, b.len())));
    }
    Ok(Value::Bytes(bytes_replace_all(b, needle, repl)))
}

/// What `count(sub[, start[, end]])` returns.
pub open spec fn spec_bytes_count(b: Seq<u8>, method: Seq<char>, args: Seq<Value>) -> Result<PyVal, ErrSpec> {
    match spec_search_args(b, method, args) {
        Err(es) => Err(es),
        Ok((needle, bs, be)) => int_result(spec_count(b.subrange(bs, be), needle) as int),
    }
}

fn bytes_count_method(b: &[u8], method: &str, args: &[Value]) -> (r: EvalResult)
    requires
        b@.len() < usize::MAX,
    ensures
        result_matches(r, spec_bytes_count(b@, method@, args@)),
{
    let (needle, bs, be) = match bytes_search_args(b, method, args) {
        Ok(t) => t,
        Err(e) => { return Err(e); },
    };
    let hay = sub_bytes(b, bs, be);
    usize_value(count_occurrences(&hay, &needle))
}

/// The optional byte set of `strip`, or its error.
pub open spec fn spec_strip_set(args: Seq<Value>) -> Result<Option<Seq<u8>>, ErrSpec> {
    match arg_at(args, 0) {
        None => Ok(None),
        Some(Value::PyNone) => Ok(None),
        Some(Value::Bytes(c)) => Ok(Some(c@)),
        Some(_) => Err(ErrSpec::Type(bytes_like_msg())),
    }
}

fn bytes_strip_method(b: &[u8], args: &[Value], left: bool, right: bool) -> (r: EvalResult)
    ensures
        result_matches(r, match spec_strip_set(args@) {
            Ok(set) => Ok(PyVal::Bytes(spec_strip(b@, set, left, right))),
            Err(es) => Err(es),
        }),
{
    let set: Option<Vec<u8>> = match if args.len() > 0 { Some(&args[0]) } else { None } {
        None => None,
        Some(Value::PyNone) => None,
        Some(Value::Bytes(c)) => Some(c.clone()),
        Some(_) => { return Err(type_error(str_to_string("a bytes-like object is required"))); },
    };
    Ok(Value::Bytes(bytes_strip(b, &set, left, right)))
}

fn bytes_remove_affix_method(b: &[u8], args: &[Value], is_start: bool) -> (r: EvalResult)
    ensures
        result_matches(r, match arg_at(args@, 0) {
            Some(Value::Bytes(p)) => Ok(PyVal::Bytes(spec_remove_affix(b@, p@, is_start))),
            _ => Err(ErrSpec::Type(bytes_like_msg())),
        }),
{
    match if args.len() > 0 { Some(&args[0]) } else { None } {
        Some(Value::Bytes(p)) => Ok(Value::Bytes(bytes_remove_affix(b, p, is_start))),
        _ => Err(type_error(str_to_string("a bytes-like object is required"))),
    }
}

/// The table of `translate`, or its error.
pub open spec fn spec_translate_table(args: Seq<Value>) -> Result<Option<Seq<u8>>, ErrSpec> {
    match arg_at(args, 0) {
        None => Ok(None),
        Some(Value::PyNone) => Ok(None),
        Some(Value::Bytes(t)) => if t@.len() == 256 { Ok(Some(t@)) } else { Err(ErrSpec::Value("translation table must be 256 bytes long"@)) },
        Some(Value::ByteArray(t)) => if t@.len() == 256 { Ok(Some(t@)) } else { Err(ErrSpec::Value("translation table must be 256 bytes long"@)) },
        Some(_) => Err(ErrSpec::Value("translation table must be 256 bytes long"@)),
    }
}

/// The bytes `translate` deletes (anything not bytes-like deletes none).
pub open spec fn spec_translate_delete(args: Seq<Value>) -> Seq<u8> {
    match arg_at(args, 1) {
        Some(Value::Bytes(d)) => d@,
        Some(Value::ByteArray(d)) => d@,
        _ => Seq::empty(),
    }
}

fn bytes_translate_method(b: &[u8], args: &[Value]) -> (r: EvalResult)
    ensures
        result_matches(r, match spec_translate_table(args@) {
            Ok(t) => Ok(PyVal::Bytes(translate_prefix(b@, t, spec_translate_delete(args@), b@.len() as int))),
            Err(es) => Err(es),
        }),
{
    let table: Option<Vec<u8>> = match if args.len() > 0 { Some(&args[0]) } else { None } {
        None => None,
        Some(Value::PyNone) => None,
        Some(Value::Bytes(t)) => if t.len() == 256 { Some(t.clone()) } else {
            return Err(value_error(str_to_string("translation table must be 256 bytes long")));
        },
        Some(Value::ByteArray(t)) => if t.len() == 256 { Some(t.clone()) } else {
            return Err(value_error(str_to_string("translation table must be 256 bytes long")));
        },
        Some(_) => { return Err(value_error(str_to_string("translation table must be 256 bytes long"))); },
    };
    let delete: Vec<u8> = match if args.len() > 1 { Some(&args[1]) } else { None } {
        Some(Value::Bytes(d)) => d.clone(),
        Some(Value::ByteArray(d)) => d.clone(),
        _ => Vec::new(),
    };
    Ok(Value::Bytes(bytes_translate(b, &table, &delete)))
}

fn bytes_partition_method(b: &[u8], args: &[Value], from_right: bool) -> (r: EvalResult)
    ensures
        result_matches(r, match arg_at(args@, 0) {
            Some(Value::Bytes(sep)) => if sep@.len() == 0 {
                Err(ErrSpec::Value("empty separator"@))
            } else {
                Ok(bytes_tuple(spec_partition(b@, sep@, from_right)))
            },
            _ => Err(ErrSpec::Type(bytes_like_msg())),
        }),
{
    match if args.len() > 0 { Some(&args[0]) } else { None } {
        Some(Value::Bytes(sep)) => {
            if sep.len() == 0 {
                return Err(value_error(str_to_string("empty separator")));
            }
            Ok(bytes_partition(b, sep, from_right))
        },
        _ => Err(type_error(str_to_string("a bytes-like object is required"))),
    }
}

/// A width argument: an `int` (negative counts as 0) or a `bool`.
pub open spec fn spec_width(arg: Option<Value>) -> Option<usize> {
    match arg {
        Some(Value::Int(n)) => Some((if n < 0 { 0 } else { n }) as usize),
        Some(Value::Bool(b)) => Some(if b { 1usize } else { 0usize }),
        _ => None,
    }
}

fn width_arg(arg: Option<&Value>) -> (r: Option<usize>)
    ensures
        r == spec_width(match arg { Some(v) => Some(*v), None => None }),
{
    match arg {
        Some(Value::Int(n)) => Some(#[verifier::truncate] ((if *n < 0 { 0 } else { *n }) as usize)),
        Some(Value::Bool(b)) => Some(if *b { 1 } else { 0 }),
        _ => None,
    }
}

/// The fill byte of `center`/`ljust`/`rjust`, defaulting to a space.
pub open spec fn spec_fill(arg: Option<Value>) -> Option<u8> {
    match arg {
        None => Some(32u8),
        Some(Value::Bytes(f)) => if f@.len() == 1 { Some(f@[0]) } else { None },
        Some(Value::ByteArray(f)) => if f@.len() == 1 { Some(f@[0]) } else { None },
        _ => None,
    }
}

/// What `center`/`ljust`/`rjust(width[, fillbyte])` return.
pub open spec fn spec_bytes_pad(b: Seq<u8>, method: Seq<char>, args: Seq<Value>, kind: PadKind) -> Result<PyVal, ErrSpec> {
    match spec_width(arg_at(args, 0)) {
        None => Err(ErrSpec::Type(method + "() takes an integer width"@)),
        Some(w) => match spec_fill(arg_at(args, 1)) {
            None => Err(ErrSpec::Type("fill byte must be a byte string of length 1"@)),
            Some(f) => Ok(PyVal::Bytes(spec_pad(b, w as int, f, kind))),
        },
    }
}

fn bytes_pad_method(b: &[u8], method: &str, args: &[Value], kind: PadKind) -> (r: EvalResult)
    ensures
        result_matches(r, spec_bytes_pad(b@, method@, args@, kind)),
{
    let width = match width_arg(if args.len() > 0 { Some(&args[0]) } else { None }) {
        Some(w) => w,
        None => { return Err(type_error(concat_str(method, "() takes an integer width"))); },
    };
    let fill: u8 = match if args.len() > 1 { Some(&args[1]) } else { None } {
        None => 32u8,
        Some(Value::Bytes(f)) => if f.len() == 1 { f[0] } else {
            return Err(type_error(str_to_string("fill byte must be a byte string of length 1")));
        },
        Some(Value::ByteArray(f)) => if f.len() == 1 { f[0] } else {
            return Err(type_error(str_to_string("fill byte must be a byte string of length 1")));
        },
        _ => { return Err(type_error(str_to_string("fill byte must be a byte string of length 1"))); },
    };
    Ok(Value::Bytes(bytes_pad(b, width, fill, kind)))
}

fn bytes_zfill_method(b: &[u8], args: &[Value]) -> (r: EvalResult)
    ensures
        result_matches(r, match spec_width(arg_at(args@, 0)) {
            None => Err(ErrSpec::Type("zfill() takes an integer width"@)),
            Some(w) => Ok(PyVal::Bytes(spec_zfill(b@, w as int))),
        }),
{
    match width_arg(if args.len() > 0 { Some(&args[0]) } else { None }) {
        Some(w) => Ok(Value::Bytes(bytes_zfill(b, w))),
        None => Err(type_error(str_to_string("zfill() takes an integer width"))),
    }
}

fn bytes_splitlines_method(b: &[u8], args: &[Value]) -> (r: EvalResult)
    ensures
        result_matches(r, Ok(bytes_list(lines_from(b@, 0, 0, match arg_at(args@, 0) {
            Some(v) => crate::value::spec_truthy(v@),
            None => false,
        })))),
{
    let keep = if args.len() > 0 { args[0].is_truthy() } else { false };
    Ok(bytes_list_value(bytes_splitlines(b, keep)))
}

/// The message for a method that `bytes` does not have.
pub open spec fn no_attr_msg(class_name: Seq<char>, method: Seq<char>) -> Seq<char> {
    "'"@ + class_name + "' object has no attribute '"@ + method + "'"@
}

/// What each `bytes` method returns on `b`, given the positional arguments.
pub open spec fn spec_bytes_method(b: Seq<u8>, method: Seq<char>, args: Seq<Value>) -> Result<PyVal, ErrSpec> {
    if method == "decode"@ { spec_bytes_decode(b, args) }
    else if method == "hex"@ { spec_bytes_hex(b, args) }
    else if method == "startswith"@ { spec_bytes_affix(b, method, args, true) }
    else if method == "endswith"@ { spec_bytes_affix(b, method, args, false) }
    else if method == "split"@ { spec_bytes_split(b, args) }
    else if method == "replace"@ { spec_bytes_replace(b, args) }
    else if method == "find"@ { spec_bytes_search(b, method, args, false, false) }
    else if method == "rfind"@ { spec_bytes_search(b, method, args, true, false) }
    else if method == "index"@ { spec_bytes_search(b, method, args, false, true) }
    else if method == "rindex"@ { spec_bytes_search(b, method, args, true, true) }
    else if method == "count"@ { spec_bytes_count(b, method, args) }
    else if method == "upper"@ { Ok(PyVal::Bytes(spec_case_map(b, CaseOp::Upper))) }
    else if method == "lower"@ { Ok(PyVal::Bytes(spec_case_map(b, CaseOp::Lower))) }
    else if method == "swapcase"@ { Ok(PyVal::Bytes(spec_case_map(b, CaseOp::Swap))) }
    else if method == "capitalize"@ { Ok(PyVal::Bytes(spec_case_map(b, CaseOp::Capitalize))) }
    else if method == "title"@ { Ok(PyVal::Bytes(spec_case_map(b, CaseOp::Title))) }
    else if method == "isdigit"@ { Ok(PyVal::Bool(spec_class(b, ClassOp::Digit))) }
    else if method == "isalpha"@ { Ok(PyVal::Bool(spec_class(b, ClassOp::Alpha))) }
    else if method == "isalnum"@ { Ok(PyVal::Bool(spec_class(b, ClassOp::Alnum))) }
    else if method == "isspace"@ { Ok(PyVal::Bool(spec_class(b, ClassOp::Space))) }
    else if method == "isupper"@ { Ok(PyVal::Bool(spec_class(b, ClassOp::Upper))) }
    else if method == "islower"@ { Ok(PyVal::Bool(spec_class(b, ClassOp::Lower))) }
    else if method == "strip"@ || method == "lstrip"@ || method == "rstrip"@ {
        match spec_strip_set(args) {
            Ok(set) => Ok(PyVal::Bytes(spec_strip(b, set, method != "rstrip"@, method != "lstrip"@))),
            Err(es) => Err(es),
        }
    }
    else if method == "join"@ { spec_bytes_join(b, args) }
    else if method == "removeprefix"@ || method == "removesuffix"@ {
        match arg_at(args, 0) {
            Some(Value::Bytes(p)) => Ok(PyVal::Bytes(spec_remove_affix(b, p@, method == "removeprefix"@))),
            _ => Err(ErrSpec::Type(bytes_like_msg())),
        }
    }
    else if method == "translate"@ {
        match spec_translate_table(args) {
            Ok(t) => Ok(PyVal::Bytes(translate_prefix(b, t, spec_translate_delete(args), b.len() as int))),
            Err(es) => Err(es),
        }
    }
    else if method == "partition"@ || method == "rpartition"@ {
        match arg_at(args, 0) {
            Some(Value::Bytes(sep)) => if sep@.len() == 0 {
                Err(ErrSpec::Value("empty separator"@))
            } else {
                Ok(bytes_tuple(spec_partition(b, sep@, method == "rpartition"@)))
            },
            _ => Err(ErrSpec::Type(bytes_like_msg())),
        }
    }
    else if method == "center"@ { spec_bytes_pad(b, method, args, PadKind::Center) }
    else if method == "ljust"@ { spec_bytes_pad(b, method, args, PadKind::Left) }
    else if method == "rjust"@ { spec_bytes_pad(b, method, args, PadKind::Right) }
    else if method == "zfill"@ {
        match spec_width(arg_at(args, 0)) {
            None => Err(ErrSpec::Type("zfill() takes an integer width"@)),
            Some(w) => Ok(PyVal::Bytes(spec_zfill(b, w as int))),
        }
    }
    else if method == "splitlines"@ {
        Ok(bytes_list(lines_from(b, 0, 0, match arg_at(args, 0) {
            Some(v) => crate::value::spec_truthy(v@),
            None => false,
        })))
    }
    else { Err(ErrSpec::Attribute(no_attr_msg("bytes"@, method))) }
}

/// What a call of a `bytes` method returns, keyword arguments included
/// (every `bytes` method here is positional-only).
pub open spec fn spec_dispatch_bytes(b: Seq<u8>, method: Seq<char>, args: Seq<Value>, kws: Seq<(Seq<char>, Value)>) -> Result<PyVal, ErrSpec> {
    if kws.len() > 0 {
        Err(ErrSpec::Type(unexpected_kwarg_msg(method, kws[0].0)))
    } else {
        spec_bytes_method(b, method, args)
    }
}

/// `'{type}' object has no attribute '{method}'`.
pub fn no_attribute(class_name: &str, method: &str) -> (e: EvalError)
    ensures
        err_matches(e, ErrSpec::Attribute(no_attr_msg(class_name@, method@))),
{
    let s1 = concat_str("'", class_name);
    let s2 = s1.concat("' object has no attribute '");
    let s3 = s2.concat(method);
    let s4 = s3.concat("'");
    assert(s4@ =~= no_attr_msg(class_name@, method@));
    attribute_error(s4)
}

/// Dispatch a method call on a `bytes` receiver: decoding, hex, search,
/// affix tests, splitting, replacing, joining, ASCII case and classes,
/// stripping, translation, partitioning, padding and line splitting.
#[verifier::rlimit(60)]
pub fn dispatch_bytes_method(b: &[u8], method: &str, args: &[Value], kwargs: &IndexMap<String, Value>) -> (r: EvalResult)
    requires
        b@.len() < usize::MAX,
    ensures
        result_matches(r, spec_dispatch_bytes(b@, method@, args@, kwarg_entries(*kwargs))),
{
    match reject_kwargs(method, kwargs) {
        Ok(()) => {},
        Err(e) => { return Err(e); },
    }
    let m = method;
    if str_eq(m, "decode") { bytes_decode(b, args) }
    else if str_eq(m, "hex") { bytes_to_hex(b, args) }
    else if str_eq(m, "startswith") { bytes_affix(b, method, args, true) }
    else if str_eq(m, "endswith") { bytes_affix(b, method, args, false) }
    else if str_eq(m, "split") { bytes_split_method(b, args) }
    else if str_eq(m, "replace") { bytes_replace_method(b, args) }
    else if str_eq(m, "find") { bytes_search(b, method, args, false, false) }
    else if str_eq(m, "rfind") { bytes_search(b, method, args, true, false) }
    else if str_eq(m, "index") { bytes_search(b, method, args, false, true) }
    else if str_eq(m, "rindex") { bytes_search(b, method, args, true, true) }
    else if str_eq(m, "count") { bytes_count_method(b, method, args) }
    else if str_eq(m, "upper") { Ok(Value::Bytes(bytes_case_map(b, CaseOp::Upper))) }
    else if str_eq(m, "lower") { Ok(Value::Bytes(bytes_case_map(b, CaseOp::Lower))) }
    else if str_eq(m, "swapcase") { Ok(Value::Bytes(bytes_case_map(b, CaseOp::Swap))) }
    else if str_eq(m, "capitalize") { Ok(Value::Bytes(bytes_case_map(b, CaseOp::Capitalize))) }
    else if str_eq(m, "title") { Ok(Value::Bytes(bytes_case_map(b, CaseOp::Title))) }
    else if str_eq(m, "isdigit") { Ok(Value::Bool(bytes_class(b, ClassOp::Digit))) }
    else if str_eq(m, "isalpha") { Ok(Value::Bool(bytes_class(b, ClassOp::Alpha))) }
    else if str_eq(m, "isalnum") { Ok(Value::Bool(bytes_class(b, ClassOp::Alnum))) }
    else if str_eq(m, "isspace") { Ok(Value::Bool(bytes_class(b, ClassOp::Space))) }
    else if str_eq(m, "isupper") { Ok(Value::Bool(bytes_class(b, ClassOp::Upper))) }
    else if str_eq(m, "islower") { Ok(Value::Bool(bytes_class(b, ClassOp::Lower))) }
    else if str_eq(m, "strip") || str_eq(m, "lstrip") || str_eq(m, "rstrip") {
        bytes_strip_method(b, args, !str_eq(m, "rstrip"), !str_eq(m, "lstrip"))
    }
    else if str_eq(m, "join") { bytes_join(b, args) }
    else if str_eq(m, "removeprefix") || str_eq(m, "removesuffix") {
        bytes_remove_affix_method(b, args, str_eq(m, "removeprefix"))
    }
    else if str_eq(m, "translate") { bytes_translate_method(b, args) }
    else if str_eq(m, "partition") || str_eq(m, "rpartition") {
        bytes_partition_method(b, args, str_eq(m, "rpartition"))
    }
    else if str_eq(m, "center") { bytes_pad_method(b, method, args, PadKind::Center) }
    else if str_eq(m, "ljust") { bytes_pad_method(b, method, args, PadKind::Left) }
    else if str_eq(m, "rjust") { bytes_pad_method(b, method, args, PadKind::Right) }
    else if str_eq(m, "zfill") { bytes_zfill_method(b, args) }
    else if str_eq(m, "splitlines") { bytes_splitlines_method(b, args) }
    else { Err(no_attribute("bytes", method)) }
}


// ---------------------------------------------------------------------------
// `bytearray` and `memoryview`
// ---------------------------------------------------------------------------

/// A `bytes` result of a shared method as the `bytearray` a `bytearray`
/// method returns (the pieces of a list too).
pub open spec fn rewrap_view(v: PyVal) -> PyVal {
    match v {
        PyVal::Bytes(b) => PyVal::ByteArray(b),
        PyVal::List(items) => PyVal::List(Seq::new(items.len(), |i: int| match items[i] {
            PyVal::Bytes(b) => PyVal::ByteArray(b),
            other => other,
        })),
        other => other,
    }
}

/// Convert a `bytes`-returning result into a `bytearray` (recursively for
/// a list of pieces).
pub fn rewrap_bytes_as_bytearray(value: Value) -> (r: Value)
    ensures
        r@ == rewrap_view(value@),
{
    match value {
        Value::Bytes(b) => Value::ByteArray(b),
        Value::List(items) => {
            proof { lemma_view_items(items@); }
            let mut out: Vec<Value> = Vec::new();
            let mut i: usize = 0;
            while i < items.len()
                invariant
                    i <= items@.len(),
                    view_items(items@).len() == items@.len(),
                    forall|j: int| 0 <= j < items@.len() ==> view_items(items@)[j] == view_value(#[trigger] items@[j]),
                    view_items(out@) == Seq::new(i as nat, |j: int| match view_items(items@)[j] {
                        PyVal::Bytes(b) => PyVal::ByteArray(b),
                        other => other,
                    }),
                decreases items.len() - i,
            {
                let item = match &items[i] {
                    Value::Bytes(b) => Value::ByteArray(b.clone()),
                    other => other.deep_copy(),
                };
                proof { crate::value::lemma_view_items_push(out@, item); }
                out.push(item);
                i = i + 1;
                assert(view_items(out@) =~= Seq::new(i as nat, |j: int| match view_items(items@)[j] {
                    PyVal::Bytes(b) => PyVal::ByteArray(b),
                    other => other,
                }));
            }
            Value::List(out)
        },
        other => other,
    }
}

/// A single byte argument: an `int` in `range(0, 256)` or a `bool`.
pub open spec fn spec_byte_arg(v: Value) -> Result<u8, ErrSpec> {
    match v {
        Value::Int(n) => if 0 <= n <= 255 { Ok(n as u8) } else { Err(ErrSpec::Value("byte must be in range(0, 256)"@)) },
        Value::Bool(b) => Ok(if b { 1u8 } else { 0u8 }),
        _ => Err(ErrSpec::Type(crate::numeric::not_integer_msg(v))),
    }
}

fn byte_arg(v: &Value) -> (r: Result<u8, EvalError>)
    ensures
        match spec_byte_arg(*v) {
            Ok(x) => r == Ok::<u8, EvalError>(x),
            Err(es) => r matches Err(e) && err_matches(e, es),
        },
{
    match v {
        Value::Int(n) => if 0 <= *n && *n <= 255 { Ok(*n as u8) } else {
            Err(value_error(str_to_string("byte must be in range(0, 256)")))
        },
        Value::Bool(b) => Ok(if *b { 1 } else { 0 }),
        _ => Err(crate::numeric::not_integer(v)),
    }
}

/// The index of `bytearray.insert`: negative counts from the end; both ends
/// clamp into `[0, len]`.
pub open spec fn insert_index(raw: int, len: int) -> int {
    if raw < 0 { if len + raw < 0 { 0 } else { len + raw } } else if raw > len { len } else { raw }
}

/// The first position of `x` in `b`, or -1.
pub open spec fn byte_position(b: Seq<u8>, x: u8) -> int {
    find_from(b, seq![x], 0)
}

/// What a `bytearray` method does: its return value, its size change and the
/// new contents; or its error, the contents left unchanged.
pub open spec fn spec_bytearray_method(b: Seq<u8>, method: Seq<char>, args: Seq<Value>, kws: Seq<(Seq<char>, Value)>) -> Result<(PyVal, int, Seq<u8>), ErrSpec> {
    if method == "append"@ {
        match arg_at(args, 0) {
            None => Err(ErrSpec::Type("append() takes one argument"@)),
            Some(v) => match spec_byte_arg(v) {
                Err(es) => Err(es),
                Ok(x) => Ok((PyVal::PyNone, 1, b.push(x))),
            },
        }
    } else if method == "extend"@ {
        match arg_at(args, 0) {
            None => Err(ErrSpec::Type("extend() takes one argument"@)),
            Some(Value::Bytes(x)) => Ok((PyVal::PyNone, saturating_isize(x@.len() as int), b + x@)),
            Some(Value::ByteArray(x)) => Ok((PyVal::PyNone, saturating_isize(x@.len() as int), b + x@)),
            Some(other) => Err(ErrSpec::Type("can't extend/concat bytearray with '"@ + spec_py_type_name(other) + "'"@)),
        }
    } else if method == "insert"@ {
        if args.len() != 2 {
            Err(ErrSpec::Type("insert() takes exactly two arguments"@))
        } else {
            match spec_byte_arg(args[1]) {
                Err(es) => Err(es),
                Ok(x) => match spec_int_of(args[0]) {
                    None => Err(ErrSpec::Type("an integer is required for the index"@)),
                    Some(raw) => Ok((PyVal::PyNone, 1, b.insert(insert_index(raw, b.len() as int), x))),
                },
            }
        }
    } else if method == "remove"@ {
        match arg_at(args, 0) {
            None => Err(ErrSpec::Type("remove() takes one argument"@)),
            Some(v) => match spec_byte_arg(v) {
                Err(es) => Err(es),
                Ok(x) => if byte_position(b, x) >= 0 {
                    Ok((PyVal::PyNone, -1, b.remove(byte_position(b, x))))
                } else {
                    Err(ErrSpec::Exc("ValueError"@, "value not found"@))
                },
            },
        }
    } else if method == "pop"@ {
        if b.len() == 0 {
            Err(ErrSpec::Exc("IndexError"@, "pop from empty bytearray"@))
        } else {
            let raw: Option<int> = match arg_at(args, 0) {
                None => Some(b.len() - 1),
                Some(v) => spec_int_of(v),
            };
            match raw {
                None => Err(ErrSpec::Type("an integer is required"@)),
                Some(r) => {
                    let idx = if r < 0 { b.len() + r } else { r };
                    if idx < 0 || idx >= b.len() {
                        Err(ErrSpec::Exc("IndexError"@, "bytearray index out of range"@))
                    } else {
                        Ok((PyVal::Int(b[idx] as int), -1, b.remove(idx)))
                    }
                },
            }
        }
    } else if method == "clear"@ {
        Ok((PyVal::PyNone, -saturating_isize(b.len() as int), Seq::empty()))
    } else if method == "reverse"@ {
        Ok((PyVal::PyNone, 0, b.reverse()))
    } else if method == "copy"@ {
        Ok((PyVal::ByteArray(b), 0, b))
    } else {
        match spec_dispatch_bytes(b, method, args, kws) {
            Ok(v) => Ok((rewrap_view(v), 0, b)),
            Err(es) => Err(es),
        }
    }
}

/// Dispatch a method call on a `bytearray` receiver. Mutating methods act on
/// the buffer in place; the read methods run the `bytes` table on a snapshot
/// and return `bytearray` where that returns `bytes`.
#[verifier::rlimit(60)]
pub fn dispatch_bytearray_method(ba: &mut Vec<u8>, method: &str, args: &[Value], kwargs: &IndexMap<String, Value>) -> (r: Result<MethodOutcome, EvalError>)
    requires
        old(ba)@.len() < usize::MAX - 1,
    ensures
        match spec_bytearray_method(old(ba)@, method@, args@, kwarg_entries(*kwargs)) {
            Ok((v, d, nb)) => r matches Ok(o) && o.value@ == v && o.mem_delta == d && final(ba)@ == nb,
            Err(es) => r matches Err(e) && err_matches(e, es) && final(ba)@ == old(ba)@,
        },
{
    if str_eq(method, "append") {
        if args.len() == 0 {
            return Err(type_error(str_to_string("append() takes one argument")));
        }
        let byte = match byte_arg(&args[0]) { Ok(x) => x, Err(e) => { return Err(e); } };
        ba.push(byte);
        Ok(MethodOutcome::grew(Value::PyNone, 1))
    } else if str_eq(method, "extend") {
        if args.len() == 0 {
            return Err(type_error(str_to_string("extend() takes one argument")));
        }
        let extra: Vec<u8> = match &args[0] {
            Value::Bytes(x) => x.clone(),
            Value::ByteArray(x) => x.clone(),
            other => {
                let s1 = concat_str("can't extend/concat bytearray with '", other.py_type_name());
                let s2 = s1.concat("'");
                return Err(type_error(s2));
            },
        };
        let n = extra.len();
        extend_bytes(ba, &extra);
        Ok(MethodOutcome::grew(Value::PyNone, n))
    } else if str_eq(method, "insert") {
        if args.len() != 2 {
            return Err(type_error(str_to_string("insert() takes exactly two arguments")));
        }
        let byte = match byte_arg(&args[1]) { Ok(x) => x, Err(e) => { return Err(e); } };
        let raw: i64 = match &args[0] {
            Value::Int(n) => *n,
            Value::Bool(x) => if *x { 1 } else { 0 },
            _ => { return Err(type_error(str_to_string("an integer is required for the index"))); },
        };
        let len = ba.len();
        let idx: usize = if raw < 0 {
            let k = crate::numeric::magnitude(raw);
            if k as u128 >= len as u128 { 0 } else { len - (k as usize) }
        } else if raw as u128 > len as u128 { len } else { raw as usize };
        assert(idx == insert_index(raw as int, len as int));
        ba.insert(idx, byte);
        Ok(MethodOutcome::grew(Value::PyNone, 1))
    } else if str_eq(method, "remove") {
        if args.len() == 0 {
            return Err(type_error(str_to_string("remove() takes one argument")));
        }
        let byte = match byte_arg(&args[0]) { Ok(x) => x, Err(e) => { return Err(e); } };
        let mut one: Vec<u8> = Vec::new();
        one.push(byte);
        let n = ba.len();
        proof { lemma_find_from_bounds(ba@.subrange(0, n as int), one@, 0); }
        match find_in_window(ba, &one, 0, n) {
            Some(pos) => {
                assert(ba@.subrange(0, n as int) =~= ba@);
                ba.remove(pos);
                Ok(MethodOutcome::shrank(Value::PyNone, 1))
            },
            None => {
                assert(ba@.subrange(0, n as int) =~= ba@);
                Err(exception("ValueError", str_to_string("value not found")))
            },
        }
    } else if str_eq(method, "pop") {
        if ba.len() == 0 {
            return Err(exception("IndexError", str_to_string("pop from empty bytearray")));
        }
        let len = ba.len();
        let raw: Option<i64> = match if args.len() > 0 { Some(&args[0]) } else { None } {
            None => None,
            Some(Value::Int(n)) => Some(*n),
            Some(Value::Bool(x)) => Some(if *x { 1 } else { 0 }),
            Some(_) => { return Err(type_error(str_to_string("an integer is required"))); },
        };
        let idx: Option<usize> = match raw {
            None => Some(len - 1),
            Some(r) => if r < 0 {
                let k = crate::numeric::magnitude(r);
                if k as u128 > len as u128 { None } else { Some(len - (k as usize)) }
            } else if r as u128 >= len as u128 { None } else { Some(r as usize) },
        };
        let idx = match idx {
            Some(i) => i,
            None => { return Err(exception("IndexError", str_to_string("bytearray index out of range"))); },
        };
        if idx >= len {
            return Err(exception("IndexError", str_to_string("bytearray index out of range")));
        }
        let removed = ba.remove(idx);
        Ok(MethodOutcome::shrank(Value::Int(removed as i64), 1))
    } else if str_eq(method, "clear") {
        let freed = ba.len();
        ba.clear();
        Ok(MethodOutcome::shrank(Value::PyNone, freed))
    } else if str_eq(method, "reverse") {
        let n = ba.len();
        let mut i: usize = 0;
        let ghost orig = ba@;
        while i < n / 2
            invariant
                n == orig.len(),
                ba@.len() == n,
                i <= n / 2,
                forall|j: int| 0 <= j < i ==> #[trigger] ba@[j] == orig[n - 1 - j],
                forall|j: int| 0 <= j < i ==> #[trigger] ba@[n - 1 - j] == orig[j],
                forall|j: int| i <= j < n - i ==> ba@[j] == orig[j],
            decreases n / 2 - i,
        {
            let x = ba[i];
            let y = ba[n - 1 - i];
            ba.set(i, y);
            ba.set(n - 1 - i, x);
            i = i + 1;
        }
        assert forall|j: int| 0 <= j < n implies ba@[j] == orig.reverse()[j] by {
            if j < i {
            } else if j >= n - i {
                let k = n - 1 - j;
                assert(ba@[n - 1 - k] == orig[k]);
            }
        }
        assert(ba@ =~= orig.reverse());
        Ok(MethodOutcome::pure(Value::PyNone))
    } else if str_eq(method, "copy") {
        Ok(MethodOutcome::pure(Value::ByteArray(ba.clone())))
    } else {
        let snapshot = ba.clone();
        match dispatch_bytes_method(&snapshot, method, args, kwargs) {
            Ok(v) => Ok(MethodOutcome::pure(rewrap_bytes_as_bytearray(v))),
            Err(e) => Err(e),
        }
    }
}

/// What a `memoryview` method returns on the buffer's current bytes.
pub open spec fn spec_memoryview_method(raw: Seq<u8>, method: Seq<char>) -> Result<PyVal, ErrSpec> {
    if method == "tobytes"@ {
        Ok(PyVal::Bytes(raw))
    } else if method == "tolist"@ {
        Ok(PyVal::List(crate::value::byte_ints(raw)))
    } else if method == "hex"@ {
        Ok(PyVal::Str(hex_prefix(raw, ' ', 0, false, raw.len() as int)))
    } else {
        Err(ErrSpec::Attribute(no_attr_msg("memoryview"@, method)))
    }
}

/// Dispatch a method on a `memoryview`: `tobytes`, `tolist`, `hex`.
pub fn dispatch_memoryview_method(raw: &[u8], method: &str) -> (r: EvalResult)
    ensures
        result_matches(r, spec_memoryview_method(raw@, method@)),
{
    if str_eq(method, "tobytes") {
        assert(raw@.subrange(0, raw@.len() as int) =~= raw@);
        Ok(Value::Bytes(sub_bytes(raw, 0, raw.len())))
    } else if str_eq(method, "tolist") {
        let v = sub_bytes(raw, 0, raw.len());
        assert(v@ =~= raw@);
        Ok(Value::List(crate::value::byte_int_values(&v)))
    } else if str_eq(method, "hex") {
        let none: Vec<Value> = Vec::new();
        let r = bytes_to_hex(raw, none.as_slice());
        assert(none@ =~= Seq::<Value>::empty());
        r
    } else {
        Err(no_attribute("memoryview", method))
    }
}

// ---------------------------------------------------------------------------
// Laws
// ---------------------------------------------------------------------------

proof fn lemma_hex_prefix_plain(raw: Seq<u8>, k: int)
    requires
        0 <= k <= raw.len(),
    ensures
        hex_prefix(raw, ' ', 0, false, k).len() == 2 * k,
        forall|j: int| 0 <= j < k ==> #[trigger] hex_prefix(raw, ' ', 0, false, k)[2 * j] == digit_char((raw[j] / 16) as nat)
            && hex_prefix(raw, ' ', 0, false, k)[2 * j + 1] == digit_char((raw[j] % 16) as nat),
    decreases k,
{
    if k > 0 {
        lemma_hex_prefix_plain(raw, k - 1);
        let prev = hex_prefix(raw, ' ', 0, false, k - 1);
        let cur = hex_prefix(raw, ' ', 0, false, k);
        assert(cur =~= prev + hex2(raw[k - 1]));
        assert forall|j: int| 0 <= j < k implies #[trigger] cur[2 * j] == digit_char((raw[j] / 16) as nat)
            && cur[2 * j + 1] == digit_char((raw[j] % 16) as nat) by {
            if j < k - 1 {
                assert(cur[2 * j] == prev[2 * j]);
                assert(cur[2 * j + 1] == prev[2 * j + 1]);
            }
        }
    }
}

proof fn lemma_digit_char_hex(d: nat)
    requires
        d < 16,
    ensures
        !is_ascii_ws_char(digit_char(d)),
        '\0' <= digit_char(d) <= '\u{7f}',
        hex_value(digit_char(d) as u8) == Some(d as u8),
{
}

proof fn lemma_filter_keeps_all(s: Seq<char>)
    requires
        forall|i: int| 0 <= i < s.len() ==> !is_ascii_ws_char(#[trigger] s[i]),
    ensures
        without_ascii_ws(s) == s,
    decreases s.len(),
{
    reveal(Seq::filter);
    if s.len() > 0 {
        lemma_filter_keeps_all(s.drop_last());
        assert(s.drop_last().push(s.last()) =~= s);
    }
}

proof fn lemma_hex_pairs_decode(raw: Seq<u8>, bytes: Seq<u8>, j: int)
    requires
        0 <= j <= raw.len(),
        bytes.len() == 2 * raw.len(),
        forall|k: int| 0 <= k < raw.len() ==> #[trigger] bytes[2 * k] == digit_char((raw[k] / 16) as nat) as u8
            && bytes[2 * k + 1] == digit_char((raw[k] % 16) as nat) as u8,
    ensures
        hex_pairs_from(bytes, j) == Ok::<Seq<u8>, ErrSpec>(raw.subrange(j, raw.len() as int)),
    decreases raw.len() - j,
{
    if j < raw.len() {
        lemma_hex_pairs_decode(raw, bytes, j + 1);
        assert(bytes[2 * j] == digit_char((raw[j] / 16) as nat) as u8);
        lemma_digit_char_hex((raw[j] / 16) as nat);
        lemma_digit_char_hex((raw[j] % 16) as nat);
        assert(((raw[j] / 16) as u8 * 16 + (raw[j] % 16) as u8) as u8 == raw[j]);
        assert(seq![raw[j]] + raw.subrange(j + 1, raw.len() as int) =~= raw.subrange(j, raw.len() as int));
    } else {
        assert(raw.subrange(j, raw.len() as int) =~= Seq::<u8>::empty());
    }
}

/// The hex text of `raw` has two characters per byte, all ASCII and none
/// of them whitespace.
proof fn lemma_hex_text_ascii(raw: Seq<u8>, s: String)
    requires
        spec_bytes_hex(raw, Seq::empty()) == Ok::<PyVal, ErrSpec>(PyVal::Str(s@)),
    ensures
        s@.len() == 2 * raw.len(),
        forall|i: int| 0 <= i < s@.len() ==> !is_ascii_ws_char(#[trigger] s@[i]) && '\0' <= s@[i] <= '\u{7f}',
        forall|k: int| 0 <= k < raw.len() ==> #[trigger] s@[2 * k] == digit_char((raw[k] / 16) as nat)
            && s@[2 * k + 1] == digit_char((raw[k] % 16) as nat),
{
    let n = raw.len() as int;
    let h = s@;
    assert(h == hex_prefix(raw, ' ', 0, false, n));
    lemma_hex_prefix_plain(raw, n);
    assert forall|i: int| 0 <= i < h.len() implies !is_ascii_ws_char(#[trigger] h[i]) && '\0' <= h[i] <= '\u{7f}' by {
        let j = i / 2;
        assert(0 <= j < n);
        if i % 2 == 0 {
            assert(i == 2 * j);
            assert(hex_prefix(raw, ' ', 0, false, n)[2 * j] == digit_char((raw[j] / 16) as nat));
            lemma_digit_char_hex((raw[j] / 16) as nat);
        } else {
            assert(i == 2 * j + 1);
            assert(hex_prefix(raw, ' ', 0, false, n)[2 * j] == digit_char((raw[j] / 16) as nat));
            lemma_digit_char_hex((raw[j] % 16) as nat);
        }
    }
}

/// Rendering bytes as hex and parsing the hex back gives the same bytes.
#[verifier::rlimit(40)]
pub proof fn law_hex_then_fromhex(raw: Seq<u8>, s: String)
    requires
        spec_bytes_hex(raw, Seq::empty()) == Ok::<PyVal, ErrSpec>(PyVal::Str(s@)),
    ensures
        spec_bytes_fromhex(seq![Value::String(s)]) == Ok::<PyVal, ErrSpec>(PyVal::Bytes(raw)),
{
    let n = raw.len() as int;
    let h = s@;
    lemma_hex_text_ascii(raw, s);
    lemma_filter_keeps_all(h);
    vstd::utf8::is_ascii_chars_encode_utf8(h);
    let bytes = vstd::utf8::encode_utf8(h);
    assert forall|k: int| 0 <= k < raw.len() implies #[trigger] bytes[2 * k] == digit_char((raw[k] / 16) as nat) as u8
        && bytes[2 * k + 1] == digit_char((raw[k] % 16) as nat) as u8 by {
        assert(h[2 * k] as u8 == bytes[2 * k]);
        assert(h[2 * k + 1] as u8 == bytes[2 * k + 1]);
    }
    assert(bytes.len() == 2 * raw.len());
    assert(bytes.len() % 2 == 0);
    lemma_hex_pairs_decode(raw, bytes, 0);
    assert(raw.subrange(0, n) =~= raw);
}

/// `c` is `d`, or `d` is a lower-case ASCII letter and `c` its capital.
pub open spec fn same_or_capital(c: char, d: char) -> bool {
    c == d || ('a' <= d <= 'z' && c as u32 + 32 == d as u32)
}

/// Byte sequences whose bytes have the same hex values decode alike from
/// pair `j` on, where the second decodes at all.
proof fn lemma_hex_pairs_same_values(a: Seq<u8>, b: Seq<u8>, j: int)
    requires
        0 <= j,
        a.len() == b.len(),
        forall|i: int| 0 <= i < a.len() ==> hex_value(#[trigger] a[i]) == hex_value(b[i]),
        hex_pairs_from(b, j) is Ok,
    ensures
        hex_pairs_from(a, j) == hex_pairs_from(b, j),
    decreases b.len() - 2 * j,
{
    if 2 * j + 1 < b.len() {
        assert(hex_value(a[2 * j]) == hex_value(b[2 * j]));
        assert(hex_value(a[2 * j + 1]) == hex_value(b[2 * j + 1]));
        lemma_hex_pairs_same_values(a, b, j + 1);
    }
}

proof fn lemma_capital_hex_value(c: char, d: char)
    requires
        same_or_capital(c, d),
        '\0' <= d <= '\u{7f}',
    ensures
        '\0' <= c <= '\u{7f}',
        hex_value(c as u8) == hex_value(d as u8),
{
}

/// Capitalising letters of an ASCII text that decodes as hex pairs leaves
/// what it decodes to unchanged.
proof fn lemma_capitalised_hex_decodes(a: Seq<char>, h: Seq<char>)
    requires
        a.len() == h.len(),
        vstd::utf8::is_ascii_chars(h),
        forall|i: int| 0 <= i < h.len() ==> same_or_capital(#[trigger] a[i], h[i]),
        hex_pairs_from(vstd::utf8::encode_utf8(h), 0) is Ok,
    ensures
        vstd::utf8::encode_utf8(a).len() == vstd::utf8::encode_utf8(h).len(),
        hex_pairs_from(vstd::utf8::encode_utf8(a), 0) == hex_pairs_from(vstd::utf8::encode_utf8(h), 0),
{
    assert forall|i: int| 0 <= i < a.len() implies '\0' <= #[trigger] a[i] <= '\u{7f}' by {
        lemma_capital_hex_value(a[i], h[i]);
    }
    vstd::utf8::is_ascii_chars_encode_utf8(h);
    vstd::utf8::is_ascii_chars_encode_utf8(a);
    let bh = vstd::utf8::encode_utf8(h);
    let ba = vstd::utf8::encode_utf8(a);
    assert forall|i: int| 0 <= i < ba.len() implies hex_value(#[trigger] ba[i]) == hex_value(bh[i]) by {
        assert(a[i] as u8 == ba[i]);
        assert(h[i] as u8 == bh[i]);
        lemma_capital_hex_value(a[i], h[i]);
    }
    lemma_hex_pairs_same_values(ba, bh, 0);
}

/// `fromhex` ignores letter case and ASCII whitespace: the hex text of `raw`
/// with any of its letters capitalised, and whitespace put anywhere in it,
/// parses back to `raw`.
pub proof fn law_fromhex_ignores_case_and_whitespace(raw: Seq<u8>, s: String, t: String)
    requires
        spec_bytes_hex(raw, Seq::empty()) == Ok::<PyVal, ErrSpec>(PyVal::Str(s@)),
        without_ascii_ws(t@).len() == s@.len(),
        forall|i: int| 0 <= i < s@.len() ==> same_or_capital(#[trigger] without_ascii_ws(t@)[i], s@[i]),
    ensures
        spec_bytes_fromhex(seq![Value::String(t)]) == Ok::<PyVal, ErrSpec>(PyVal::Bytes(raw)),
{
    let h = s@;
    let a = without_ascii_ws(t@);
    law_hex_then_fromhex(raw, s);
    lemma_hex_text_ascii(raw, s);
    lemma_filter_keeps_all(h);
    assert(arg_at(seq![Value::String(s)], 0) == Some(Value::String(s)));
    assert(arg_at(seq![Value::String(t)], 0) == Some(Value::String(t)));
    assert(hex_pairs_from(vstd::utf8::encode_utf8(h), 0) == Ok::<Seq<u8>, ErrSpec>(raw));
    lemma_capitalised_hex_decodes(a, h);
}

/// Appending a byte to a `bytearray` and popping returns that byte and
/// leaves the buffer as it was.
pub proof fn law_bytearray_append_then_pop(b: Seq<u8>, x: i64)
    requires
        0 <= x < 256,
    ensures
        ({
            let a = spec_bytearray_method(b, "append"@, seq![Value::Int(x)], Seq::empty());
            &&& a == Ok::<(PyVal, int, Seq<u8>), ErrSpec>((PyVal::PyNone, 1, b.push(x as u8)))
            &&& spec_bytearray_method(b.push(x as u8), "pop"@, Seq::empty(), Seq::empty())
                == Ok::<(PyVal, int, Seq<u8>), ErrSpec>((PyVal::Int(x as int), -1, b))
        }),
{
    reveal_strlit("append");
    reveal_strlit("extend");
    reveal_strlit("insert");
    reveal_strlit("remove");
    reveal_strlit("pop");
    let c = b.push(x as u8);
    assert("pop"@.len() == 3);
    assert("pop"@ != "append"@);
    assert("pop"@ != "extend"@);
    assert("pop"@ != "insert"@);
    assert("pop"@ != "remove"@);
    assert(c.len() > 0);
    assert(c[c.len() - 1] == x as u8);
    assert(c.remove(c.len() - 1) =~= b);
}

/// `zfill(w)` on bytes shorter than `w` gives exactly `w` bytes: a leading
/// `+` or `-` stays first, then `w - len` zero digits, then the rest;
/// without a sign the zero digits come first.
pub proof fn law_bytes_zfill_pads_after_the_sign(b: Seq<u8>, w: int)
    requires
        b.len() < w,
    ensures
        ({
            let r = spec_zfill(b, w);
            let z = w - b.len();
            &&& r.len() == w
            &&& if b.len() > 0 && (b[0] == 43 || b[0] == 45) {
                &&& r[0] == b[0]
                &&& forall|k: int| 1 <= k <= z ==> r[k] == 48
                &&& forall|k: int| z < k < w ==> r[k] == b[k - z]
            } else {
                &&& forall|k: int| 0 <= k < z ==> r[k] == 48
                &&& forall|k: int| z <= k < w ==> r[k] == b[k - z]
            }
        }),
{
}

/// The lines from a position depend only on the bytes from some earlier
/// position on.
proof fn lemma_lines_suffix(b: Seq<u8>, o: int, start: int, i: int, keep: bool)
    requires
        0 <= o <= start <= i,
        o <= b.len(),
    ensures
        lines_from(b, start, i, keep) == lines_from(b.subrange(o, b.len() as int), start - o, i - o, keep),
    decreases b.len() - i,
{
    let c = b.subrange(o, b.len() as int);
    if i >= b.len() {
        if start < b.len() {
            assert(c.subrange(start - o, c.len() as int) =~= b.subrange(start, b.len() as int));
        }
    } else {
        assert(c[i - o] == b[i]);
        if i + 1 < b.len() {
            assert(c[i + 1 - o] == b[i + 1]);
        }
        if b[i] == 10 || b[i] == 13 {
            let end = if b[i] == 13 && i + 1 < b.len() && b[i + 1] == 10 { i + 2 } else { i + 1 };
            lemma_lines_suffix(b, o, end, end, keep);
            let cut = if keep { end } else { i };
            assert(c.subrange(start - o, cut - o) =~= b.subrange(start, cut));
        } else {
            lemma_lines_suffix(b, o, start, i + 1, keep);
        }
    }
}

/// The scans of `x + "\r\n" + y` and `x + "\n" + y` agree from any point
/// within `x`, without line ends kept.
proof fn lemma_crlf_scan(x: Seq<u8>, y: Seq<u8>, start: int, i: int)
    requires
        0 <= start <= i <= x.len(),
        x.len() == 0 || x.last() != 13,
    ensures
        lines_from(x + seq![13u8, 10u8] + y, start, i, false) == lines_from(x + seq![10u8] + y, start, i, false),
    decreases x.len() - i,
{
    let b1 = x + seq![13u8, 10u8] + y;
    let b2 = x + seq![10u8] + y;
    let p = x.len() as int;
    assert(b1.subrange(start, i) =~= b2.subrange(start, i));
    if i == p {
        assert(b1[p] == 13 && b1[p + 1] == 10 && b2[p] == 10);
        lemma_lines_suffix(b1, p + 2, p + 2, p + 2, false);
        lemma_lines_suffix(b2, p + 1, p + 1, p + 1, false);
        assert(b1.subrange(p + 2, b1.len() as int) =~= y);
        assert(b2.subrange(p + 1, b2.len() as int) =~= y);
    } else {
        assert(b1[i] == x[i] && b2[i] == x[i]);
        if x[i] == 10 || x[i] == 13 {
            if i + 1 < p {
                assert(b1[i + 1] == x[i + 1] && b2[i + 1] == x[i + 1]);
            } else {
                assert(x[i] == x.last());
                assert(b1[i + 1] == 13 && b2[i + 1] == 10);
            }
            let end = if x[i] == 13 && i + 1 < p && x[i + 1] == 10 { i + 2 } else { i + 1 };
            lemma_crlf_scan(x, y, end, end);
        } else {
            lemma_crlf_scan(x, y, start, i + 1);
        }
    }
}

/// A carriage return followed by a line feed ends one line: without line
/// ends kept, `x + "\r\n" + y` and `x + "\n" + y` split into the same
/// lines (where `x` does not itself end in a carriage return, which would
/// make its own line end with the line feed).
pub proof fn law_splitlines_crlf_is_one_break(x: Seq<u8>, y: Seq<u8>)
    requires
        x.len() == 0 || x.last() != 13,
    ensures
        lines_from(x + seq![13u8, 10u8] + y, 0, 0, false) == lines_from(x + seq![10u8] + y, 0, 0, false),
{
    lemma_crlf_scan(x, y, 0, 0);
}

/// The pieces run together.
pub open spec fn joined_pieces(ls: Seq<Seq<u8>>) -> Seq<u8>
    decreases ls.len(),
{
    if ls.len() == 0 { Seq::empty() } else { ls[0] + joined_pieces(ls.drop_first()) }
}

/// A line end as `splitlines` knows it: nothing (the last line only), LF,
/// CR or CR LF.
pub open spec fn is_line_end(e: Seq<u8>) -> bool {
    e.len() == 0 || e == seq![10u8] || e == seq![13u8] || e == seq![13u8, 10u8]
}

proof fn lemma_lines_shape(b: Seq<u8>, start: int, i: int)
    requires
        0 <= start <= i,
        start <= b.len(),
        forall|j: int| start <= j < i && j < b.len() ==> b[j] != 10 && b[j] != 13,
    ensures
        joined_pieces(lines_from(b, start, i, true)) == b.subrange(start, b.len() as int),
        lines_from(b, start, i, true).len() == lines_from(b, start, i, false).len(),
        forall|k: int| 0 <= k < lines_from(b, start, i, false).len() ==> {
            let t = #[trigger] lines_from(b, start, i, true)[k];
            let f = lines_from(b, start, i, false)[k];
            &&& f.len() <= t.len()
            &&& t.subrange(0, f.len() as int) == f
            &&& is_line_end(t.subrange(f.len() as int, t.len() as int))
            &&& forall|j: int| 0 <= j < f.len() ==> f[j] != 10 && f[j] != 13
        },
    decreases b.len() - i,
{
    let T = lines_from(b, start, i, true);
    let F = lines_from(b, start, i, false);
    if i >= b.len() {
        if start < b.len() {
            let piece = b.subrange(start, b.len() as int);
            assert(T == seq![piece]);
            assert(T.drop_first() =~= Seq::<Seq<u8>>::empty());
            assert(joined_pieces(T.drop_first()) == Seq::<u8>::empty());
            assert(joined_pieces(T) == T[0] + joined_pieces(T.drop_first()));
            assert(joined_pieces(T) =~= piece);
            assert(piece.subrange(piece.len() as int, piece.len() as int) =~= Seq::<u8>::empty());
            assert(piece.subrange(0, piece.len() as int) =~= piece);
        } else {
            assert(b.subrange(start, b.len() as int) =~= Seq::<u8>::empty());
        }
    } else if b[i] == 10 || b[i] == 13 {
        let end = if b[i] == 13 && i + 1 < b.len() && b[i + 1] == 10 { i + 2 } else { i + 1 };
        lemma_lines_shape(b, end, end);
        let T2 = lines_from(b, end, end, true);
        let F2 = lines_from(b, end, end, false);
        let t0 = b.subrange(start, end);
        let f0 = b.subrange(start, i);
        assert(T == seq![t0] + T2);
        assert(F == seq![f0] + F2);
        assert(T.drop_first() =~= T2);
        assert(joined_pieces(T) == t0 + joined_pieces(T2));
        assert(t0 + b.subrange(end, b.len() as int) =~= b.subrange(start, b.len() as int));
        assert forall|k: int| 0 <= k < F.len() implies {
            let t = #[trigger] T[k];
            let f = F[k];
            &&& f.len() <= t.len()
            &&& t.subrange(0, f.len() as int) == f
            &&& is_line_end(t.subrange(f.len() as int, t.len() as int))
            &&& forall|j: int| 0 <= j < f.len() ==> f[j] != 10 && f[j] != 13
        } by {
            if k == 0 {
                assert(T[0] == t0 && F[0] == f0);
                assert(t0.subrange(0, f0.len() as int) =~= f0);
                let e = t0.subrange(f0.len() as int, t0.len() as int);
                if end == i + 2 {
                    assert(e =~= seq![13u8, 10u8]);
                } else if b[i] == 10 {
                    assert(e =~= seq![10u8]);
                } else {
                    assert(e =~= seq![13u8]);
                }
                assert forall|j: int| 0 <= j < f0.len() implies f0[j] != 10 && f0[j] != 13 by {
                    assert(f0[j] == b[start + j]);
                }
            } else {
                assert(T[k] == T2[k - 1] && F[k] == F2[k - 1]);
            }
        }
    } else {
        lemma_lines_shape(b, start, i + 1);
    }
}

/// `splitlines` takes the text apart: with line ends kept the lines run
/// together give back the text; without, there are as many lines, each the
/// kept line less its line end (LF, CR or CR LF, or nothing), and no line
/// holds a line break.
pub proof fn law_splitlines_takes_text_apart(b: Seq<u8>)
    ensures
        joined_pieces(lines_from(b, 0, 0, true)) == b,
        lines_from(b, 0, 0, true).len() == lines_from(b, 0, 0, false).len(),
        forall|k: int| 0 <= k < lines_from(b, 0, 0, false).len() ==> {
            let t = #[trigger] lines_from(b, 0, 0, true)[k];
            let f = lines_from(b, 0, 0, false)[k];
            &&& f.len() <= t.len()
            &&& t.subrange(0, f.len() as int) == f
            &&& is_line_end(t.subrange(f.len() as int, t.len() as int))
            &&& forall|j: int| 0 <= j < f.len() ==> f[j] != 10 && f[j] != 13
        },
{
    lemma_lines_shape(b, 0, 0);
    assert(b.subrange(0, b.len() as int) =~= b);
}

/// `center(w, fill)` on bytes shorter than `w` puts half the padding on
/// each side; an odd fill byte goes on the left when `w` is odd and on the
/// right when it is even.
pub proof fn law_bytes_center_splits_padding(b: Seq<u8>, w: int, fill: u8)
    requires
        b.len() < w,
    ensures
        ({
            let r = spec_pad(b, w, fill, PadKind::Center);
            let total = w - b.len();
            let left = if total % 2 == 1 && w % 2 == 1 { total / 2 + 1 } else { total / 2 };
            &&& r.len() == w
            &&& forall|k: int| 0 <= k < left ==> r[k] == fill
            &&& r.subrange(left, left + b.len()) == b
            &&& forall|k: int| left + b.len() <= k < w ==> r[k] == fill
        }),
{
    let r = spec_pad(b, w, fill, PadKind::Center);
    let left = center_left(w - b.len(), w);
    assert(r.subrange(left, left + b.len()) =~= b);
}

proof fn lemma_bytes_skip_lead(b: Seq<u8>, set: Option<Seq<u8>>, lo: int, hi: int)
    requires
        0 <= lo <= hi <= b.len(),
    ensures
        lo <= skip_lead(b, set, lo, hi) <= hi,
        forall|j: int| lo <= j < skip_lead(b, set, lo, hi) ==> strippable(set, b[j]),
        skip_lead(b, set, lo, hi) < hi ==> !strippable(set, b[skip_lead(b, set, lo, hi)]),
    decreases hi - lo,
{
    if lo < hi && strippable(set, b[lo]) {
        lemma_bytes_skip_lead(b, set, lo + 1, hi);
    }
}

proof fn lemma_bytes_skip_trail(b: Seq<u8>, set: Option<Seq<u8>>, lo: int, hi: int)
    requires
        0 <= lo <= hi <= b.len(),
    ensures
        lo <= skip_trail(b, set, lo, hi) <= hi,
        forall|j: int| skip_trail(b, set, lo, hi) <= j < hi ==> strippable(set, b[j]),
        skip_trail(b, set, lo, hi) > lo ==> !strippable(set, b[skip_trail(b, set, lo, hi) - 1]),
    decreases hi - lo,
{
    if hi > lo && strippable(set, b[hi - 1]) {
        lemma_bytes_skip_trail(b, set, lo, hi - 1);
    }
}

/// `strip` removes the stripped bytes (ASCII white space, or those of the given set) from both ends and nothing else: the result is
/// a run of the input, everything before and after it is stripped, and the
/// result neither starts nor ends with a stripped item.
pub proof fn law_bytes_strip_trims_ends(b: Seq<u8>, set: Option<Seq<u8>>)
    ensures
        exists|lo: int, hi: int| {
            &&& 0 <= lo <= hi <= b.len()
            &&& spec_strip(b, set, true, true) == b.subrange(lo, hi)
            &&& forall|j: int| 0 <= j < lo ==> strippable(set, b[j])
            &&& forall|j: int| hi <= j < b.len() ==> strippable(set, b[j])
        },
        spec_strip(b, set, true, true).len() > 0 ==> !strippable(set, spec_strip(b, set, true, true)[0])
            && !strippable(set, spec_strip(b, set, true, true).last()),
{
    let lo = skip_lead(b, set, 0, b.len() as int);
    lemma_bytes_skip_lead(b, set, 0, b.len() as int);
    let hi = skip_trail(b, set, lo, b.len() as int);
    lemma_bytes_skip_trail(b, set, lo, b.len() as int);
    let r = spec_strip(b, set, true, true);
    assert(r == b.subrange(lo, hi));
    if r.len() > 0 {
        assert(r[0] == b[lo]);
        assert(r.last() == b[hi - 1]);
    }
}

/// `partition` splits at the first occurrence of the separator and
/// `rpartition` at the last: the three parts run together give the input
/// back; with a separator found the middle part is it and no earlier (for
/// `rpartition`, later) occurrence exists; without one the input stands
/// whole in the first (for `rpartition`, last) part.
pub proof fn law_bytes_partition_splits_at_separator(b: Seq<u8>, sep: Seq<u8>, from_right: bool)
    requires
        sep.len() > 0,
    ensures
        ({
            let parts = spec_partition(b, sep, from_right);
            &&& parts.len() == 3
            &&& parts[0] + parts[1] + parts[2] == b
            &&& (parts[1] == sep || parts[1].len() == 0)
            &&& parts[1] == sep ==> {
                let p = parts[0].len() as int;
                &&& occurs_at(b, sep, p)
                &&& !from_right ==> forall|j: int| 0 <= j < p ==> !occurs_at(b, sep, j)
                &&& from_right ==> forall|j: int| p < j ==> !occurs_at(b, sep, j)
            }
            &&& parts[1].len() == 0 ==> {
                &&& forall|j: int| 0 <= j ==> !occurs_at(b, sep, j)
                &&& (if from_right { parts[2] == b } else { parts[0] == b })
            }
        }),
{
    crate::text::law_find_is_first_occurrence(b, sep, 0);
    crate::text::law_rfind_is_last_occurrence(b, sep, b.len() as int);
    let parts = spec_partition(b, sep, from_right);
    let p = if from_right { rfind_to(b, sep, b.len() as int) } else { find_from(b, sep, 0) };
    if p >= 0 {
        assert(b.subrange(0, p) + sep + b.subrange(p + sep.len(), b.len() as int) =~= b) by {
            assert(b.subrange(p, p + sep.len()) == sep);
        }
        assert(parts[0].len() == p);
        if from_right {
            assert forall|j: int| p < j implies !occurs_at(b, sep, j) by {
                if j + sep.len() <= b.len() { }
            }
        }
    } else {
        if from_right {
            assert(Seq::<u8>::empty() + Seq::<u8>::empty() + b =~= b);
            assert forall|j: int| 0 <= j implies !occurs_at(b, sep, j) by {
                if j + sep.len() <= b.len() { }
            }
        } else {
            assert(b + Seq::<u8>::empty() + Seq::<u8>::empty() =~= b);
        }
    }
}

/// `upper` and `lower` change only ASCII letters, each to the same letter
/// in the other case: after `upper` no byte is a lower-case letter, after
/// `lower` none is upper-case, every other byte stays, and a letter and its
/// image differ by exactly the case offset of 32; `swapcase` turns each
/// letter to the other case.
pub proof fn law_bytes_case_maps(b: Seq<u8>)
    ensures
        spec_case_map(b, CaseOp::Upper).len() == b.len(),
        spec_case_map(b, CaseOp::Lower).len() == b.len(),
        forall|i: int| 0 <= i < b.len() ==> {
            let u = #[trigger] spec_case_map(b, CaseOp::Upper)[i];
            let l = spec_case_map(b, CaseOp::Lower)[i];
            let w = spec_case_map(b, CaseOp::Swap)[i];
            &&& !(97 <= u <= 122)
            &&& !(65 <= l <= 90)
            &&& (97 <= b[i] <= 122 ==> u as int == b[i] - 32 && l == b[i] && w == u)
            &&& (65 <= b[i] <= 90 ==> l as int == b[i] + 32 && u == b[i] && w == l)
            &&& (!(97 <= b[i] <= 122) && !(65 <= b[i] <= 90) ==> u == b[i] && l == b[i] && w == b[i])
        },
{
}

proof fn lemma_replace_len(b: Seq<u8>, needle: Seq<u8>, repl: Seq<u8>, i: int)
    requires
        needle.len() > 0,
        0 <= i <= b.len(),
    ensures
        replace_from(b, needle, repl, i).len() == (b.len() - i) + count_from(b, needle, i) * (repl.len() - needle.len()),
    decreases b.len() - i,
{
    if i + needle.len() > b.len() {
        assert(count_from(b, needle, i) == 0);
    } else if occurs_at(b, needle, i) {
        lemma_replace_len(b, needle, repl, i + needle.len());
        let c = count_from(b, needle, i + needle.len()) as int;
        let d = repl.len() - needle.len();
        assert((1 + c) * d == d + c * d) by (nonlinear_arith);
        assert(count_from(b, needle, i) == 1 + c);
        assert(replace_from(b, needle, repl, i) == repl + replace_from(b, needle, repl, i + needle.len()));
    } else {
        lemma_replace_len(b, needle, repl, i + 1);
        assert(count_from(b, needle, i) == count_from(b, needle, i + 1));
    }
}

proof fn lemma_replace_same(b: Seq<u8>, needle: Seq<u8>, i: int)
    requires
        needle.len() > 0,
        0 <= i <= b.len(),
    ensures
        replace_from(b, needle, needle, i) == b.subrange(i, b.len() as int),
    decreases b.len() - i,
{
    if i + needle.len() > b.len() {
    } else if occurs_at(b, needle, i) {
        lemma_replace_same(b, needle, i + needle.len());
        assert(b.subrange(i, i + needle.len()) + b.subrange(i + needle.len(), b.len() as int) =~= b.subrange(i, b.len() as int));
    } else {
        lemma_replace_same(b, needle, i + 1);
        assert(seq![b[i]] + b.subrange(i + 1, b.len() as int) =~= b.subrange(i, b.len() as int));
    }
}

proof fn lemma_replace_absent(b: Seq<u8>, needle: Seq<u8>, repl: Seq<u8>, i: int)
    requires
        needle.len() > 0,
        0 <= i <= b.len(),
        forall|j: int| i <= j ==> !occurs_at(b, needle, j),
    ensures
        replace_from(b, needle, repl, i) == b.subrange(i, b.len() as int),
    decreases b.len() - i,
{
    if i + needle.len() > b.len() {
    } else {
        lemma_replace_absent(b, needle, repl, i + 1);
        assert(seq![b[i]] + b.subrange(i + 1, b.len() as int) =~= b.subrange(i, b.len() as int));
    }
}

/// `replace(old, new)` swaps each counted occurrence of `old` for `new`:
/// the result is as long as the input plus, for each of the `count(old)`
/// occurrences, the difference in length; replacing `old` by itself, or an
/// `old` that does not occur, leaves the bytes as they were.
pub proof fn law_bytes_replace_counts(b: Seq<u8>, needle: Seq<u8>, repl: Seq<u8>)
    requires
        needle.len() > 0,
    ensures
        replace_from(b, needle, repl, 0).len() == b.len() + spec_count(b, needle) * (repl.len() - needle.len()),
        replace_from(b, needle, needle, 0) == b,
        (forall|j: int| 0 <= j ==> !occurs_at(b, needle, j)) ==> replace_from(b, needle, repl, 0) == b,
{
    lemma_replace_len(b, needle, repl, 0);
    lemma_replace_same(b, needle, 0);
    assert(b.subrange(0, b.len() as int) =~= b);
    if forall|j: int| 0 <= j ==> !occurs_at(b, needle, j) {
        lemma_replace_absent(b, needle, repl, 0);
    }
}

/// Decoding as Latin-1 gives one character per byte, with that byte's code;
/// decoding as ASCII does the same when every byte is below 128 and fails
/// otherwise.
pub proof fn law_decode_single_byte_codecs(b: Seq<u8>, latin: String, ascii: String)
    requires
        latin@ == "latin-1"@,
        ascii@ == "ascii"@,
    ensures
        spec_bytes_decode(b, seq![Value::String(latin)]) matches Ok(PyVal::Str(t))
            && t.len() == b.len() && forall|i: int| 0 <= i < b.len() ==> t[i] as u32 == b[i] as u32,
        (forall|i: int| 0 <= i < b.len() ==> b[i] < 128) ==> (spec_bytes_decode(b, seq![Value::String(ascii)]) matches Ok(PyVal::Str(t))
            && t.len() == b.len() && forall|i: int| 0 <= i < b.len() ==> t[i] as u32 == b[i] as u32),
        (exists|i: int| 0 <= i < b.len() && b[i] >= 128) ==> spec_bytes_decode(b, seq![Value::String(ascii)]) is Err,
{
    reveal_strlit("latin-1");
    reveal_strlit("ascii");
    reveal_strlit("utf-8");
    reveal_strlit("utf_8");
    reveal_strlit("u8");
    reveal_strlit("us-ascii");
    assert(ascii_lower_chars(latin@) =~= latin@);
    assert(ascii_lower_chars(ascii@) =~= ascii@);
    assert(!is_utf8_name("latin-1"@)) by { assert("latin-1"@[0] != "utf-8"@[0] && "latin-1"@.len() != "utf_8"@.len() && "latin-1"@.len() != "u8"@.len()); }
    assert(!is_ascii_name("latin-1"@)) by { assert("latin-1"@.len() != "ascii"@.len() && "latin-1"@[0] != "us-ascii"@[0]); }
    assert(!is_utf8_name("ascii"@)) by { assert("ascii"@[0] != "utf-8"@[0] && "ascii"@[0] != "utf_8"@[0] && "ascii"@.len() != "u8"@.len()); }
    let t = latin1_chars(b);
    assert forall|i: int| 0 <= i < b.len() implies t[i] as u32 == b[i] as u32 by {
        vstd::utf8::char_u32_cast(t[i], t[i] as u32);
    }
}

} // verus!
