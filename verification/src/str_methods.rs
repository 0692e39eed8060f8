//! The `str` method table. A string is handled as its sequence of
//! characters, so every index and count is in characters, as in Python.

use vstd::prelude::*;
use indexmap::IndexMap;
use crate::value::{Value, PyVal, spec_py_type_name, pyval_type_name, view_items, view_value,
    lemma_view_items, lemma_view_items_push, spec_iter_items, iterate_value};
use crate::error::{EvalError, EvalResult, ErrSpec, err_matches, result_matches, type_error, value_error,
    exception, decimal};
use crate::numeric::{to_index, to_len_i64, opt_index_arg, spec_opt_index, arg_at, clamp_index, clamp_index_exec,
    spec_int_of, value_to_i64, not_integer_msg};
use crate::text::{concat_str, str_to_string, str_eq, occurs_at, seq_contains, find_from, rfind_to,
    chars_match_at, chars_of, string_from_chars};
use crate::bytes_methods::{center_left, center_left_exec, is_utf8_name, is_ascii_name, is_latin1_name, int_result, usize_value, window_len, spec_byte_window, opt_int, byte_window,
    count_from, spec_count, has_affix, at_least_one_msg, no_attr_msg, no_attribute, ascii_lower_chars,
    to_ascii_lower_chars, PadKind};
use crate::kwargs::{kwarg_entries, reject_kwargs, unexpected_kwarg_msg, bind_method_params, spec_bind, opt_view};
use crate::unicode::{is_unicode_ws, is_whitespace_char, str_upper, str_lower, char_upper, char_lower, char_alphabetic, char_alphanumeric, char_uppercase, char_lowercase, to_upper_str, to_lower_str, upper_of, lower_of, is_alphabetic_char, is_alphanumeric_char, is_uppercase_char, is_lowercase_char};
use vstd::string::StringSliceAdditionalSpecFns;
use vstd::utf8::{encode_utf8, is_ascii_chars};

verus! {

broadcast use lemma_view_items;

// ---------------------------------------------------------------------------
// Character-sequence helpers
// ---------------------------------------------------------------------------

/// The characters of `s` from `lo` to `hi`, copied.
pub fn sub_chars(s: &[char], lo: usize, hi: usize) -> (r: Vec<char>)
    requires
        lo <= hi <= s@.len(),
    ensures
        r@ == s@.subrange(lo as int, hi as int),
{
    let mut out: Vec<char> = Vec::new();
    let mut i: usize = lo;
    while i < hi
        invariant
            lo <= i <= hi <= s@.len(),
            out@ == s@.subrange(lo as int, i as int),
        decreases hi - i,
    {
        out.push(s[i]);
        i = i + 1;
        assert(out@ =~= s@.subrange(lo as int, i as int));
    }
    out
}

/// Append the characters of `src` to `out`.
pub fn extend_chars(out: &mut Vec<char>, src: &[char])
    ensures
        final(out)@ == old(out)@ + src@,
{
    let mut i: usize = 0;
    let ghost start = out@;
    while i < src.len()
        invariant
            i <= src@.len(),
            out@ == start + src@.subrange(0, i as int),
        decreases src.len() - i,
    {
        out.push(src[i]);
        i = i + 1;
        assert(out@ =~= start + src@.subrange(0, i as int));
    }
    assert(src@.subrange(0, src@.len() as int) =~= src@);
}

/// Append `n` copies of `fill` to `out`.
pub fn push_repeat_char(out: &mut Vec<char>, fill: char, n: usize)
    ensures
        final(out)@ == old(out)@ + Seq::new(n as nat, |_i: int| fill),
{
    let ghost start = out@;
    let mut i: usize = 0;
    while i < n
        invariant
            i <= n,
            out@ == start + Seq::new(i as nat, |_i: int| fill),
        decreases n - i,
    {
        out.push(fill);
        i = i + 1;
        assert(out@ =~= start + Seq::new(i as nat, |_i: int| fill));
    }
}

/// A string value holding the characters of `cs`.
pub fn str_value(cs: &[char]) -> (r: Value)
    ensures
        r@ == PyVal::Str(cs@),
{
    Value::String(string_from_chars(cs))
}

proof fn lemma_occurs_in_window(s: Seq<char>, pat: Seq<char>, ws: int, we: int, k: int)
    requires
        0 <= ws <= we <= s.len(),
        0 <= k,
        ws + k + pat.len() <= we,
    ensures
        occurs_at(s.subrange(ws, we), pat, k) == occurs_at(s, pat, ws + k),
{
    assert(s.subrange(ws, we).subrange(k, k + pat.len()) =~= s.subrange(ws + k, ws + k + pat.len()));
}

proof fn lemma_find_from_bounds(hay: Seq<char>, pat: Seq<char>, from: int)
    ensures
        find_from(hay, pat, from) < 0 || (from <= find_from(hay, pat, from) && find_from(hay, pat, from) + pat.len() <= hay.len()),
    decreases hay.len() - from,
{
    if !(from < 0 || from + pat.len() > hay.len()) && !occurs_at(hay, pat, from) && from < hay.len() {
        lemma_find_from_bounds(hay, pat, from + 1);
    }
}

proof fn lemma_rfind_to_bounds(hay: Seq<char>, pat: Seq<char>, end: int)
    ensures
        rfind_to(hay, pat, end) < 0 || (0 <= rfind_to(hay, pat, end) && rfind_to(hay, pat, end) + pat.len() <= end && end <= hay.len()),
    decreases end,
{
    if !(end < pat.len() || end > hay.len()) && !occurs_at(hay, pat, end - pat.len()) && end > 0 {
        lemma_rfind_to_bounds(hay, pat, end - 1);
    }
}

/// The first position in `s[ws..we]` where `pat` occurs, relative to `ws`.
pub fn find_chars(s: &[char], pat: &[char], ws: usize, we: usize) -> (r: Option<usize>)
    requires
        ws <= we <= s@.len(),
    ensures
        match r {
            None => find_from(s@.subrange(ws as int, we as int), pat@, 0) < 0,
            Some(p) => p == find_from(s@.subrange(ws as int, we as int), pat@, 0) && p >= 0,
        },
{
    let ghost hay = s@.subrange(ws as int, we as int);
    let mut k: usize = 0;
    while k <= we - ws && pat.len() <= we - ws - k
        invariant
            ws <= we <= s@.len(),
            hay == s@.subrange(ws as int, we as int),
            k <= we - ws,
            find_from(hay, pat@, 0) == find_from(hay, pat@, k as int),
        decreases we - ws - k,
    {
        proof { lemma_occurs_in_window(s@, pat@, ws as int, we as int, k as int); }
        if chars_match_at(s, pat, ws + k) {
            return Some(k);
        }
        if k == we - ws {
            assert(pat@.len() == 0);
            assert(hay.subrange(k as int, k as int) =~= pat@);
            assert(false);
        }
        k = k + 1;
    }
    None
}

/// The last position `p` in `s[ws..we]` (relative to `ws`) where `pat` occurs.
pub fn rfind_chars(s: &[char], pat: &[char], ws: usize, we: usize) -> (r: Option<usize>)
    requires
        ws <= we <= s@.len(),
    ensures
        match r {
            None => rfind_to(s@.subrange(ws as int, we as int), pat@, we - ws) < 0,
            Some(p) => p == rfind_to(s@.subrange(ws as int, we as int), pat@, we - ws) && p >= 0,
        },
{
    let ghost hay = s@.subrange(ws as int, we as int);
    let n = pat.len();
    if n > we - ws {
        return None;
    }
    let mut e: usize = we - ws;
    while e >= n
        invariant
            ws <= we <= s@.len(),
            hay == s@.subrange(ws as int, we as int),
            n == pat@.len(),
            e <= we - ws,
            rfind_to(hay, pat@, (we - ws) as int) == rfind_to(hay, pat@, e as int),
        decreases e,
    {
        proof { lemma_occurs_in_window(s@, pat@, ws as int, we as int, (e - n) as int); }
        if chars_match_at(s, pat, ws + e - n) {
            return Some(e - n);
        }
        if e == 0 {
            assert(n == 0);
            assert(hay.subrange(0, 0) =~= pat@);
            assert(false);
        }
        e = e - 1;
    }
    None
}

/// Non-overlapping occurrences of `pat` in `s` (`len + 1` for an empty one).
pub fn count_chars(s: &[char], pat: &[char]) -> (r: usize)
    requires
        s@.len() < usize::MAX,
    ensures
        r == spec_count(s@, pat@),
{
    if pat.len() == 0 {
        return s.len() + 1;
    }
    let mut count: usize = 0;
    let mut i: usize = 0;
    while i <= s.len() && pat.len() <= s.len() - i
        invariant
            pat@.len() > 0,
            i <= s@.len(),
            count + count_from(s@, pat@, i as int) == count_from(s@, pat@, 0),
            count <= i,
        decreases s.len() - i,
    {
        if chars_match_at(s, pat, i) {
            count = count + 1;
            i = i + pat.len();
        } else {
            i = i + 1;
        }
    }
    count
}

/// Whether `window` starts (`is_start`) or ends with `affix`.
pub fn chars_have_affix(window: &[char], affix: &[char], is_start: bool) -> (r: bool)
    ensures
        r == has_affix(window@, affix@, is_start),
{
    if affix.len() > window.len() {
        return false;
    }
    let at = if is_start { 0 } else { window.len() - affix.len() };
    chars_match_at(window, affix, at)
}

// ---------------------------------------------------------------------------
// The search family and affixes
// ---------------------------------------------------------------------------

/// The substring and bounds of a `find`/`count`-style call, or its error.
pub open spec fn spec_parse_search_args(method: Seq<char>, args: Seq<Value>) -> Result<(Seq<char>, Option<int>, Option<int>), ErrSpec> {
    if args.len() == 0 || args.len() > 3 {
        Err(ErrSpec::Type(at_least_one_msg(method)))
    } else {
        match args[0] {
            Value::String(sub) => match spec_opt_index(arg_at(args, 1)) {
                Err(m) => Err(ErrSpec::Type(m)),
                Ok(s) => match spec_opt_index(arg_at(args, 2)) {
                    Err(m) => Err(ErrSpec::Type(m)),
                    Ok(e) => Ok((sub@, s, e)),
                },
            },
            _ => Err(ErrSpec::Type(method + "() argument must be str"@)),
        }
    }
}

/// Parse `(sub, start, end)` for `find`/`rfind`/`index`/`rindex`/`count`:
/// the substring must be `str`; the bounds are optional integers or `None`.
pub fn parse_search_args(method: &str, args: &[Value]) -> (r: Result<(Vec<char>, Option<i64>, Option<i64>), EvalError>)
    ensures
        match spec_parse_search_args(method@, args@) {
            Ok((sub, s, e)) => r matches Ok((v, s2, e2)) && v@ == sub && opt_int(s2) == s && opt_int(e2) == e,
            Err(es) => r matches Err(x) && err_matches(x, es),
        },
{
    if args.len() == 0 || args.len() > 3 {
        return Err(type_error(concat_str(method, "() takes at least 1 argument")));
    }
    let sub = match &args[0] {
        Value::String(sub) => chars_of(sub.as_str()),
        _ => { return Err(type_error(concat_str(method, "() argument must be str"))); },
    };
    let start = match opt_index_arg(if args.len() > 1 { Some(&args[1]) } else { None }) {
        Ok(s) => s,
        Err(e) => { return Err(e); },
    };
    let end = match opt_index_arg(if args.len() > 2 { Some(&args[2]) } else { None }) {
        Ok(s) => s,
        Err(e) => { return Err(e); },
    };
    Ok((sub, start, end))
}

/// Resolve `start`/`end` character indices to a clamped `[start, end)`
/// window over `s`: negative indices count from the end, both clamp into
/// range, and an inverted range collapses to empty.
pub fn resolve_window(s: &[char], start: Option<i64>, end: Option<i64>) -> (r: (usize, usize))
    ensures
        r.0 == spec_byte_window(s@.len() as int, opt_int(start), opt_int(end)).0,
        r.1 == spec_byte_window(s@.len() as int, opt_int(start), opt_int(end)).1,
        r.0 <= r.1 <= s@.len(),
{
    let len: i64 = if s.len() as u64 > 0x7fff_ffff_ffff_ffffu64 { 0x7fff_ffff_ffff_ffffi64 } else { s.len() as i64 };
    let a = clamp_index_exec(match start { Some(i) => i, None => 0 }, len);
    let e0 = clamp_index_exec(match end { Some(i) => i, None => len }, len);
    let e = if e0 < a { a } else { e0 };
    (a as usize, e as usize)
}

/// What `find`/`rfind`/`index`/`rindex` return on the characters `s`.
pub open spec fn spec_str_search(s: Seq<char>, method: Seq<char>, args: Seq<Value>, from_right: bool, raise_missing: bool) -> Result<PyVal, ErrSpec> {
    match spec_parse_search_args(method, args) {
        Err(es) => Err(es),
        Ok((sub, a, b)) => {
            let w = spec_byte_window(s.len() as int, a, b);
            let hay = s.subrange(w.0, w.1);
            let p = if from_right { rfind_to(hay, sub, w.1 - w.0) } else { find_from(hay, sub, 0) };
            if p >= 0 {
                int_result(w.0 + p)
            } else if raise_missing {
                Err(ErrSpec::Exc("ValueError"@, "substring not found"@))
            } else {
                Ok(PyVal::Int(-1))
            }
        },
    }
}

fn str_search(s: &[char], method: &str, args: &[Value], from_right: bool, raise_missing: bool) -> (r: EvalResult)
    ensures
        result_matches(r, spec_str_search(s@, method@, args@, from_right, raise_missing)),
{
    let (sub, start, end) = match parse_search_args(method, args) {
        Ok(t) => t,
        Err(e) => { return Err(e); },
    };
    let (ws, we) = resolve_window(s, start, end);
    proof {
        lemma_find_from_bounds(s@.subrange(ws as int, we as int), sub@, 0);
        lemma_rfind_to_bounds(s@.subrange(ws as int, we as int), sub@, (we - ws) as int);
    }
    let found = if from_right { rfind_chars(s, &sub, ws, we) } else { find_chars(s, &sub, ws, we) };
    match found {
        Some(p) => usize_value(ws + p),
        None => if raise_missing {
            Err(exception("ValueError", str_to_string("substring not found")))
        } else {
            Ok(Value::Int(-1))
        },
    }
}

/// What `count(sub[, start[, end]])` returns on the characters `s`.
pub open spec fn spec_str_count(s: Seq<char>, method: Seq<char>, args: Seq<Value>) -> Result<PyVal, ErrSpec> {
    match spec_parse_search_args(method, args) {
        Err(es) => Err(es),
        Ok((sub, a, b)) => {
            let w = spec_byte_window(s.len() as int, a, b);
            int_result(spec_count(s.subrange(w.0, w.1), sub) as int)
        },
    }
}

fn str_count(s: &[char], method: &str, args: &[Value]) -> (r: EvalResult)
    requires
        s@.len() < usize::MAX,
    ensures
        result_matches(r, spec_str_count(s@, method@, args@)),
{
    let (sub, start, end) = match parse_search_args(method, args) {
        Ok(t) => t,
        Err(e) => { return Err(e); },
    };
    let (ws, we) = resolve_window(s, start, end);
    let hay = sub_chars(s, ws, we);
    usize_value(count_chars(&hay, &sub))
}

/// Testing the `str` affixes of a tuple in order from `k`.
pub open spec fn str_tuple_affix_from(items: Seq<Value>, window: Seq<char>, method: Seq<char>, is_start: bool, k: int) -> Result<bool, ErrSpec>
    decreases items.len() - k,
{
    if k < 0 || k >= items.len() {
        Ok(false)
    } else {
        match items[k] {
            Value::String(p) => if has_affix(window, p@, is_start) {
                Ok(true)
            } else {
                str_tuple_affix_from(items, window, method, is_start, k + 1)
            },
            _ => Err(ErrSpec::Type("tuple for "@ + method + "() must only contain str"@)),
        }
    }
}

/// What `startswith`/`endswith` return on the characters `s`.
pub open spec fn spec_string_affix(s: Seq<char>, method: Seq<char>, args: Seq<Value>, is_start: bool) -> Result<PyVal, ErrSpec> {
    if args.len() == 0 || args.len() > 3 {
        Err(ErrSpec::Type(at_least_one_msg(method)))
    } else {
        match spec_opt_index(arg_at(args, 1)) {
            Err(m) => Err(ErrSpec::Type(m)),
            Ok(a) => match spec_opt_index(arg_at(args, 2)) {
                Err(m) => Err(ErrSpec::Type(m)),
                Ok(b) => {
                    let w = spec_byte_window(s.len() as int, a, b);
                    let window = s.subrange(w.0, w.1);
                    match args[0] {
                        Value::String(p) => Ok(PyVal::Bool(has_affix(window, p@, is_start))),
                        Value::Tuple(items) => match str_tuple_affix_from(items@, window, method, is_start, 0) {
                            Ok(m) => Ok(PyVal::Bool(m)),
                            Err(es) => Err(es),
                        },
                        _ => Err(ErrSpec::Type(method + "() first arg must be str or a tuple of str"@)),
                    }
                },
            },
        }
    }
}

/// Shared `startswith`/`endswith`: honour the `start`/`end` window and
/// accept one `str` affix or a tuple of them (any match).
pub fn string_affix(s: &[char], method: &str, args: &[Value], is_start: bool) -> (r: EvalResult)
    ensures
        result_matches(r, spec_string_affix(s@, method@, args@, is_start)),
{
    if args.len() == 0 || args.len() > 3 {
        return Err(type_error(concat_str(method, "() takes at least 1 argument")));
    }
    let start = match opt_index_arg(if args.len() > 1 { Some(&args[1]) } else { None }) {
        Ok(v) => v,
        Err(e) => { return Err(e); },
    };
    let end = match opt_index_arg(if args.len() > 2 { Some(&args[2]) } else { None }) {
        Ok(v) => v,
        Err(e) => { return Err(e); },
    };
    let (ws, we) = resolve_window(s, start, end);
    let window = sub_chars(s, ws, we);
    match &args[0] {
        Value::String(p) => Ok(Value::Bool(chars_have_affix(&window, &chars_of(p.as_str()), is_start))),
        Value::Tuple(items) => {
            let ghost goal = spec_string_affix(s@, method@, args@, is_start);
            assert(goal == match str_tuple_affix_from(items@, window@, method@, is_start, 0) {
                Ok(m) => Ok(PyVal::Bool(m)),
                Err(es) => Err(es),
            });
            let mut k: usize = 0;
            while k < items.len()
                invariant
                    goal == spec_string_affix(s@, method@, args@, is_start),
                    goal == match str_tuple_affix_from(items@, window@, method@, is_start, 0) {
                        Ok(m) => Ok(PyVal::Bool(m)),
                        Err(es) => Err::<PyVal, ErrSpec>(es),
                    },
                    k <= items@.len(),
                    str_tuple_affix_from(items@, window@, method@, is_start, 0) == str_tuple_affix_from(items@, window@, method@, is_start, k as int),
                decreases items.len() - k,
            {
                match &items[k] {
                    Value::String(p) => {
                        if chars_have_affix(&window, &chars_of(p.as_str()), is_start) {
                            return Ok(Value::Bool(true));
                        }
                    },
                    _ => {
                        let s1 = concat_str("tuple for ", method);
                        let s2 = s1.concat("() must only contain str");
                        return Err(type_error(s2));
                    },
                }
                k = k + 1;
            }
            Ok(Value::Bool(false))
        },
        _ => Err(type_error(concat_str(method, "() first arg must be str or a tuple of str"))),
    }
}


// ---------------------------------------------------------------------------
// Stripping
// ---------------------------------------------------------------------------

/// A character is stripped when it is Unicode white space (no set given) or
/// in the given set.
pub open spec fn strip_pred(set: Option<Seq<char>>, c: char) -> bool {
    match set {
        None => is_unicode_ws(c),
        Some(cs) => cs.contains(c),
    }
}

pub open spec fn skip_lead_chars(s: Seq<char>, set: Option<Seq<char>>, lo: int, hi: int) -> int
    decreases hi - lo,
{
    if lo < hi && strip_pred(set, s[lo]) { skip_lead_chars(s, set, lo + 1, hi) } else { lo }
}

pub open spec fn skip_trail_chars(s: Seq<char>, set: Option<Seq<char>>, lo: int, hi: int) -> int
    decreases hi - lo,
{
    if hi > lo && strip_pred(set, s[hi - 1]) { skip_trail_chars(s, set, lo, hi - 1) } else { hi }
}

/// `s` with stripped characters removed from the left (`left`) and right
/// (`right`) ends.
pub open spec fn spec_strip_chars(s: Seq<char>, set: Option<Seq<char>>, left: bool, right: bool) -> Seq<char> {
    let lo = if left { skip_lead_chars(s, set, 0, s.len() as int) } else { 0 };
    let hi = if right { skip_trail_chars(s, set, lo, s.len() as int) } else { s.len() as int };
    s.subrange(lo, hi)
}

fn char_in(set: &[char], c: char) -> (r: bool)
    ensures
        r == set@.contains(c),
{
    let mut i: usize = 0;
    while i < set.len()
        invariant
            i <= set@.len(),
            forall|j: int| 0 <= j < i ==> set@[j] != c,
        decreases set.len() - i,
    {
        if set[i] == c {
            return true;
        }
        i = i + 1;
    }
    false
}

fn strip_pred_exec(set: &Option<Vec<char>>, c: char) -> (r: bool)
    ensures
        r == strip_pred(match set { Some(v) => Some(v@), None => None }, c),
{
    match set {
        None => is_whitespace_char(c),
        Some(cs) => char_in(cs, c),
    }
}

proof fn lemma_skip_chars_bounds(s: Seq<char>, set: Option<Seq<char>>, lo: int, hi: int)
    requires
        0 <= lo <= hi <= s.len(),
    ensures
        lo <= skip_lead_chars(s, set, lo, hi) <= hi,
        lo <= skip_trail_chars(s, set, lo, hi) <= hi,
    decreases hi - lo,
{
    if lo < hi {
        lemma_skip_chars_bounds(s, set, lo + 1, hi);
        lemma_skip_chars_bounds(s, set, lo, hi - 1);
    }
}

/// Strip the ends of `s`: white space, or the characters of `set`.
pub fn strip_str(s: &[char], set: &Option<Vec<char>>, left: bool, right: bool) -> (r: Vec<char>)
    ensures
        r@ == spec_strip_chars(s@, match set { Some(v) => Some(v@), None => None }, left, right),
{
    let ghost sset = match set { Some(v) => Some(v@), None => None::<Seq<char>> };
    let mut lo: usize = 0;
    let mut hi: usize = s.len();
    if left {
        while lo < hi && strip_pred_exec(set, s[lo])
            invariant
                sset == match set { Some(v) => Some(v@), None => None::<Seq<char>> },
                hi == s@.len(),
                lo <= hi,
                skip_lead_chars(s@, sset, 0, hi as int) == skip_lead_chars(s@, sset, lo as int, hi as int),
            decreases hi - lo,
        {
            lo = lo + 1;
        }
    }
    let ghost lo0 = lo;
    proof { lemma_skip_chars_bounds(s@, sset, 0, s@.len() as int); }
    if right {
        while hi > lo && strip_pred_exec(set, s[hi - 1])
            invariant
                sset == match set { Some(v) => Some(v@), None => None::<Seq<char>> },
                lo == lo0,
                lo <= hi <= s@.len(),
                skip_trail_chars(s@, sset, lo as int, s@.len() as int) == skip_trail_chars(s@, sset, lo as int, hi as int),
            decreases hi - lo,
        {
            hi = hi - 1;
        }
    }
    sub_chars(s, lo, hi)
}

/// The optional character set of `strip`, or its error.
pub open spec fn spec_strip_arg(method: Seq<char>, args: Seq<Value>) -> Result<Option<Seq<char>>, ErrSpec> {
    match arg_at(args, 0) {
        None => Ok(None),
        Some(Value::PyNone) => Ok(None),
        Some(Value::String(cs)) => Ok(Some(cs@)),
        Some(_) => Err(ErrSpec::Type(method + " arg must be None or str"@)),
    }
}

/// Optional strip character set: absent or `None` strips white space; a
/// `str` strips its characters; anything else raises `TypeError`.
pub fn strip_chars(method: &str, args: &[Value]) -> (r: Result<Option<Vec<char>>, EvalError>)
    ensures
        match spec_strip_arg(method@, args@) {
            Ok(set) => r matches Ok(o) && set == match o { Some(v) => Some(v@), None => None::<Seq<char>> },
            Err(es) => r matches Err(e) && err_matches(e, es),
        },
{
    match if args.len() > 0 { Some(&args[0]) } else { None } {
        None => Ok(None),
        Some(Value::PyNone) => Ok(None),
        Some(Value::String(cs)) => Ok(Some(chars_of(cs.as_str()))),
        Some(_) => Err(type_error(concat_str(method, " arg must be None or str"))),
    }
}

// ---------------------------------------------------------------------------
// Splitting
// ---------------------------------------------------------------------------

/// One fewer remaining split (a negative budget is unlimited).
pub open spec fn dec_budget(left: int) -> int {
    if left > 0 { left - 1 } else { left }
}

/// The pieces of `s` from `start`, scanning from `i`, split left to right at
/// non-overlapping occurrences of a non-empty `sep`, with `left` splits to go
/// (negative: unlimited).
pub open spec fn splitn_from(s: Seq<char>, sep: Seq<char>, start: int, i: int, left: int) -> Seq<Seq<char>>
    decreases s.len() - i,
{
    if left == 0 || sep.len() == 0 || i < 0 || i + sep.len() > s.len() {
        seq![s.subrange(start, s.len() as int)]
    } else if occurs_at(s, sep, i) {
        seq![s.subrange(start, i)] + splitn_from(s, sep, i + sep.len(), i + sep.len(), dec_budget(left))
    } else {
        splitn_from(s, sep, start, i + 1, left)
    }
}

/// The pieces of `s[..end]`, right to left, split at non-overlapping
/// occurrences of a non-empty `sep` found from the right; `j` is the end of
/// the next candidate match.
pub open spec fn rsplitn_from(s: Seq<char>, sep: Seq<char>, end: int, j: int, left: int) -> Seq<Seq<char>>
    decreases j,
{
    if left == 0 || sep.len() == 0 || j < sep.len() || j > s.len() {
        seq![s.subrange(0, end)]
    } else if occurs_at(s, sep, j - sep.len()) {
        seq![s.subrange(j, end)] + rsplitn_from(s, sep, j - sep.len(), j - sep.len(), dec_budget(left))
    } else {
        rsplitn_from(s, sep, end, j - 1, left)
    }
}

/// A list of `str` objects.
pub open spec fn str_list(parts: Seq<Seq<char>>) -> PyVal {
    PyVal::List(Seq::new(parts.len(), |i: int| PyVal::Str(parts[i])))
}

/// The views of a vector of character vectors.
pub open spec fn char_views(parts: Seq<Vec<char>>) -> Seq<Seq<char>> {
    Seq::new(parts.len(), |i: int| parts[i]@)
}

/// A list value holding `parts` as `str` objects.
pub fn str_list_value(parts: &Vec<Vec<char>>) -> (r: Value)
    ensures
        r@ == str_list(char_views(parts@)),
{
    let mut out: Vec<Value> = Vec::new();
    let mut i: usize = 0;
    while i < parts.len()
        invariant
            i <= parts@.len(),
            view_items(out@) == Seq::new(i as nat, |j: int| PyVal::Str(parts@[j]@)),
        decreases parts.len() - i,
    {
        let item = str_value(&parts[i]);
        proof { lemma_view_items_push(out@, item); }
        out.push(item);
        i = i + 1;
        assert(view_items(out@) =~= Seq::new(i as nat, |j: int| PyVal::Str(parts@[j]@)));
    }
    let r = Value::List(out);
    assert(view_items(out@) =~= Seq::new(char_views(parts@).len(), |j: int| PyVal::Str(char_views(parts@)[j])));
    r
}

/// `s.split(sep)` / `s.splitn(left + 1, sep)` over a non-empty separator.
pub fn split_on_chars(s: &[char], sep: &[char], left: i64) -> (r: Vec<Vec<char>>)
    requires
        sep@.len() > 0,
    ensures
        char_views(r@) == splitn_from(s@, sep@, 0, 0, left as int),
{
    let mut parts: Vec<Vec<char>> = Vec::new();
    let mut start: usize = 0;
    let mut i: usize = 0;
    let mut budget: i64 = left;
    while budget != 0 && i <= s.len() && sep.len() <= s.len() - i
        invariant
            sep@.len() > 0,
            start <= i <= s@.len(),
            budget <= left || budget < 0,
            char_views(parts@) + splitn_from(s@, sep@, start as int, i as int, budget as int) == splitn_from(s@, sep@, 0, 0, left as int),
        decreases s.len() - i,
    {
        if chars_match_at(s, sep, i) {
            let piece = sub_chars(s, start, i);
            let ghost before = char_views(parts@);
            let ghost old_start = start;
            let ghost old_i = i;
            let ghost old_budget = budget;
            parts.push(piece);
            assert(char_views(parts@) =~= before.push(piece@));
            i = i + sep.len();
            start = i;
            if budget > 0 {
                budget = budget - 1;
            }
            assert(splitn_from(s@, sep@, old_start as int, old_i as int, old_budget as int) == seq![piece@] + splitn_from(s@, sep@, start as int, i as int, budget as int));
            assert(before + (seq![piece@] + splitn_from(s@, sep@, start as int, i as int, budget as int)) =~= char_views(parts@) + splitn_from(s@, sep@, start as int, i as int, budget as int));
        } else {
            i = i + 1;
        }
    }
    let last = sub_chars(s, start, s.len());
    let ghost before = char_views(parts@);
    parts.push(last);
    assert(char_views(parts@) =~= before.push(last@));
    assert(char_views(parts@) =~= before + splitn_from(s@, sep@, start as int, i as int, budget as int));
    parts
}

/// The pieces of `rsplitn_from`, put back in left-to-right order.
pub fn rsplit_on_chars(s: &[char], sep: &[char], left: i64) -> (r: Vec<Vec<char>>)
    requires
        sep@.len() > 0,
    ensures
        char_views(r@) == rsplitn_from(s@, sep@, s@.len() as int, s@.len() as int, left as int).reverse(),
{
    let mut parts: Vec<Vec<char>> = Vec::new();
    let mut end: usize = s.len();
    let mut j: usize = s.len();
    let mut budget: i64 = left;
    let n = sep.len();
    while budget != 0 && j >= n
        invariant
            n == sep@.len(),
            n > 0,
            j <= end <= s@.len(),
            budget <= left || budget < 0,
            char_views(parts@) + rsplitn_from(s@, sep@, end as int, j as int, budget as int)
                == rsplitn_from(s@, sep@, s@.len() as int, s@.len() as int, left as int),
        decreases j,
    {
        if chars_match_at(s, sep, j - n) {
            let piece = sub_chars(s, j, end);
            let ghost before = char_views(parts@);
            let ghost old_end = end;
            let ghost old_j = j;
            let ghost old_budget = budget;
            parts.push(piece);
            assert(char_views(parts@) =~= before.push(piece@));
            j = j - n;
            end = j;
            if budget > 0 {
                budget = budget - 1;
            }
            assert(rsplitn_from(s@, sep@, old_end as int, old_j as int, old_budget as int) == seq![piece@] + rsplitn_from(s@, sep@, end as int, j as int, budget as int));
            assert(before + (seq![piece@] + rsplitn_from(s@, sep@, end as int, j as int, budget as int)) =~= char_views(parts@) + rsplitn_from(s@, sep@, end as int, j as int, budget as int));
        } else {
            j = j - 1;
        }
    }
    let last = sub_chars(s, 0, end);
    let ghost before = char_views(parts@);
    parts.push(last);
    assert(char_views(parts@) =~= before.push(last@));
    assert(char_views(parts@) =~= before + rsplitn_from(s@, sep@, end as int, j as int, budget as int));
    // Reverse into left-to-right order.
    let ghost fwd = char_views(parts@);
    let mut out: Vec<Vec<char>> = Vec::new();
    let mut k: usize = parts.len();
    while k > 0
        invariant
            k <= parts@.len(),
            fwd == char_views(parts@),
            char_views(out@) == fwd.subrange(k as int, fwd.len() as int).reverse(),
        decreases k,
    {
        k = k - 1;
        let piece = sub_chars(&parts[k], 0, parts[k].len());
        let ghost before = char_views(out@);
        out.push(piece);
        assert(piece@ =~= fwd[k as int]);
        assert(char_views(out@) =~= before.push(fwd[k as int]));
        assert(fwd.subrange(k as int, fwd.len() as int) =~= seq![fwd[k as int]] + fwd.subrange(k + 1, fwd.len() as int));
        assert(char_views(out@) =~= fwd.subrange(k as int, fwd.len() as int).reverse());
    }
    assert(fwd.subrange(0, fwd.len() as int) =~= fwd);
    out
}

// ---------------------------------------------------------------------------
// Splitting on white space
// ---------------------------------------------------------------------------

/// The first position at or after `i` that is not white space.
pub open spec fn skip_ws(s: Seq<char>, i: int) -> int
    decreases s.len() - i,
{
    if 0 <= i < s.len() && is_unicode_ws(s[i]) { skip_ws(s, i + 1) } else { i }
}

/// The first position at or after `i` that is white space (or the end).
pub open spec fn word_end(s: Seq<char>, i: int) -> int
    decreases s.len() - i,
{
    if 0 <= i < s.len() && !is_unicode_ws(s[i]) { word_end(s, i + 1) } else { i }
}

pub proof fn lemma_skip_ws(s: Seq<char>, i: int)
    requires
        0 <= i <= s.len(),
    ensures
        i <= skip_ws(s, i) <= s.len(),
        skip_ws(s, i) < s.len() ==> !is_unicode_ws(s[skip_ws(s, i)]),
    decreases s.len() - i,
{
    if i < s.len() && is_unicode_ws(s[i]) {
        lemma_skip_ws(s, i + 1);
    }
}

pub proof fn lemma_word_end(s: Seq<char>, i: int)
    requires
        0 <= i <= s.len(),
    ensures
        i <= word_end(s, i) <= s.len(),
        i < s.len() && !is_unicode_ws(s[i]) ==> word_end(s, i) > i,
    decreases s.len() - i,
{
    if i < s.len() && !is_unicode_ws(s[i]) {
        lemma_word_end(s, i + 1);
    }
}

/// The `(start, end)` spans of the white-space separated words of `s` from
/// position `i` on.
pub open spec fn spans_from(s: Seq<char>, i: int) -> Seq<(int, int)>
    decreases s.len() - i,
{
    if i < 0 || i > s.len() || skip_ws(s, i) >= s.len() {
        seq![]
    } else {
        proof {
            lemma_skip_ws(s, i);
            lemma_word_end(s, skip_ws(s, i));
        }
        seq![(skip_ws(s, i), word_end(s, skip_ws(s, i)))] + spans_from(s, word_end(s, skip_ws(s, i)))
    }
}

/// The words of `s` at the spans `sp`.
pub open spec fn span_words(s: Seq<char>, sp: Seq<(int, int)>) -> Seq<Seq<char>> {
    Seq::new(sp.len(), |k: int| s.subrange(sp[k].0, sp[k].1))
}

/// `s.split(None, k)`: the words of `s`; after `k > 0` splits the rest of the
/// string from the next word on is the last piece; `k == 0` gives `[s]`.
pub open spec fn spec_ws_split(s: Seq<char>, k: int) -> Seq<Seq<char>> {
    let sp = spans_from(s, 0);
    if k == 0 {
        seq![s]
    } else if k < 0 || k >= sp.len() {
        span_words(s, sp)
    } else {
        span_words(s, sp.take(k)) + seq![s.subrange(sp[k].0, s.len() as int)]
    }
}

/// `s.rsplit(None, k)`: the words of `s`; with `0 < k` fewer than the words,
/// the last `k` words follow the rest of the string before them, with its
/// trailing white space removed; `k == 0` gives `[s]`.
pub open spec fn spec_ws_rsplit(s: Seq<char>, k: int) -> Seq<Seq<char>> {
    let sp = spans_from(s, 0);
    let n = sp.len() as int;
    if k == 0 {
        seq![s]
    } else if k < 0 || k >= n {
        span_words(s, sp)
    } else {
        seq![spec_strip_chars(s.subrange(0, sp[n - k].0), None, false, true)] + span_words(s, sp.skip(n - k))
    }
}

/// The spans as integers.
pub open spec fn span_view(v: Seq<(usize, usize)>) -> Seq<(int, int)> {
    Seq::new(v.len(), |k: int| (v[k].0 as int, v[k].1 as int))
}

proof fn lemma_spans_from_bounds(s: Seq<char>, i: int)
    requires
        0 <= i <= s.len(),
    ensures
        forall|k: int| 0 <= k < spans_from(s, i).len() ==>
            i <= (#[trigger] spans_from(s, i)[k]).0 < spans_from(s, i)[k].1 <= s.len(),
    decreases s.len() - i,
{
    if skip_ws(s, i) < s.len() {
        lemma_skip_ws(s, i);
        let a = skip_ws(s, i);
        lemma_word_end(s, a);
        let e = word_end(s, a);
        lemma_spans_from_bounds(s, e);
        let rest = spans_from(s, e);
        assert(spans_from(s, i) == seq![(a, e)] + rest);
        assert forall|k: int| 0 <= k < spans_from(s, i).len() implies
            i <= (#[trigger] spans_from(s, i)[k]).0 < spans_from(s, i)[k].1 <= s.len() by {
            if k > 0 {
                assert(spans_from(s, i)[k] == rest[k - 1]);
            }
        }
    }
}

/// The spans of the words of `s`.
pub fn word_spans(s: &[char]) -> (r: Vec<(usize, usize)>)
    ensures
        span_view(r@) == spans_from(s@, 0),
{
    let mut out: Vec<(usize, usize)> = Vec::new();
    let mut i: usize = 0;
    loop
        invariant
            i <= s@.len(),
            span_view(out@) + spans_from(s@, i as int) == spans_from(s@, 0),
        decreases s@.len() - i,
    {
        let mut a: usize = i;
        while a < s.len() && is_whitespace_char(s[a])
            invariant
                i <= a <= s@.len(),
                skip_ws(s@, i as int) == skip_ws(s@, a as int),
            decreases s@.len() - a,
        {
            a = a + 1;
        }
        if a >= s.len() {
            assert(spans_from(s@, i as int) =~= Seq::<(int, int)>::empty());
            assert(span_view(out@) + spans_from(s@, i as int) =~= span_view(out@));
            return out;
        }
        let mut e: usize = a;
        while e < s.len() && !is_whitespace_char(s[e])
            invariant
                a <= e <= s@.len(),
                word_end(s@, a as int) == word_end(s@, e as int),
            decreases s@.len() - e,
        {
            e = e + 1;
        }
        proof {
            lemma_skip_ws(s@, i as int);
            lemma_word_end(s@, a as int);
        }
        let ghost before = span_view(out@);
        out.push((a, e));
        assert(span_view(out@) =~= before.push((a as int, e as int)));
        assert(spans_from(s@, i as int) == seq![(a as int, e as int)] + spans_from(s@, e as int));
        assert(before + spans_from(s@, i as int) =~= span_view(out@) + spans_from(s@, e as int));
        i = e;
    }
}

/// The words at spans `lo..hi` of `sp`.
fn words_at(s: &[char], sp: &Vec<(usize, usize)>, lo: usize, hi: usize) -> (r: Vec<Vec<char>>)
    requires
        lo <= hi <= sp@.len(),
        forall|k: int| 0 <= k < sp@.len() ==> (#[trigger] sp@[k]).0 <= sp@[k].1 <= s@.len(),
    ensures
        char_views(r@) == span_words(s@, span_view(sp@).subrange(lo as int, hi as int)),
{
    let mut out: Vec<Vec<char>> = Vec::new();
    let mut k: usize = lo;
    while k < hi
        invariant
            lo <= k <= hi <= sp@.len(),
            forall|j: int| 0 <= j < sp@.len() ==> (#[trigger] sp@[j]).0 <= sp@[j].1 <= s@.len(),
            char_views(out@) == span_words(s@, span_view(sp@).subrange(lo as int, k as int)),
        decreases hi - k,
    {
        let (a, e) = sp[k];
        let w = sub_chars(s, a, e);
        let ghost before = char_views(out@);
        out.push(w);
        assert(char_views(out@) =~= before.push(w@));
        proof {
            let v = span_view(sp@);
            assert(v[k as int] == (a as int, e as int));
            assert(span_words(s@, v.subrange(lo as int, k + 1)) =~= span_words(s@, v.subrange(lo as int, k as int)).push(s@.subrange(a as int, e as int)));
        }
        k = k + 1;
    }
    out
}

proof fn lemma_spans_ok(s: Seq<char>, sp: Seq<(usize, usize)>)
    requires
        span_view(sp) == spans_from(s, 0),
    ensures
        forall|k: int| 0 <= k < sp.len() ==> (#[trigger] sp[k]).0 < sp[k].1 <= s.len(),
{
    lemma_spans_from_bounds(s, 0);
    assert forall|k: int| 0 <= k < sp.len() implies (#[trigger] sp[k]).0 < sp[k].1 <= s.len() by {
        assert(span_view(sp)[k] == spans_from(s, 0)[k]);
    }
}

/// `split()` on white space with at most `k` splits (negative: unlimited).
pub fn split_whitespace_max(s: &[char], k: i64) -> (r: Vec<Vec<char>>)
    ensures
        char_views(r@) == spec_ws_split(s@, k as int),
{
    if k == 0 {
        let mut out: Vec<Vec<char>> = Vec::new();
        out.push(sub_chars(s, 0, s.len()));
        assert(s@.subrange(0, s@.len() as int) =~= s@);
        assert(char_views(out@) =~= seq![s@]);
        return out;
    }
    let sp = word_spans(s);
    proof { lemma_spans_ok(s@, sp@); }
    let ghost v = span_view(sp@);
    if k < 0 || k as u64 >= sp.len() as u64 {
        let out = words_at(s, &sp, 0, sp.len());
        assert(v.subrange(0, v.len() as int) =~= v);
        return out;
    }
    let ku = k as usize;
    let mut out = words_at(s, &sp, 0, ku);
    let (a, _e) = sp[ku];
    let rest = sub_chars(s, a, s.len());
    let ghost before = char_views(out@);
    out.push(rest);
    assert(v.subrange(0, ku as int) =~= v.take(ku as int));
    assert(char_views(out@) =~= before + seq![s@.subrange(v[ku as int].0, s@.len() as int)]);
    out
}

/// `rsplit()` on white space with at most `k` splits (negative: unlimited).
pub fn rsplit_whitespace_max(s: &[char], k: i64) -> (r: Vec<Vec<char>>)
    ensures
        char_views(r@) == spec_ws_rsplit(s@, k as int),
{
    if k == 0 {
        let mut out: Vec<Vec<char>> = Vec::new();
        out.push(sub_chars(s, 0, s.len()));
        assert(s@.subrange(0, s@.len() as int) =~= s@);
        assert(char_views(out@) =~= seq![s@]);
        return out;
    }
    let sp = word_spans(s);
    proof { lemma_spans_ok(s@, sp@); }
    let ghost v = span_view(sp@);
    let n = sp.len();
    if k < 0 || k as u64 >= n as u64 {
        let out = words_at(s, &sp, 0, n);
        assert(v.subrange(0, v.len() as int) =~= v);
        return out;
    }
    let ku = k as usize;
    let (a, _e) = sp[n - ku];
    let head = sub_chars(s, 0, a);
    let rem = strip_str(&head, &None, false, true);
    let tail = words_at(s, &sp, n - ku, n);
    let mut out: Vec<Vec<char>> = Vec::new();
    out.push(rem);
    let mut i: usize = 0;
    while i < tail.len()
        invariant
            i <= tail@.len(),
            char_views(out@) == seq![rem@] + char_views(tail@).subrange(0, i as int),
        decreases tail.len() - i,
    {
        let w = sub_chars(&tail[i], 0, tail[i].len());
        let ghost before = char_views(out@);
        out.push(w);
        assert(w@ =~= tail@[i as int]@);
        assert(char_views(out@) =~= before.push(w@));
        i = i + 1;
        assert(char_views(out@) =~= seq![rem@] + char_views(tail@).subrange(0, i as int));
    }
    assert(char_views(tail@).subrange(0, tail@.len() as int) =~= char_views(tail@));
    assert(v.subrange((n - ku) as int, n as int) =~= v.skip((n - ku) as int));
    out
}

// ---------------------------------------------------------------------------
// split / rsplit
// ---------------------------------------------------------------------------

/// The parameters of `split` and `rsplit`.
pub open spec fn split_params() -> Seq<&'static str> {
    seq!["sep", "maxsplit"]
}

/// The message of a value that is not an integer, from its view.
pub open spec fn not_integer_msg_of(p: PyVal) -> Seq<char> {
    "'"@ + pyval_type_name(p) + "' object cannot be interpreted as an integer"@
}

/// `maxsplit`: missing or `None` is unlimited (-1); otherwise an integer.
pub open spec fn spec_maxsplit(o: Option<PyVal>) -> Result<int, ErrSpec> {
    match o {
        None => Ok(-1),
        Some(PyVal::PyNone) => Ok(-1),
        Some(PyVal::Int(i)) => Ok(i),
        Some(PyVal::Bool(b)) => Ok(if b { 1int } else { 0int }),
        Some(p) => Err(ErrSpec::Type(not_integer_msg_of(p))),
    }
}

fn coerce_maxsplit(o: &Option<Value>) -> (r: Result<i64, EvalError>)
    ensures
        match spec_maxsplit(opt_view(*o)) {
            Ok(k) => r matches Ok(k2) && k2 == k,
            Err(es) => r matches Err(e) && err_matches(e, es),
        },
{
    match o {
        None => Ok(-1),
        Some(Value::PyNone) => Ok(-1),
        Some(v) => {
            proof { crate::value::lemma_type_name_view(*v); }
            value_to_i64(v)
        },
    }
}

/// What `split`/`rsplit(sep=None, maxsplit=-1)` return on `s`.
pub open spec fn spec_str_split(s: Seq<char>, method: Seq<char>, args: Seq<Value>, kws: Seq<(Seq<char>, Value)>, right: bool) -> Result<PyVal, ErrSpec> {
    match spec_bind(method, args, kws, split_params()) {
        Err(m) => Err(ErrSpec::Type(m)),
        Ok(b) => match spec_maxsplit(b[1]) {
            Err(es) => Err(es),
            Ok(k) => match b[0] {
                None => Ok(str_list(if right { spec_ws_rsplit(s, k) } else { spec_ws_split(s, k) })),
                Some(PyVal::PyNone) => Ok(str_list(if right { spec_ws_rsplit(s, k) } else { spec_ws_split(s, k) })),
                Some(PyVal::Str(sep)) => if sep.len() == 0 {
                    Err(ErrSpec::Value("empty separator"@))
                } else if k >= 0 && (k + 1 > usize::MAX || k == i64::MAX) {
                    Err(ErrSpec::Runtime("index overflow or negative"@))
                } else if right && k >= 0 {
                    Ok(str_list(rsplitn_from(s, sep, s.len() as int, s.len() as int, k).reverse()))
                } else {
                    Ok(str_list(splitn_from(s, sep, 0, 0, k)))
                },
                Some(_) => Err(ErrSpec::Type("must be str or None, not other type"@)),
            },
        },
    }
}

fn str_split_method(s: &[char], method: &str, args: &[Value], kwargs: &IndexMap<String, Value>, right: bool) -> (r: EvalResult)
    ensures
        result_matches(r, spec_str_split(s@, method@, args@, kwarg_entries(*kwargs), right)),
{
    let params: [&str; 2] = ["sep", "maxsplit"];
    assert(params@ =~= split_params());
    let bound = match bind_method_params(method, args, kwargs, &params) {
        Ok(b) => b,
        Err(e) => { return Err(e); },
    };
    assert(opt_view(bound@[1]) == spec_bind(method@, args@, kwarg_entries(*kwargs), split_params())->Ok_0[1]);
    assert(opt_view(bound@[0]) == spec_bind(method@, args@, kwarg_entries(*kwargs), split_params())->Ok_0[0]);
    let k = match coerce_maxsplit(&bound[1]) {
        Ok(k) => k,
        Err(e) => { return Err(e); },
    };
    match &bound[0] {
        None => {
            let parts = if right { rsplit_whitespace_max(s, k) } else { split_whitespace_max(s, k) };
            Ok(str_list_value(&parts))
        },
        Some(Value::PyNone) => {
            let parts = if right { rsplit_whitespace_max(s, k) } else { split_whitespace_max(s, k) };
            Ok(str_list_value(&parts))
        },
        Some(Value::String(sep)) => {
            let sepc = chars_of(sep.as_str());
            if sepc.len() == 0 {
                Err(value_error(str_to_string("empty separator")))
            } else if k >= 0 && (k as u64 >= usize::MAX as u64 || k == i64::MAX) {
                Err(crate::error::runtime_error(str_to_string("index overflow or negative")))
            } else if right && k >= 0 {
                Ok(str_list_value(&rsplit_on_chars(s, &sepc, k)))
            } else {
                Ok(str_list_value(&split_on_chars(s, &sepc, k)))
            }
        },
        Some(_) => Err(type_error(str_to_string("must be str or None, not other type"))),
    }
}

// ---------------------------------------------------------------------------
// join / replace
// ---------------------------------------------------------------------------

/// Joining the first `k` items with `sep`; the first item that is not a
/// `str` raises `TypeError`.
pub open spec fn str_join_prefix(items: Seq<PyVal>, sep: Seq<char>, k: int) -> Result<Seq<char>, ErrSpec>
    decreases k,
{
    if k <= 0 {
        Ok(Seq::empty())
    } else {
        match str_join_prefix(items, sep, k - 1) {
            Err(es) => Err(es),
            Ok(acc) => match items[k - 1] {
                PyVal::Str(p) => Ok(if k - 1 > 0 { acc + sep + p } else { acc + p }),
                other => Err(ErrSpec::Type("sequence item: expected str, found '"@ + pyval_type_name(other) + "'"@)),
            },
        }
    }
}

proof fn lemma_str_join_err_persists(items: Seq<PyVal>, sep: Seq<char>, k: int, k2: int)
    requires
        0 <= k <= k2,
        str_join_prefix(items, sep, k) is Err,
    ensures
        str_join_prefix(items, sep, k2) == str_join_prefix(items, sep, k),
    decreases k2 - k,
{
    if k2 > k {
        lemma_str_join_err_persists(items, sep, k, k2 - 1);
    }
}

/// What `sep.join(iterable)` returns for a `str` separator `s`.
pub open spec fn spec_str_join(s: Seq<char>, args: Seq<Value>) -> Result<PyVal, ErrSpec> {
    if args.len() != 1 {
        Err(ErrSpec::Type("join() takes exactly one argument"@))
    } else {
        match spec_iter_items(args[0]@) {
            None => Err(ErrSpec::Type("'"@ + spec_py_type_name(args[0]) + "' object is not iterable"@)),
            Some(items) => match str_join_prefix(items, s, items.len() as int) {
                Ok(out) => Ok(PyVal::Str(out)),
                Err(es) => Err(es),
            },
        }
    }
}

fn str_join(s: &[char], args: &[Value]) -> (r: EvalResult)
    ensures
        result_matches(r, spec_str_join(s@, args@)),
{
    if args.len() != 1 {
        return Err(type_error(str_to_string("join() takes exactly one argument")));
    }
    let items = match iterate_value(&args[0]) {
        Ok(v) => v,
        Err(e) => { return Err(e); },
    };
    let ghost its = view_items(items@);
    proof { lemma_view_items(items@); }
    let ghost goal = spec_str_join(s@, args@);
    assert(goal == match str_join_prefix(its, s@, its.len() as int) {
        Ok(o) => Ok(PyVal::Str(o)),
        Err(es) => Err(es),
    });
    let mut out: Vec<char> = Vec::new();
    let mut i: usize = 0;
    while i < items.len()
        invariant
            goal == spec_str_join(s@, args@),
            goal == match str_join_prefix(its, s@, its.len() as int) {
                Ok(o) => Ok(PyVal::Str(o)),
                Err(es) => Err::<PyVal, ErrSpec>(es),
            },
            its == view_items(items@),
            its.len() == items@.len(),
            forall|j: int| 0 <= j < items@.len() ==> its[j] == view_value(#[trigger] items@[j]),
            i <= items@.len(),
            str_join_prefix(its, s@, i as int) == Ok::<Seq<char>, ErrSpec>(out@),
        decreases items.len() - i,
    {
        match &items[i] {
            Value::String(part) => {
                if i > 0 {
                    extend_chars(&mut out, s);
                }
                let pc = chars_of(part.as_str());
                extend_chars(&mut out, &pc);
                i = i + 1;
                proof {
                    assert(its[i - 1] == view_value(items@[i - 1]));
                }
            },
            other => {
                let s1 = concat_str("sequence item: expected str, found '", other.py_type_name());
                let s2 = s1.concat("'");
                proof {
                    assert(its[i as int] == view_value(*other));
                    crate::value::lemma_type_name_view(*other);
                    assert(s2@ =~= "sequence item: expected str, found '"@ + pyval_type_name(its[i as int]) + "'"@);
                    lemma_str_join_err_persists(its, s@, i + 1, its.len() as int);
                }
                return Err(type_error(s2));
            },
        }
    }
    Ok(Value::String(string_from_chars(&out)))
}

/// Replacing non-overlapping occurrences of a non-empty `old` from `i`, at
/// most `left` of them (negative: all).
pub open spec fn replacen_from(s: Seq<char>, old: Seq<char>, new: Seq<char>, i: int, left: int) -> Seq<char>
    decreases s.len() - i,
{
    if left == 0 || old.len() == 0 || i < 0 || i + old.len() > s.len() {
        s.subrange(i, s.len() as int)
    } else if occurs_at(s, old, i) {
        new + replacen_from(s, old, new, i + old.len(), dec_budget(left))
    } else {
        seq![s[i]] + replacen_from(s, old, new, i + 1, left)
    }
}

/// Inserting `new` at the character boundaries from `i`, at most `left` of
/// them (negative: all), which is what replacing an empty pattern does.
pub open spec fn insert_at_boundaries(s: Seq<char>, new: Seq<char>, i: int, left: int) -> Seq<char>
    decreases s.len() + 1 - i,
{
    if i < 0 || i > s.len() {
        Seq::empty()
    } else if left == 0 {
        s.subrange(i, s.len() as int)
    } else if i == s.len() {
        new
    } else {
        new + seq![s[i]] + insert_at_boundaries(s, new, i + 1, dec_budget(left))
    }
}

/// `s.replace(old, new)` with at most `left` replacements (negative: all).
pub open spec fn spec_replacen(s: Seq<char>, old: Seq<char>, new: Seq<char>, left: int) -> Seq<char> {
    if old.len() == 0 {
        insert_at_boundaries(s, new, 0, left)
    } else {
        replacen_from(s, old, new, 0, left)
    }
}

/// Replace occurrences of `old` by `new` in `s`, at most `left` of them
/// (negative: all).
pub fn replace_chars(s: &[char], old: &[char], new: &[char], left: i64) -> (r: Vec<char>)
    ensures
        r@ == spec_replacen(s@, old@, new@, left as int),
{
    let mut out: Vec<char> = Vec::new();
    let mut i: usize = 0;
    let mut budget: i64 = left;
    if old.len() == 0 {
        while i < s.len() && budget != 0
            invariant
                i <= s@.len(),
                budget <= left || budget < 0,
                out@ + insert_at_boundaries(s@, new@, i as int, budget as int) == insert_at_boundaries(s@, new@, 0, left as int),
            decreases s.len() - i,
        {
            let ghost before = out@;
            let ghost (oi, ob) = (i, budget);
            extend_chars(&mut out, new);
            out.push(s[i]);
            i = i + 1;
            if budget > 0 {
                budget = budget - 1;
            }
            assert(insert_at_boundaries(s@, new@, oi as int, ob as int) == new@ + seq![s@[oi as int]] + insert_at_boundaries(s@, new@, i as int, budget as int));
            assert(before + (new@ + seq![s@[oi as int]] + insert_at_boundaries(s@, new@, i as int, budget as int)) =~= out@ + insert_at_boundaries(s@, new@, i as int, budget as int));
        }
        if budget != 0 {
            let ghost before = out@;
            extend_chars(&mut out, new);
            assert(before + insert_at_boundaries(s@, new@, i as int, budget as int) =~= out@);
        } else {
            let rest = sub_chars(s, i, s.len());
            let ghost before = out@;
            extend_chars(&mut out, &rest);
        }
        return out;
    }
    while budget != 0 && i <= s.len() && old.len() <= s.len() - i
        invariant
            old@.len() > 0,
            i <= s@.len(),
            budget <= left || budget < 0,
            out@ + replacen_from(s@, old@, new@, i as int, budget as int) == replacen_from(s@, old@, new@, 0, left as int),
        decreases s.len() - i,
    {
        if chars_match_at(s, old, i) {
            let ghost before = out@;
            let ghost (oi, ob) = (i, budget);
            extend_chars(&mut out, new);
            i = i + old.len();
            if budget > 0 {
                budget = budget - 1;
            }
            assert(replacen_from(s@, old@, new@, oi as int, ob as int) == new@ + replacen_from(s@, old@, new@, i as int, budget as int));
            assert(before + (new@ + replacen_from(s@, old@, new@, i as int, budget as int)) =~= out@ + replacen_from(s@, old@, new@, i as int, budget as int));
        } else {
            let ghost before = out@;
            out.push(s[i]);
            i = i + 1;
            assert(before + (seq![s@[i - 1]] + replacen_from(s@, old@, new@, i as int, budget as int)) =~= out@ + replacen_from(s@, old@, new@, i as int, budget as int));
        }
    }
    let rest = sub_chars(s, i, s.len());
    extend_chars(&mut out, &rest);
    out
}

/// What `replace(old, new[, count])` returns on `s`.
pub open spec fn spec_str_replace(s: Seq<char>, args: Seq<Value>) -> Result<PyVal, ErrSpec> {
    if args.len() < 2 || args.len() > 3 {
        Err(ErrSpec::Type("replace() takes 2 or 3 arguments"@))
    } else {
        match args[0] {
            Value::String(old) => match args[1] {
                Value::String(new) => {
                    let count: Option<int> = if args.len() == 3 { spec_int_of(args[2]) } else { Some(-1) };
                    match count {
                        None => Err(ErrSpec::Type(not_integer_msg(args[2]))),
                        Some(c) => if c >= 0 && c > usize::MAX {
                            Err(ErrSpec::Runtime("index overflow or negative"@))
                        } else {
                            Ok(PyVal::Str(spec_replacen(s, old@, new@, c)))
                        },
                    }
                },
                _ => Err(ErrSpec::Type("replace() argument must be str"@)),
            },
            _ => Err(ErrSpec::Type("replace() argument must be str"@)),
        }
    }
}

fn str_replace(s: &[char], args: &[Value]) -> (r: EvalResult)
    ensures
        result_matches(r, spec_str_replace(s@, args@)),
{
    if args.len() < 2 || args.len() > 3 {
        return Err(type_error(str_to_string("replace() takes 2 or 3 arguments")));
    }
    let old = match &args[0] {
        Value::String(o) => chars_of(o.as_str()),
        _ => { return Err(type_error(str_to_string("replace() argument must be str"))); },
    };
    let new = match &args[1] {
        Value::String(n) => chars_of(n.as_str()),
        _ => { return Err(type_error(str_to_string("replace() argument must be str"))); },
    };
    let count: i64 = if args.len() == 3 {
        match value_to_i64(&args[2]) {
            Ok(c) => c,
            Err(e) => { return Err(e); },
        }
    } else {
        -1
    };
    if count >= 0 {
        match to_index(count) {
            Ok(_) => {},
            Err(e) => { return Err(e); },
        }
    }
    Ok(Value::String(string_from_chars(&replace_chars(s, &old, &new, count))))
}

// ---------------------------------------------------------------------------
// Case mappings and character classes
// ---------------------------------------------------------------------------

/// A per-character case mapping.
pub enum CharCase {
    /// `casefold`: `ß`/`ẞ` fold to `ss`, both sigmas to `σ`, anything else
    /// to its lowercase mapping.
    Fold,
    /// `swapcase`: uppercase letters to lowercase, anything else to uppercase.
    Swap,
    /// The lowercase mapping.
    Lower,
}

/// What one character maps to under `op`.
pub open spec fn case_char(op: CharCase, c: char) -> Seq<char> {
    match op {
        CharCase::Fold => if c == '\u{df}' || c == '\u{1e9e}' {
            seq!['s', 's']
        } else if c == '\u{3c2}' || c == '\u{3a3}' {
            seq!['\u{3c3}']
        } else {
            char_lower(c)
        },
        CharCase::Swap => if char_uppercase(c) { char_lower(c) } else { char_upper(c) },
        CharCase::Lower => char_lower(c),
    }
}

/// The characters of `s` from `i` on, each mapped under `op`.
pub open spec fn map_from(s: Seq<char>, i: int, op: CharCase) -> Seq<char>
    decreases s.len() - i,
{
    if i < 0 || i >= s.len() {
        Seq::empty()
    } else {
        case_char(op, s[i]) + map_from(s, i + 1, op)
    }
}

fn case_char_exec(op: &CharCase, c: char) -> (r: Vec<char>)
    ensures
        r@ == case_char(*op, c),
{
    match op {
        CharCase::Fold => if c == '\u{df}' || c == '\u{1e9e}' {
            let mut v: Vec<char> = Vec::new();
            v.push('s');
            v.push('s');
            assert(v@ =~= seq!['s', 's']);
            v
        } else if c == '\u{3c2}' || c == '\u{3a3}' {
            let mut v: Vec<char> = Vec::new();
            v.push('\u{3c3}');
            assert(v@ =~= seq!['\u{3c3}']);
            v
        } else {
            lower_of(c)
        },
        CharCase::Swap => if is_uppercase_char(c) { lower_of(c) } else { upper_of(c) },
        CharCase::Lower => lower_of(c),
    }
}

/// Map the characters of `s` from `from` on under `op`.
pub fn map_chars(s: &[char], from: usize, op: CharCase) -> (r: Vec<char>)
    ensures
        r@ == map_from(s@, from as int, op),
{
    let mut out: Vec<char> = Vec::new();
    let mut i: usize = from;
    while i < s.len()
        invariant
            from <= i,
            out@ + map_from(s@, i as int, op) == map_from(s@, from as int, op),
        decreases s.len() - i,
    {
        let m = case_char_exec(&op, s[i]);
        let ghost before = out@;
        extend_chars(&mut out, &m);
        i = i + 1;
        assert(before + (m@ + map_from(s@, i as int, op)) =~= out@ + map_from(s@, i as int, op));
    }
    assert(out@ + map_from(s@, i as int, op) =~= out@);
    out
}

/// `casefold()`: `ß`/`ẞ` fold to `ss`, both sigmas to `σ`, every other
/// character to its lowercase mapping.
pub fn unicode_casefold(s: &[char]) -> (r: Vec<char>)
    ensures
        r@ == map_from(s@, 0, CharCase::Fold),
{
    map_chars(s, 0, CharCase::Fold)
}

/// `title()` from position `i`: a character that is white space or not
/// alphanumeric is kept and starts a new word; the first character of a
/// word is uppercased and the others lowercased.
pub open spec fn title_from(s: Seq<char>, i: int, cap: bool) -> Seq<char>
    decreases s.len() - i,
{
    if i < 0 || i >= s.len() {
        Seq::empty()
    } else if is_unicode_ws(s[i]) || !char_alphanumeric(s[i]) {
        seq![s[i]] + title_from(s, i + 1, true)
    } else if cap {
        char_upper(s[i]) + title_from(s, i + 1, false)
    } else {
        char_lower(s[i]) + title_from(s, i + 1, false)
    }
}

/// `title()`.
pub fn title_chars(s: &[char]) -> (r: Vec<char>)
    ensures
        r@ == title_from(s@, 0, true),
{
    let mut out: Vec<char> = Vec::new();
    let mut i: usize = 0;
    let mut cap = true;
    while i < s.len()
        invariant
            out@ + title_from(s@, i as int, cap) == title_from(s@, 0, true),
        decreases s.len() - i,
    {
        let c = s[i];
        let ghost (before, oc) = (out@, cap);
        if is_whitespace_char(c) || !is_alphanumeric_char(c) {
            out.push(c);
            cap = true;
            i = i + 1;
            assert(before + (seq![c] + title_from(s@, i as int, cap)) =~= out@ + title_from(s@, i as int, cap));
        } else {
            let m = if cap { upper_of(c) } else { lower_of(c) };
            extend_chars(&mut out, &m);
            cap = false;
            i = i + 1;
            assert(before + (m@ + title_from(s@, i as int, cap)) =~= out@ + title_from(s@, i as int, cap));
        }
    }
    assert(out@ + title_from(s@, i as int, cap) =~= out@);
    out
}

/// `capitalize()`: the first character uppercased, the rest lowercased.
pub open spec fn spec_capitalize(s: Seq<char>) -> Seq<char> {
    if s.len() == 0 { Seq::empty() } else { char_upper(s[0]) + map_from(s, 1, CharCase::Lower) }
}

/// `capitalize()`.
pub fn capitalize_chars(s: &[char]) -> (r: Vec<char>)
    ensures
        r@ == spec_capitalize(s@),
{
    if s.len() == 0 {
        return Vec::new();
    }
    let mut out = upper_of(s[0]);
    let rest = map_chars(s, 1, CharCase::Lower);
    extend_chars(&mut out, &rest);
    out
}

/// The character classes of the `is...` predicates.
pub enum StrClass { Digit, Alpha, Alnum, Space, Upper, Lower }

/// What `isdigit`/`isalpha`/`isalnum`/`isspace`/`isupper`/`islower` return.
/// The first four ask for a non-empty string whose every character is in the
/// class (an ASCII digit for `isdigit`); `isupper` (`islower`) asks for some
/// uppercase (lowercase) character and none of the other case.
pub open spec fn spec_str_class(s: Seq<char>, op: StrClass) -> bool {
    match op {
        StrClass::Digit => s.len() > 0 && forall|i: int| 0 <= i < s.len() ==> '0' <= #[trigger] s[i] <= '9',
        StrClass::Alpha => s.len() > 0 && forall|i: int| 0 <= i < s.len() ==> char_alphabetic(#[trigger] s[i]),
        StrClass::Alnum => s.len() > 0 && forall|i: int| 0 <= i < s.len() ==> char_alphanumeric(#[trigger] s[i]),
        StrClass::Space => s.len() > 0 && forall|i: int| 0 <= i < s.len() ==> is_unicode_ws(#[trigger] s[i]),
        StrClass::Upper => (exists|i: int| 0 <= i < s.len() && char_uppercase(#[trigger] s[i]))
            && !(exists|i: int| 0 <= i < s.len() && char_lowercase(#[trigger] s[i])),
        StrClass::Lower => (exists|i: int| 0 <= i < s.len() && char_lowercase(#[trigger] s[i]))
            && !(exists|i: int| 0 <= i < s.len() && char_uppercase(#[trigger] s[i])),
    }
}

/// Whether some character of `s` is uppercase (`upper`) or lowercase.
fn any_cased(s: &[char], upper: bool) -> (r: bool)
    ensures
        r == (exists|i: int| 0 <= i < s@.len() && (if upper { char_uppercase(s@[i]) } else { char_lowercase(s@[i]) })),
{
    let mut i: usize = 0;
    while i < s.len()
        invariant
            i <= s@.len(),
            forall|j: int| 0 <= j < i ==> !(if upper { char_uppercase(#[trigger] s@[j]) } else { char_lowercase(s@[j]) }),
        decreases s.len() - i,
    {
        let hit = if upper { is_uppercase_char(s[i]) } else { is_lowercase_char(s[i]) };
        if hit {
            return true;
        }
        i = i + 1;
    }
    false
}

fn class_char(c: char, op: &StrClass) -> (r: bool)
    requires
        !(*op is Upper) && !(*op is Lower),
    ensures
        r == match *op {
            StrClass::Digit => '0' <= c <= '9',
            StrClass::Alpha => char_alphabetic(c),
            StrClass::Alnum => char_alphanumeric(c),
            _ => is_unicode_ws(c),
        },
{
    match op {
        StrClass::Digit => '0' <= c && c <= '9',
        StrClass::Alpha => is_alphabetic_char(c),
        StrClass::Alnum => is_alphanumeric_char(c),
        _ => is_whitespace_char(c),
    }
}

/// The `is...` predicates on `s`.
pub fn str_class(s: &[char], op: StrClass) -> (r: bool)
    ensures
        r == spec_str_class(s@, op),
{
    match op {
        StrClass::Upper => {
            let u = any_cased(s, true);
            let l = any_cased(s, false);
            u && !l
        },
        StrClass::Lower => {
            let u = any_cased(s, true);
            let l = any_cased(s, false);
            l && !u
        },
        _ => {
            if s.len() == 0 {
                return false;
            }
            let mut i: usize = 0;
            while i < s.len()
                invariant
                    i <= s@.len(),
                    !(op is Upper) && !(op is Lower),
                    forall|j: int| 0 <= j < i ==> match op {
                        StrClass::Digit => '0' <= #[trigger] s@[j] <= '9',
                        StrClass::Alpha => char_alphabetic(s@[j]),
                        StrClass::Alnum => char_alphanumeric(s@[j]),
                        _ => is_unicode_ws(s@[j]),
                    },
                decreases s.len() - i,
            {
                if !class_char(s[i], &op) {
                    return false;
                }
                i = i + 1;
            }
            true
        },
    }
}

// ---------------------------------------------------------------------------
// Padding
// ---------------------------------------------------------------------------

/// `n` copies of `c`.
pub open spec fn rep(c: char, n: int) -> Seq<char> {
    Seq::new(n as nat, |_i: int| c)
}

/// The width argument of the padding methods, or its error.
pub open spec fn spec_width_of(v: Value) -> Result<int, ErrSpec> {
    match spec_int_of(v) {
        None => Err(ErrSpec::Type(not_integer_msg(v))),
        Some(w) => if w < 0 || w > usize::MAX {
            Err(ErrSpec::Runtime("index overflow or negative"@))
        } else {
            Ok(w)
        },
    }
}

fn width_of(v: &Value) -> (r: Result<usize, EvalError>)
    ensures
        match spec_width_of(*v) {
            Ok(w) => r matches Ok(w2) && w2 == w,
            Err(es) => r matches Err(e) && err_matches(e, es),
        },
{
    let w = match value_to_i64(v) {
        Ok(w) => w,
        Err(e) => { return Err(e); },
    };
    to_index(w)
}

/// The fill character: the first character of a `str` second argument,
/// else a space.
pub open spec fn spec_fill_char(args: Seq<Value>) -> char {
    if args.len() >= 2 {
        match args[1] {
            Value::String(f) => if f@.len() > 0 { f@[0] } else { ' ' },
            _ => ' ',
        }
    } else {
        ' '
    }
}

/// `s` padded with `fill` to `width` (left-justified, right-justified or
/// centred, the odd character on the left exactly when `width` is odd);
/// unchanged when already that long.
pub open spec fn spec_str_pad(s: Seq<char>, width: int, fill: char, kind: PadKind) -> Seq<char> {
    if s.len() >= width {
        s
    } else {
        let total = width - s.len();
        match kind {
            PadKind::Left => s + rep(fill, total),
            PadKind::Right => rep(fill, total) + s,
            PadKind::Center => rep(fill, center_left(total, width)) + s + rep(fill, total - center_left(total, width)),
        }
    }
}

/// What `center`/`ljust`/`rjust(width[, fillchar])` return on `s`.
pub open spec fn spec_str_pad_method(s: Seq<char>, method: Seq<char>, args: Seq<Value>, kind: PadKind) -> Result<PyVal, ErrSpec> {
    if args.len() == 0 {
        Err(ErrSpec::Type(at_least_one_msg(method)))
    } else {
        match spec_width_of(args[0]) {
            Err(es) => Err(es),
            Ok(w) => Ok(PyVal::Str(spec_str_pad(s, w, spec_fill_char(args), kind))),
        }
    }
}

fn str_pad_method(s: &[char], method: &str, args: &[Value], kind: PadKind) -> (r: EvalResult)
    ensures
        result_matches(r, spec_str_pad_method(s@, method@, args@, kind)),
{
    if args.len() == 0 {
        return Err(type_error(concat_str(method, "() takes at least 1 argument")));
    }
    let width = match width_of(&args[0]) {
        Ok(w) => w,
        Err(e) => { return Err(e); },
    };
    let fill: char = if args.len() >= 2 {
        match &args[1] {
            Value::String(f) => {
                let fc = chars_of(f.as_str());
                if fc.len() > 0 { fc[0] } else { ' ' }
            },
            _ => ' ',
        }
    } else {
        ' '
    };
    let len = s.len();
    if len >= width {
        assert(s@.subrange(0, len as int) =~= s@);
        return Ok(str_value(s));
    }
    let total = width - len;
    let mut out: Vec<char> = Vec::new();
    match kind {
        PadKind::Left => {
            extend_chars(&mut out, s);
            push_repeat_char(&mut out, fill, total);
        },
        PadKind::Right => {
            push_repeat_char(&mut out, fill, total);
            extend_chars(&mut out, s);
        },
        PadKind::Center => {
            let left = center_left_exec(total, width);
            push_repeat_char(&mut out, fill, left);
            extend_chars(&mut out, s);
            push_repeat_char(&mut out, fill, total - left);
        },
    }
    assert(out@ =~= spec_str_pad(s@, width as int, fill, kind));
    Ok(str_value(&out))
}

/// `zfill(width)`: zeros inserted after a leading sign to reach `width`.
pub open spec fn spec_str_zfill(s: Seq<char>, width: int) -> Seq<char> {
    if s.len() >= width {
        s
    } else {
        let sign: int = if s.len() > 0 && (s[0] == '-' || s[0] == '+') { 1 } else { 0 };
        s.subrange(0, sign) + rep('0', width - s.len()) + s.subrange(sign, s.len() as int)
    }
}

/// What `zfill(width)` returns on `s`.
pub open spec fn spec_str_zfill_method(s: Seq<char>, args: Seq<Value>) -> Result<PyVal, ErrSpec> {
    if args.len() == 0 {
        Err(ErrSpec::Type("zfill() takes exactly 1 argument"@))
    } else {
        match spec_width_of(args[0]) {
            Err(es) => Err(es),
            Ok(w) => Ok(PyVal::Str(spec_str_zfill(s, w))),
        }
    }
}

fn str_zfill_method(s: &[char], args: &[Value]) -> (r: EvalResult)
    ensures
        result_matches(r, spec_str_zfill_method(s@, args@)),
{
    if args.len() == 0 {
        return Err(type_error(str_to_string("zfill() takes exactly 1 argument")));
    }
    let width = match width_of(&args[0]) {
        Ok(w) => w,
        Err(e) => { return Err(e); },
    };
    let len = s.len();
    if len >= width {
        assert(s@.subrange(0, len as int) =~= s@);
        return Ok(str_value(s));
    }
    let sign: usize = if len > 0 && (s[0] == '-' || s[0] == '+') { 1 } else { 0 };
    let mut out = sub_chars(s, 0, sign);
    push_repeat_char(&mut out, '0', width - len);
    let rest = sub_chars(s, sign, len);
    extend_chars(&mut out, &rest);
    Ok(str_value(&out))
}

// ---------------------------------------------------------------------------
// partition / removeprefix / removesuffix
// ---------------------------------------------------------------------------

/// What `partition`/`rpartition(sep)` give: the pieces around the first
/// (last) occurrence of `sep`, or the whole string in the head (tail) and two
/// empty strings.
pub open spec fn spec_str_partition(s: Seq<char>, sep: Seq<char>, from_right: bool) -> Seq<Seq<char>> {
    let p = if from_right { rfind_to(s, sep, s.len() as int) } else { find_from(s, sep, 0) };
    if p >= 0 {
        seq![s.subrange(0, p), sep, s.subrange(p + sep.len(), s.len() as int)]
    } else if from_right {
        seq![Seq::empty(), Seq::empty(), s]
    } else {
        seq![s, Seq::empty(), Seq::empty()]
    }
}

/// A tuple of `str` objects.
pub open spec fn str_tuple(parts: Seq<Seq<char>>) -> PyVal {
    PyVal::Tuple(Seq::new(parts.len(), |i: int| PyVal::Str(parts[i])))
}

/// What `partition`/`rpartition` return on `s`.
pub open spec fn spec_str_partition_method(s: Seq<char>, method: Seq<char>, args: Seq<Value>, from_right: bool) -> Result<PyVal, ErrSpec> {
    if args.len() == 0 {
        Err(ErrSpec::Type(method + "() requires 1 argument"@))
    } else {
        match args[0] {
            Value::String(sep) => Ok(str_tuple(spec_str_partition(s, sep@, from_right))),
            _ => Err(ErrSpec::Type(method + "() argument must be str"@)),
        }
    }
}

fn str_partition_method(s: &[char], method: &str, args: &[Value], from_right: bool) -> (r: EvalResult)
    ensures
        result_matches(r, spec_str_partition_method(s@, method@, args@, from_right)),
{
    if args.len() == 0 {
        return Err(type_error(concat_str(method, "() requires 1 argument")));
    }
    let sep = match &args[0] {
        Value::String(p) => chars_of(p.as_str()),
        _ => { return Err(type_error(concat_str(method, "() argument must be str"))); },
    };
    let n = s.len();
    proof {
        lemma_find_from_bounds(s@, sep@, 0);
        lemma_rfind_to_bounds(s@, sep@, n as int);
        assert(s@.subrange(0, n as int) =~= s@);
    }
    let found = if from_right { rfind_chars(s, &sep, 0, n) } else { find_chars(s, &sep, 0, n) };
    let ghost parts = spec_str_partition(s@, sep@, from_right);
    assert(sep@.subrange(0, sep@.len() as int) =~= sep@);
    let (a, b, c) = match found {
        Some(p) => {
            let t = (sub_chars(s, 0, p), sub_chars(&sep, 0, sep.len()), sub_chars(s, p + sep.len(), n));
            assert(seq![t.0@, t.1@, t.2@] =~= parts);
            t
        },
        None => if from_right {
            let t = (Vec::new(), Vec::new(), sub_chars(s, 0, n));
            assert(seq![t.0@, t.1@, t.2@] =~= parts);
            t
        } else {
            let t = (sub_chars(s, 0, n), Vec::new(), Vec::new());
            assert(seq![t.0@, t.1@, t.2@] =~= parts);
            t
        },
    };
    assert(seq![a@, b@, c@] == parts);
    let va = str_value(&a);
    let vb = str_value(&b);
    let vc = str_value(&c);
    let mut items: Vec<Value> = Vec::new();
    items.push(va);
    items.push(vb);
    items.push(vc);
    proof {
        assert(items@ =~= seq![va, vb, vc]);
        assert(view_items(items@).len() == 3);
        assert(view_items(items@)[0] == va@);
        assert(view_items(items@)[1] == vb@);
        assert(view_items(items@)[2] == vc@);
        assert(parts[0] == a@ && parts[1] == b@ && parts[2] == c@);
        assert(view_items(items@) =~= Seq::new(3, |i: int| PyVal::Str(parts[i])));
    }
    Ok(Value::Tuple(items))
}

/// What `removeprefix`/`removesuffix(affix)` return on `s`.
pub open spec fn spec_str_remove_affix(s: Seq<char>, method: Seq<char>, args: Seq<Value>, is_start: bool) -> Result<PyVal, ErrSpec> {
    if args.len() == 0 {
        Err(ErrSpec::Type(method + "() takes exactly 1 argument"@))
    } else {
        match args[0] {
            Value::String(p) => Ok(PyVal::Str(if !has_affix(s, p@, is_start) {
                s
            } else if is_start {
                s.subrange(p@.len() as int, s.len() as int)
            } else {
                s.subrange(0, s.len() - p@.len())
            })),
            _ => Err(ErrSpec::Type(method + "() argument must be str"@)),
        }
    }
}

fn str_remove_affix_method(s: &[char], method: &str, args: &[Value], is_start: bool) -> (r: EvalResult)
    ensures
        result_matches(r, spec_str_remove_affix(s@, method@, args@, is_start)),
{
    if args.len() == 0 {
        return Err(type_error(concat_str(method, "() takes exactly 1 argument")));
    }
    let p = match &args[0] {
        Value::String(p) => chars_of(p.as_str()),
        _ => { return Err(type_error(concat_str(method, "() argument must be str"))); },
    };
    let n = s.len();
    if !chars_have_affix(s, &p, is_start) {
        assert(s@.subrange(0, n as int) =~= s@);
        Ok(str_value(&sub_chars(s, 0, n)))
    } else if is_start {
        Ok(str_value(&sub_chars(s, p.len(), n)))
    } else {
        Ok(str_value(&sub_chars(s, 0, n - p.len())))
    }
}

// ---------------------------------------------------------------------------
// encode / expandtabs
// ---------------------------------------------------------------------------

/// The parameters of `encode`.
pub open spec fn encode_params() -> Seq<&'static str> {
    seq!["encoding", "errors"]
}

/// The Latin-1 bytes of `s`, when every character is below 256.
pub open spec fn latin1_bytes(s: Seq<char>) -> Seq<u8> {
    Seq::new(s.len(), |i: int| (s[i] as u32) as u8)
}

/// Encoding `s` with the codec of the lowercased name `lname`.
pub open spec fn spec_encode_named(s: Seq<char>, lname: Seq<char>) -> Result<PyVal, ErrSpec> {
    if is_utf8_name(lname) {
        Ok(PyVal::Bytes(encode_utf8(s)))
    } else if is_ascii_name(lname) {
        if is_ascii_chars(s) {
            Ok(PyVal::Bytes(encode_utf8(s)))
        } else {
            Err(ErrSpec::Exc("UnicodeEncodeError"@, "'ascii' codec can't encode character"@))
        }
    } else if is_latin1_name(lname) {
        if forall|i: int| 0 <= i < s.len() ==> (#[trigger] s[i] as u32) <= 0xff {
            Ok(PyVal::Bytes(latin1_bytes(s)))
        } else {
            Err(ErrSpec::Exc("UnicodeEncodeError"@, "'latin-1' codec can't encode character"@))
        }
    } else {
        Err(ErrSpec::Value("unknown encoding: "@ + lname))
    }
}

/// What `encode(encoding="utf-8", errors="strict")` returns on `s`; only
/// UTF-8, ASCII and Latin-1 are known, and `errors` is accepted and unused.
pub open spec fn spec_str_encode(s: Seq<char>, method: Seq<char>, args: Seq<Value>, kws: Seq<(Seq<char>, Value)>) -> Result<PyVal, ErrSpec> {
    match spec_bind(method, args, kws, encode_params()) {
        Err(m) => Err(ErrSpec::Type(m)),
        Ok(b) => match b[0] {
            None => Ok(PyVal::Bytes(encode_utf8(s))),
            Some(PyVal::Str(name)) => spec_encode_named(s, ascii_lower_chars(name)),
            Some(_) => Err(ErrSpec::Type("encode() argument must be str"@)),
        },
    }
}

/// The UTF-8 bytes of `s`.
fn utf8_bytes(s: &str) -> (r: Vec<u8>)
    ensures
        r@ == encode_utf8(s@),
{
    let b = s.as_bytes();
    crate::bytes_methods::sub_bytes(b, 0, b.len())
}

fn str_encode_method(s: &str, method: &str, args: &[Value], kwargs: &IndexMap<String, Value>) -> (r: EvalResult)
    ensures
        result_matches(r, spec_str_encode(s@, method@, args@, kwarg_entries(*kwargs))),
{
    let params: [&str; 2] = ["encoding", "errors"];
    assert(params@ =~= encode_params());
    let bound = match bind_method_params(method, args, kwargs, &params) {
        Ok(b) => b,
        Err(e) => { return Err(e); },
    };
    assert(opt_view(bound@[0]) == spec_bind(method@, args@, kwarg_entries(*kwargs), encode_params())->Ok_0[0]);
    let enc = match &bound[0] {
        None => { return Ok(Value::Bytes(utf8_bytes(s))); },
        Some(Value::String(name)) => chars_of(name.as_str()),
        Some(_) => { return Err(type_error(str_to_string("encode() argument must be str"))); },
    };
    let lower = to_ascii_lower_chars(&enc);
    let lname = string_from_chars(&lower);
    let l = lname.as_str();
    if str_eq(l, "utf-8") || str_eq(l, "utf_8") || str_eq(l, "u8") {
        Ok(Value::Bytes(utf8_bytes(s)))
    } else if str_eq(l, "ascii") || str_eq(l, "us-ascii") {
        if s.is_ascii() {
            Ok(Value::Bytes(utf8_bytes(s)))
        } else {
            Err(exception("UnicodeEncodeError", str_to_string("'ascii' codec can't encode character")))
        }
    } else if str_eq(l, "latin-1") || str_eq(l, "latin1") || str_eq(l, "iso-8859-1") || str_eq(l, "iso8859-1") {
        let cs = chars_of(s);
        let ghost goal = spec_str_encode(s@, method@, args@, kwarg_entries(*kwargs));
        assert(goal == spec_encode_named(s@, lname@));
        let mut out: Vec<u8> = Vec::new();
        let mut i: usize = 0;
        while i < cs.len()
            invariant
                cs@ == s@,
                goal == spec_encode_named(s@, lname@),
                goal == spec_str_encode(s@, method@, args@, kwarg_entries(*kwargs)),
                is_latin1_name(lname@) && !is_utf8_name(lname@) && !is_ascii_name(lname@),
                i <= cs@.len(),
                forall|j: int| 0 <= j < i ==> (#[trigger] cs@[j] as u32) <= 0xff,
                out@ == latin1_bytes(cs@).subrange(0, i as int),
            decreases cs.len() - i,
        {
            let u = cs[i] as u32;
            if u > 0xff {
                assert(!(forall|j: int| 0 <= j < s@.len() ==> (#[trigger] s@[j] as u32) <= 0xff));
                return Err(exception("UnicodeEncodeError", str_to_string("'latin-1' codec can't encode character")));
            }
            out.push(u as u8);
            i = i + 1;
            assert(out@ =~= latin1_bytes(cs@).subrange(0, i as int));
        }
        assert(latin1_bytes(cs@).subrange(0, cs@.len() as int) =~= latin1_bytes(cs@));
        Ok(Value::Bytes(out))
    } else {
        Err(value_error(concat_str("unknown encoding: ", l)))
    }
}

/// The parameters of `expandtabs`.
pub open spec fn tabsize_params() -> Seq<&'static str> {
    seq!["tabsize"]
}

/// The tab size: an `int` (negative as 0, too large for the machine as 0),
/// a `bool` as 0/1, 8 when missing; anything else raises `TypeError`.
pub open spec fn spec_tabsize(o: Option<PyVal>) -> Result<int, ErrSpec> {
    match o {
        None => Ok(8),
        Some(PyVal::Int(n)) => Ok(if n < 0 || n > usize::MAX { 0 } else { n }),
        Some(PyVal::Bool(b)) => Ok(if b { 1int } else { 0int }),
        Some(_) => Err(ErrSpec::Type("expandtabs() argument must be int"@)),
    }
}

/// `s` from position `i`, at column `col`, with each tab expanded to the
/// next multiple of `tab` (to nothing when `tab` is 0); a newline or
/// carriage return resets the column.
pub open spec fn expand_from(s: Seq<char>, i: int, col: int, tab: int) -> Seq<char>
    decreases s.len() - i,
{
    if i < 0 || i >= s.len() {
        Seq::empty()
    } else if s[i] == '\t' {
        let pad = if tab <= 0 { 0 } else { tab - col % tab };
        rep(' ', pad) + expand_from(s, i + 1, col + pad, tab)
    } else if s[i] == '\n' || s[i] == '\r' {
        seq![s[i]] + expand_from(s, i + 1, 0, tab)
    } else {
        seq![s[i]] + expand_from(s, i + 1, col + 1, tab)
    }
}

/// What `expandtabs(tabsize=8)` returns on `s`.
pub open spec fn spec_str_expandtabs(s: Seq<char>, method: Seq<char>, args: Seq<Value>, kws: Seq<(Seq<char>, Value)>) -> Result<PyVal, ErrSpec> {
    match spec_bind(method, args, kws, tabsize_params()) {
        Err(m) => Err(ErrSpec::Type(m)),
        Ok(b) => match spec_tabsize(b[0]) {
            Err(es) => Err(es),
            Ok(tab) => Ok(PyVal::Str(expand_from(s, 0, 0, tab))),
        },
    }
}

proof fn lemma_tab_column(col: int, tab: int)
    requires
        tab > 0,
        col >= 0,
    ensures
        (col + (tab - col % tab)) % tab == 0,
        (col + 1) % tab == (if col % tab + 1 == tab { 0 } else { col % tab + 1 }),
{
    let q = col / tab;
    let r = col % tab;
    vstd::arithmetic::div_mod::lemma_fundamental_div_mod(col, tab);
    assert(0 <= r < tab) by {
        vstd::arithmetic::div_mod::lemma_mod_bound(col, tab);
    }
    assert(col == q * tab + r) by(nonlinear_arith)
        requires col == tab * (col / tab) + col % tab, q == col / tab, r == col % tab;
    assert(col + (tab - r) == (q + 1) * tab + 0) by(nonlinear_arith)
        requires col == q * tab + r;
    vstd::arithmetic::div_mod::lemma_fundamental_div_mod_converse_mod(col + (tab - r), tab, q + 1, 0);
    if r + 1 == tab {
        vstd::arithmetic::div_mod::lemma_fundamental_div_mod_converse_mod(col + 1, tab, q + 1, 0);
    } else {
        assert(col + 1 == q * tab + (r + 1));
        vstd::arithmetic::div_mod::lemma_fundamental_div_mod_converse_mod(col + 1, tab, q, r + 1);
    }
}

/// Expand the tabs of `s` to multiples of `tab` columns.
pub fn expand_tabs(s: &[char], tab: usize) -> (r: Vec<char>)
    ensures
        r@ == expand_from(s@, 0, 0, tab as int),
{
    let mut out: Vec<char> = Vec::new();
    let mut i: usize = 0;
    // The column modulo `tab` (the column itself when `tab` is 0).
    let mut cm: usize = 0;
    let ghost mut col: int = 0;
    while i < s.len()
        invariant
            i <= s@.len(),
            col >= 0,
            tab > 0 ==> cm == col % (tab as int) && cm < tab,
            out@ + expand_from(s@, i as int, col, tab as int) == expand_from(s@, 0, 0, tab as int),
        decreases s.len() - i,
    {
        let c = s[i];
        let ghost before = out@;
        let ghost ocol = col;
        if c == '\t' {
            let pad: usize = if tab == 0 { 0 } else { tab - cm };
            push_repeat_char(&mut out, ' ', pad);
            proof {
                if tab > 0 {
                    lemma_tab_column(col, tab as int);
                }
                col = col + pad;
            }
            cm = 0;
            i = i + 1;
            assert(before + (rep(' ', pad as int) + expand_from(s@, i as int, col, tab as int)) =~= out@ + expand_from(s@, i as int, col, tab as int));
        } else if c == '\n' || c == '\r' {
            out.push(c);
            proof { col = 0; }
            cm = 0;
            i = i + 1;
            if tab > 0 {
                assert(0int % (tab as int) == 0) by {
                    vstd::arithmetic::div_mod::lemma_small_mod(0, tab as nat);
                }
            }
            assert(before + (seq![c] + expand_from(s@, i as int, col, tab as int)) =~= out@ + expand_from(s@, i as int, col, tab as int));
        } else {
            out.push(c);
            proof {
                if tab > 0 {
                    lemma_tab_column(col, tab as int);
                }
                col = col + 1;
            }
            if tab > 0 {
                cm = if cm + 1 == tab { 0 } else { cm + 1 };
            }
            i = i + 1;
            assert(before + (seq![c] + expand_from(s@, i as int, col, tab as int)) =~= out@ + expand_from(s@, i as int, col, tab as int));
        }
    }
    assert(out@ + expand_from(s@, i as int, col, tab as int) =~= out@);
    out
}

fn str_expandtabs_method(s: &[char], method: &str, args: &[Value], kwargs: &IndexMap<String, Value>) -> (r: EvalResult)
    ensures
        result_matches(r, spec_str_expandtabs(s@, method@, args@, kwarg_entries(*kwargs))),
{
    let params: [&str; 1] = ["tabsize"];
    assert(params@ =~= tabsize_params());
    let bound = match bind_method_params(method, args, kwargs, &params) {
        Ok(b) => b,
        Err(e) => { return Err(e); },
    };
    assert(opt_view(bound@[0]) == spec_bind(method@, args@, kwarg_entries(*kwargs), tabsize_params())->Ok_0[0]);
    let tab: usize = match &bound[0] {
        None => 8,
        Some(Value::Int(n)) => if *n < 0 || *n as u64 > usize::MAX as u64 { 0 } else { *n as usize },
        Some(Value::Bool(b)) => if *b { 1 } else { 0 },
        Some(_) => { return Err(type_error(str_to_string("expandtabs() argument must be int"))); },
    };
    Ok(str_value(&expand_tabs(s, tab)))
}

// ---------------------------------------------------------------------------
// The `str` method table
// ---------------------------------------------------------------------------

/// The `str` methods that take keyword arguments.
pub open spec fn takes_keywords(method: Seq<char>) -> bool {
    method == "split"@ || method == "rsplit"@ || method == "encode"@ || method == "expandtabs"@
}

/// What each `str` method returns on the characters `s`.
pub open spec fn spec_str_method(s: Seq<char>, method: Seq<char>, args: Seq<Value>, kws: Seq<(Seq<char>, Value)>) -> Result<PyVal, ErrSpec> {
    if method == "upper"@ { Ok(PyVal::Str(str_upper(s))) }
    else if method == "lower"@ { Ok(PyVal::Str(str_lower(s))) }
    else if method == "strip"@ || method == "lstrip"@ || method == "rstrip"@ {
        match spec_strip_arg(method, args) {
            Ok(set) => Ok(PyVal::Str(spec_strip_chars(s, set, method != "rstrip"@, method != "lstrip"@))),
            Err(es) => Err(es),
        }
    }
    else if method == "split"@ { spec_str_split(s, method, args, kws, false) }
    else if method == "rsplit"@ { spec_str_split(s, method, args, kws, true) }
    else if method == "join"@ { spec_str_join(s, args) }
    else if method == "replace"@ { spec_str_replace(s, args) }
    else if method == "startswith"@ { spec_string_affix(s, method, args, true) }
    else if method == "endswith"@ { spec_string_affix(s, method, args, false) }
    else if method == "casefold"@ { Ok(PyVal::Str(map_from(s, 0, CharCase::Fold))) }
    else if method == "encode"@ { spec_str_encode(s, method, args, kws) }
    else if method == "expandtabs"@ { spec_str_expandtabs(s, method, args, kws) }
    else if method == "partition"@ || method == "rpartition"@ {
        spec_str_partition_method(s, method, args, method == "rpartition"@)
    }
    else if method == "removeprefix"@ || method == "removesuffix"@ {
        spec_str_remove_affix(s, method, args, method == "removeprefix"@)
    }
    else if method == "find"@ { spec_str_search(s, method, args, false, false) }
    else if method == "rfind"@ { spec_str_search(s, method, args, true, false) }
    else if method == "index"@ { spec_str_search(s, method, args, false, true) }
    else if method == "rindex"@ { spec_str_search(s, method, args, true, true) }
    else if method == "count"@ { spec_str_count(s, method, args) }
    else if method == "isdigit"@ { Ok(PyVal::Bool(spec_str_class(s, StrClass::Digit))) }
    else if method == "isalpha"@ { Ok(PyVal::Bool(spec_str_class(s, StrClass::Alpha))) }
    else if method == "isalnum"@ { Ok(PyVal::Bool(spec_str_class(s, StrClass::Alnum))) }
    else if method == "isspace"@ { Ok(PyVal::Bool(spec_str_class(s, StrClass::Space))) }
    else if method == "isupper"@ { Ok(PyVal::Bool(spec_str_class(s, StrClass::Upper))) }
    else if method == "islower"@ { Ok(PyVal::Bool(spec_str_class(s, StrClass::Lower))) }
    else if method == "title"@ { Ok(PyVal::Str(title_from(s, 0, true))) }
    else if method == "capitalize"@ { Ok(PyVal::Str(spec_capitalize(s))) }
    else if method == "swapcase"@ { Ok(PyVal::Str(map_from(s, 0, CharCase::Swap))) }
    else if method == "center"@ { spec_str_pad_method(s, method, args, PadKind::Center) }
    else if method == "ljust"@ { spec_str_pad_method(s, method, args, PadKind::Left) }
    else if method == "rjust"@ { spec_str_pad_method(s, method, args, PadKind::Right) }
    else if method == "zfill"@ { spec_str_zfill_method(s, args) }
    else { Err(ErrSpec::Attribute(no_attr_msg("str"@, method))) }
}

/// What a call of a `str` method returns: methods other than `split`,
/// `rsplit`, `encode` and `expandtabs` are positional-only and raise
/// `TypeError` on a keyword argument.
pub open spec fn spec_dispatch_str(s: Seq<char>, method: Seq<char>, args: Seq<Value>, kws: Seq<(Seq<char>, Value)>) -> Result<PyVal, ErrSpec> {
    if kws.len() > 0 && !takes_keywords(method) {
        Err(ErrSpec::Type(unexpected_kwarg_msg(method, kws[0].0)))
    } else {
        spec_str_method(s, method, args, kws)
    }
}

/// Dispatch a method call on a `str` receiver: case conversion, stripping,
/// splitting, joining, replacing, affix tests, encoding, tab expansion,
/// partitioning, search and counting, character classes and padding.
#[verifier::rlimit(80)]
pub fn dispatch_string_method(s: &str, method: &str, args: &[Value], kwargs: &IndexMap<String, Value>) -> (r: EvalResult)
    requires
        s@.len() < usize::MAX,
    ensures
        result_matches(r, spec_dispatch_str(s@, method@, args@, kwarg_entries(*kwargs))),
{
    let m = method;
    if crate::kwargs::kwargs_len(kwargs) > 0
        && !(str_eq(m, "split") || str_eq(m, "rsplit") || str_eq(m, "encode") || str_eq(m, "expandtabs")) {
        match reject_kwargs(method, kwargs) {
            Ok(()) => {},
            Err(e) => { return Err(e); },
        }
    }
    let cs = chars_of(s);
    if str_eq(m, "upper") { Ok(Value::String(to_upper_str(s))) }
    else if str_eq(m, "lower") { Ok(Value::String(to_lower_str(s))) }
    else if str_eq(m, "strip") || str_eq(m, "lstrip") || str_eq(m, "rstrip") {
        match strip_chars(method, args) {
            Ok(set) => Ok(str_value(&strip_str(&cs, &set, !str_eq(m, "rstrip"), !str_eq(m, "lstrip")))),
            Err(e) => Err(e),
        }
    }
    else if str_eq(m, "split") { str_split_method(&cs, method, args, kwargs, false) }
    else if str_eq(m, "rsplit") { str_split_method(&cs, method, args, kwargs, true) }
    else if str_eq(m, "join") { str_join(&cs, args) }
    else if str_eq(m, "replace") { str_replace(&cs, args) }
    else if str_eq(m, "startswith") { string_affix(&cs, method, args, true) }
    else if str_eq(m, "endswith") { string_affix(&cs, method, args, false) }
    else if str_eq(m, "casefold") { Ok(str_value(&unicode_casefold(&cs))) }
    else if str_eq(m, "encode") { str_encode_method(s, method, args, kwargs) }
    else if str_eq(m, "expandtabs") { str_expandtabs_method(&cs, method, args, kwargs) }
    else if str_eq(m, "partition") || str_eq(m, "rpartition") {
        str_partition_method(&cs, method, args, str_eq(m, "rpartition"))
    }
    else if str_eq(m, "removeprefix") || str_eq(m, "removesuffix") {
        str_remove_affix_method(&cs, method, args, str_eq(m, "removeprefix"))
    }
    else if str_eq(m, "find") { str_search(&cs, method, args, false, false) }
    else if str_eq(m, "rfind") { str_search(&cs, method, args, true, false) }
    else if str_eq(m, "index") { str_search(&cs, method, args, false, true) }
    else if str_eq(m, "rindex") { str_search(&cs, method, args, true, true) }
    else if str_eq(m, "count") { str_count(&cs, method, args) }
    else if str_eq(m, "isdigit") { Ok(Value::Bool(str_class(&cs, StrClass::Digit))) }
    else if str_eq(m, "isalpha") { Ok(Value::Bool(str_class(&cs, StrClass::Alpha))) }
    else if str_eq(m, "isalnum") { Ok(Value::Bool(str_class(&cs, StrClass::Alnum))) }
    else if str_eq(m, "isspace") { Ok(Value::Bool(str_class(&cs, StrClass::Space))) }
    else if str_eq(m, "isupper") { Ok(Value::Bool(str_class(&cs, StrClass::Upper))) }
    else if str_eq(m, "islower") { Ok(Value::Bool(str_class(&cs, StrClass::Lower))) }
    else if str_eq(m, "title") { Ok(str_value(&title_chars(&cs))) }
    else if str_eq(m, "capitalize") { Ok(str_value(&capitalize_chars(&cs))) }
    else if str_eq(m, "swapcase") { Ok(str_value(&map_chars(&cs, 0, CharCase::Swap))) }
    else if str_eq(m, "center") { str_pad_method(&cs, method, args, PadKind::Center) }
    else if str_eq(m, "ljust") { str_pad_method(&cs, method, args, PadKind::Left) }
    else if str_eq(m, "rjust") { str_pad_method(&cs, method, args, PadKind::Right) }
    else if str_eq(m, "zfill") { str_zfill_method(&cs, args) }
    else { Err(no_attribute("str", method)) }
}

// ---------------------------------------------------------------------------
// Laws
// ---------------------------------------------------------------------------

/// `parts` joined with `sep` between consecutive pieces.
pub open spec fn join_seq(parts: Seq<Seq<char>>, sep: Seq<char>) -> Seq<char>
    decreases parts.len(),
{
    if parts.len() == 0 {
        Seq::empty()
    } else if parts.len() == 1 {
        parts[0]
    } else {
        join_seq(parts.drop_last(), sep) + sep + parts.last()
    }
}

proof fn lemma_join_seq_prepend(x: Seq<char>, rest: Seq<Seq<char>>, sep: Seq<char>)
    requires
        rest.len() > 0,
    ensures
        join_seq(seq![x] + rest, sep) == x + sep + join_seq(rest, sep),
    decreases rest.len(),
{
    let all = seq![x] + rest;
    if rest.len() == 1 {
        assert(all.drop_last() =~= seq![x]);
        assert(all.last() == rest[0]);
        assert(join_seq(seq![x], sep) == x);
        assert(join_seq(rest, sep) == rest[0]);
        assert(join_seq(all, sep) == join_seq(seq![x], sep) + sep + rest[0]);
    } else {
        lemma_join_seq_prepend(x, rest.drop_last(), sep);
        assert(all.drop_last() =~= seq![x] + rest.drop_last());
        assert(all.last() == rest.last());
        assert(join_seq(all, sep) == join_seq(all.drop_last(), sep) + sep + all.last());
        assert(join_seq(rest, sep) == join_seq(rest.drop_last(), sep) + sep + rest.last());
        assert(join_seq(all, sep) =~= x + sep + join_seq(rest, sep));
    }
}

proof fn lemma_splitn_nonempty(s: Seq<char>, sep: Seq<char>, start: int, i: int, left: int)
    ensures
        splitn_from(s, sep, start, i, left).len() > 0,
    decreases s.len() - i,
{
    if !(left == 0 || sep.len() == 0 || i < 0 || i + sep.len() > s.len()) {
        if occurs_at(s, sep, i) {
            lemma_splitn_nonempty(s, sep, i + sep.len(), i + sep.len(), dec_budget(left));
        } else {
            lemma_splitn_nonempty(s, sep, start, i + 1, left);
        }
    }
}

/// The pieces of a split, joined back with the separator, give the string
/// split (from `start`).
proof fn lemma_join_splitn(s: Seq<char>, sep: Seq<char>, start: int, i: int, left: int)
    requires
        sep.len() > 0,
        0 <= start <= i <= s.len(),
    ensures
        join_seq(splitn_from(s, sep, start, i, left), sep) == s.subrange(start, s.len() as int),
    decreases s.len() - i,
{
    if left == 0 || i + sep.len() > s.len() {
    } else if occurs_at(s, sep, i) {
        let j = i + sep.len();
        lemma_join_splitn(s, sep, j, j, dec_budget(left));
        lemma_splitn_nonempty(s, sep, j, j, dec_budget(left));
        lemma_join_seq_prepend(s.subrange(start, i), splitn_from(s, sep, j, j, dec_budget(left)), sep);
        assert(s.subrange(start, i) + sep + s.subrange(j, s.len() as int) =~= s.subrange(start, s.len() as int));
    } else {
        lemma_join_splitn(s, sep, start, i + 1, left);
    }
}

/// Joining `str` items of a list: the join of their strings.
proof fn lemma_str_join_list(parts: Seq<Seq<char>>, sep: Seq<char>, k: int)
    requires
        0 <= k <= parts.len(),
    ensures
        str_join_prefix(Seq::new(parts.len(), |i: int| PyVal::Str(parts[i])), sep, k) == Ok::<Seq<char>, ErrSpec>(join_seq(parts.take(k), sep)),
    decreases k,
{
    if k > 0 {
        lemma_str_join_list(parts, sep, k - 1);
        assert(parts.take(k).drop_last() =~= parts.take(k - 1));
    }
}

/// The lengths and leading characters of the method names that come before
/// `split` and `join` in the table, which tell them apart.
proof fn lemma_split_join_names()
    ensures
        "upper"@.len() == 5 && "upper"@[0] == 'u',
        "lower"@.len() == 5 && "lower"@[0] == 'l',
        "strip"@.len() == 5 && "strip"@[1] == 't',
        "lstrip"@.len() == 6,
        "rstrip"@.len() == 6,
        "split"@.len() == 5 && "split"@[0] == 's' && "split"@[1] == 'p',
        "rsplit"@.len() == 6,
        "join"@.len() == 4,
{
    reveal_strlit("upper");
    reveal_strlit("lower");
    reveal_strlit("strip");
    reveal_strlit("lstrip");
    reveal_strlit("rstrip");
    reveal_strlit("split");
    reveal_strlit("rsplit");
    reveal_strlit("join");
}

/// Splitting a string on a non-empty separator and joining the pieces with
/// that separator gives the string back.
pub proof fn law_split_then_join(s: Seq<char>, sep: String, parts: Value)
    requires
        sep@.len() > 0,
        spec_dispatch_str(s, "split"@, seq![Value::String(sep)], Seq::empty()) == Ok::<PyVal, ErrSpec>(parts@),
    ensures
        spec_dispatch_str(sep@, "join"@, seq![parts], Seq::empty()) == Ok::<PyVal, ErrSpec>(PyVal::Str(s)),
{
    lemma_split_join_names();
    reveal_strlit("sep");
    reveal_strlit("maxsplit");
    let pieces = splitn_from(s, sep@, 0, 0, -1);
    assert(spec_bind("split"@, seq![Value::String(sep)], Seq::empty(), split_params())->Ok_0
        =~= seq![Some(PyVal::Str(sep@)), None]);
    assert(parts@ == str_list(pieces));
    lemma_join_splitn(s, sep@, 0, 0, -1);
    lemma_str_join_list(pieces, sep@, pieces.len() as int);
    assert(pieces.take(pieces.len() as int) =~= pieces);
    assert(s.subrange(0, s.len() as int) =~= s);
}

/// Encoding a string (UTF-8, the default) and decoding the bytes (UTF-8,
/// the default) gives the string back.
pub proof fn law_encode_then_decode(s: Seq<char>, out: Seq<u8>)
    requires
        spec_str_encode(s, "encode"@, Seq::empty(), Seq::empty()) == Ok::<PyVal, ErrSpec>(PyVal::Bytes(out)),
    ensures
        crate::bytes_methods::spec_bytes_decode(out, Seq::empty()) == Ok::<PyVal, ErrSpec>(PyVal::Str(s)),
{
    reveal_strlit("encoding");
    reveal_strlit("errors");
    reveal_strlit("utf-8");
    assert(spec_bind("encode"@, Seq::empty(), Seq::empty(), encode_params())->Ok_0 =~= seq![None, None]);
    assert(out == encode_utf8(s));
    assert(ascii_lower_chars("utf-8"@) =~= "utf-8"@);
    vstd::utf8::encode_utf8_valid_utf8(s);
    vstd::utf8::encode_utf8_decode_utf8(s);
}

/// `partition`/`rpartition` cut the string in three pieces that put back
/// together give the string; when the separator occurs, the middle piece is
/// the separator.
pub proof fn law_partition_reassembles(s: Seq<char>, sep: Seq<char>, from_right: bool)
    ensures
        ({
            let parts = spec_str_partition(s, sep, from_right);
            &&& parts.len() == 3
            &&& parts[0] + parts[1] + parts[2] == s
            &&& (parts[1] == sep || parts[1].len() == 0)
        }),
{
    lemma_find_from_bounds(s, sep, 0);
    lemma_rfind_to_bounds(s, sep, s.len() as int);
    lemma_find_from_occurs(s, sep, 0);
    lemma_rfind_to_occurs(s, sep, s.len() as int);
    let p = if from_right { rfind_to(s, sep, s.len() as int) } else { find_from(s, sep, 0) };
    if p >= 0 {
        assert(s.subrange(p, p + sep.len()) == sep);
        assert(s.subrange(0, p) + sep + s.subrange(p + sep.len(), s.len() as int) =~= s);
    } else if from_right {
        assert(Seq::<char>::empty() + Seq::<char>::empty() + s =~= s);
    } else {
        assert(s + Seq::<char>::empty() + Seq::<char>::empty() =~= s);
    }
}

proof fn lemma_find_from_occurs(hay: Seq<char>, pat: Seq<char>, from: int)
    ensures
        find_from(hay, pat, from) >= 0 ==> occurs_at(hay, pat, find_from(hay, pat, from)),
    decreases hay.len() - from,
{
    if !(from < 0 || from + pat.len() > hay.len()) && !occurs_at(hay, pat, from) && from < hay.len() {
        lemma_find_from_occurs(hay, pat, from + 1);
    }
}

proof fn lemma_rfind_to_occurs(hay: Seq<char>, pat: Seq<char>, end: int)
    ensures
        rfind_to(hay, pat, end) >= 0 ==> occurs_at(hay, pat, rfind_to(hay, pat, end)),
    decreases end,
{
    if !(end < pat.len() || end > hay.len()) && !occurs_at(hay, pat, end - pat.len()) && end > 0 {
        lemma_rfind_to_occurs(hay, pat, end - 1);
    }
}

/// Removing a prefix from a string that starts with it leaves the rest.
pub proof fn law_removeprefix_of_prefixed(p: String, t: Seq<char>)
    ensures
        spec_str_remove_affix(p@ + t, "removeprefix"@, seq![Value::String(p)], true) == Ok::<PyVal, ErrSpec>(PyVal::Str(t)),
{
    let s = p@ + t;
    assert(s.subrange(0, p@.len() as int) =~= p@);
    assert(s.subrange(p@.len() as int, s.len() as int) =~= t);
}

/// The padding methods give exactly `width` characters when the string is
/// shorter, and the string itself otherwise; the string keeps its place
/// (left for `ljust`, right for `rjust`, the middle for `center`).
pub proof fn law_pad_width(s: Seq<char>, width: int, fill: char, kind: PadKind)
    ensures
        spec_str_pad(s, width, fill, kind).len() == if s.len() >= width { s.len() as int } else { width },
        s.len() < width ==> match kind {
            PadKind::Left => spec_str_pad(s, width, fill, kind).subrange(0, s.len() as int) == s,
            PadKind::Right => spec_str_pad(s, width, fill, kind).subrange(width - s.len(), width) == s,
            PadKind::Center => spec_str_pad(s, width, fill, kind).subrange(center_left(width - s.len(), width),
                center_left(width - s.len(), width) + s.len()) == s,
        },
{
    if s.len() < width {
        let total = width - s.len();
        let r = spec_str_pad(s, width, fill, kind);
        match kind {
            PadKind::Left => { assert(r.subrange(0, s.len() as int) =~= s); },
            PadKind::Right => { assert(r.subrange(width - s.len(), width) =~= s); },
            PadKind::Center => { assert(r.subrange(center_left(total, width), center_left(total, width) + s.len()) =~= s); },
        }
    }
}

/// `zfill(w)` on a text shorter than `w` gives exactly `w` characters: a
/// leading `+` or `-` stays first, then `w - len` zeros, then the rest of
/// the text; without a sign the zeros come first. A text at least `w` long
/// is returned as it is.
pub proof fn law_zfill_pads_after_the_sign(s: Seq<char>, w: i64)
    requires
        0 <= w <= usize::MAX,
    ensures
        match spec_str_zfill_method(s, seq![Value::Int(w)]) {
            Ok(PyVal::Str(r)) => {
                let z = w - s.len();
                if s.len() >= w {
                    r == s
                } else if s.len() > 0 && (s[0] == '+' || s[0] == '-') {
                    &&& r.len() == w
                    &&& r[0] == s[0]
                    &&& forall|k: int| 1 <= k <= z ==> r[k] == '0'
                    &&& forall|k: int| z < k < w ==> r[k] == s[k - z]
                } else {
                    &&& r.len() == w
                    &&& forall|k: int| 0 <= k < z ==> r[k] == '0'
                    &&& forall|k: int| z <= k < w ==> r[k] == s[k - z]
                }
            },
            _ => false,
        },
{
    assert(spec_int_of(Value::Int(w)) == Some(w as int));
    assert(spec_width_of(Value::Int(w)) == Ok::<int, ErrSpec>(w as int));
    let r = spec_str_zfill(s, w as int);
    let z = w - s.len();
    if s.len() < w {
        if s.len() > 0 && (s[0] == '+' || s[0] == '-') {
            let a = s.subrange(0, 1);
            let m = rep('0', z);
            let t = s.subrange(1, s.len() as int);
            assert(r == a + m + t);
            assert forall|k: int| 1 <= k <= z implies r[k] == '0' by {
                assert((a + m)[k] == m[k - 1]);
            }
            assert forall|k: int| z < k < w implies r[k] == s[k - z] by {
                assert(r[k] == t[k - 1 - z]);
            }
        } else {
            let m = rep('0', z);
            assert(r =~= m + s);
        }
    }
}

/// `center(w, fill)` on a text shorter than `w` puts half the padding on
/// each side; an odd fill character goes on the left when `w` is odd and
/// on the right when it is even.
pub proof fn law_center_splits_padding(s: Seq<char>, w: int, fill: char)
    requires
        s.len() < w,
    ensures
        ({
            let r = spec_str_pad(s, w, fill, PadKind::Center);
            let total = w - s.len();
            let left = if total % 2 == 1 && w % 2 == 1 { total / 2 + 1 } else { total / 2 };
            &&& r.len() == w
            &&& forall|k: int| 0 <= k < left ==> r[k] == fill
            &&& r.subrange(left, left + s.len()) == s
            &&& forall|k: int| left + s.len() <= k < w ==> r[k] == fill
        }),
{
    let r = spec_str_pad(s, w, fill, PadKind::Center);
    let total = w - s.len();
    let left = center_left(total, w);
    assert(r == rep(fill, left) + s + rep(fill, total - left));
    assert(r.subrange(left, left + s.len()) =~= s);
}

proof fn lemma_char_skip_lead(b: Seq<char>, set: Option<Seq<char>>, lo: int, hi: int)
    requires
        0 <= lo <= hi <= b.len(),
    ensures
        lo <= skip_lead_chars(b, set, lo, hi) <= hi,
        forall|j: int| lo <= j < skip_lead_chars(b, set, lo, hi) ==> strip_pred(set, b[j]),
        skip_lead_chars(b, set, lo, hi) < hi ==> !strip_pred(set, b[skip_lead_chars(b, set, lo, hi)]),
    decreases hi - lo,
{
    if lo < hi && strip_pred(set, b[lo]) {
        lemma_char_skip_lead(b, set, lo + 1, hi);
    }
}

proof fn lemma_char_skip_trail(b: Seq<char>, set: Option<Seq<char>>, lo: int, hi: int)
    requires
        0 <= lo <= hi <= b.len(),
    ensures
        lo <= skip_trail_chars(b, set, lo, hi) <= hi,
        forall|j: int| skip_trail_chars(b, set, lo, hi) <= j < hi ==> strip_pred(set, b[j]),
        skip_trail_chars(b, set, lo, hi) > lo ==> !strip_pred(set, b[skip_trail_chars(b, set, lo, hi) - 1]),
    decreases hi - lo,
{
    if hi > lo && strip_pred(set, b[hi - 1]) {
        lemma_char_skip_trail(b, set, lo, hi - 1);
    }
}

/// `strip` removes the stripped characters (white space, or those of the given set) from both ends and nothing else: the result is
/// a run of the input, everything before and after it is stripped, and the
/// result neither starts nor ends with a stripped item.
pub proof fn law_strip_trims_ends(b: Seq<char>, set: Option<Seq<char>>)
    ensures
        exists|lo: int, hi: int| {
            &&& 0 <= lo <= hi <= b.len()
            &&& spec_strip_chars(b, set, true, true) == b.subrange(lo, hi)
            &&& forall|j: int| 0 <= j < lo ==> strip_pred(set, b[j])
            &&& forall|j: int| hi <= j < b.len() ==> strip_pred(set, b[j])
        },
        spec_strip_chars(b, set, true, true).len() > 0 ==> !strip_pred(set, spec_strip_chars(b, set, true, true)[0])
            && !strip_pred(set, spec_strip_chars(b, set, true, true).last()),
{
    let lo = skip_lead_chars(b, set, 0, b.len() as int);
    lemma_char_skip_lead(b, set, 0, b.len() as int);
    let hi = skip_trail_chars(b, set, lo, b.len() as int);
    lemma_char_skip_trail(b, set, lo, b.len() as int);
    let r = spec_strip_chars(b, set, true, true);
    assert(r == b.subrange(lo, hi));
    if r.len() > 0 {
        assert(r[0] == b[lo]);
        assert(r.last() == b[hi - 1]);
    }
}

/// `partition` splits at the first occurrence of the separator and
/// `rpartition` at the last: the three parts run together give the input
/// back; with a separator found the middle part is it and no earlier (for
/// `rpartition`, later) occurrence exists; without one the input stands
/// whole in the first (for `rpartition`, last) part.
pub proof fn law_partition_splits_at_separator(b: Seq<char>, sep: Seq<char>, from_right: bool)
    requires
        sep.len() > 0,
    ensures
        ({
            let parts = spec_str_partition(b, sep, from_right);
            &&& parts.len() == 3
            &&& parts[0] + parts[1] + parts[2] == b
            &&& (parts[1] == sep || parts[1].len() == 0)
            &&& parts[1] == sep ==> {
                let p = parts[0].len() as int;
                &&& occurs_at(b, sep, p)
                &&& !from_right ==> forall|j: int| 0 <= j < p ==> !occurs_at(b, sep, j)
                &&& from_right ==> forall|j: int| p < j ==> !occurs_at(b, sep, j)
            }
            &&& parts[1].len() == 0 ==> {
                &&& forall|j: int| 0 <= j ==> !occurs_at(b, sep, j)
                &&& (if from_right { parts[2] == b } else { parts[0] == b })
            }
        }),
{
    crate::text::law_find_is_first_occurrence(b, sep, 0);
    crate::text::law_rfind_is_last_occurrence(b, sep, b.len() as int);
    let parts = spec_str_partition(b, sep, from_right);
    let p = if from_right { rfind_to(b, sep, b.len() as int) } else { find_from(b, sep, 0) };
    if p >= 0 {
        assert(b.subrange(0, p) + sep + b.subrange(p + sep.len(), b.len() as int) =~= b) by {
            assert(b.subrange(p, p + sep.len()) == sep);
        }
        assert(parts[0].len() == p);
        if from_right {
            assert forall|j: int| p < j implies !occurs_at(b, sep, j) by {
                if j + sep.len() <= b.len() { }
            }
        }
    } else {
        if from_right {
            assert(Seq::<char>::empty() + Seq::<char>::empty() + b =~= b);
            assert forall|j: int| 0 <= j implies !occurs_at(b, sep, j) by {
                if j + sep.len() <= b.len() { }
            }
        } else {
            assert(b + Seq::<char>::empty() + Seq::<char>::empty() =~= b);
        }
    }
}

proof fn lemma_expand_suffix(x: Seq<char>, z: Seq<char>, j: int, col: int, tab: int)
    requires
        0 <= j,
    ensures
        expand_from(x + z, x.len() + j, col, tab) == expand_from(z, j, col, tab),
    decreases z.len() - j,
{
    let b = x + z;
    if j < z.len() {
        assert(b[x.len() + j] == z[j]);
        if z[j] == '\t' {
            let pad = if tab <= 0 { 0 } else { tab - col % tab };
            lemma_expand_suffix(x, z, j + 1, col + pad, tab);
        } else if z[j] == '\n' || z[j] == '\r' {
            lemma_expand_suffix(x, z, j + 1, 0, tab);
        } else {
            lemma_expand_suffix(x, z, j + 1, col + 1, tab);
        }
    }
}

proof fn lemma_expand_plain_prefix(x: Seq<char>, z: Seq<char>, i: int, col: int, tab: int)
    requires
        0 <= i <= x.len(),
        forall|k: int| 0 <= k < x.len() ==> x[k] != '\t' && x[k] != '\n' && x[k] != '\r',
    ensures
        expand_from(x + z, i, col, tab) == x.subrange(i, x.len() as int) + expand_from(x + z, x.len() as int, col + x.len() - i, tab),
    decreases x.len() - i,
{
    let b = x + z;
    if i < x.len() {
        assert(b[i] == x[i]);
        lemma_expand_plain_prefix(x, z, i + 1, col + 1, tab);
        assert(seq![x[i]] + x.subrange(i + 1, x.len() as int) =~= x.subrange(i, x.len() as int));
    } else {
        assert(x.subrange(i, x.len() as int) =~= Seq::<char>::empty());
    }
}

proof fn lemma_expand_no_tab(s: Seq<char>, i: int, col: int, tab: int)
    requires
        0 <= i,
    ensures
        forall|k: int| 0 <= k < expand_from(s, i, col, tab).len() ==> expand_from(s, i, col, tab)[k] != '\t',
    decreases s.len() - i,
{
    if i < s.len() {
        let r = expand_from(s, i, col, tab);
        if s[i] == '\t' {
            let pad = if tab <= 0 { 0 } else { tab - col % tab };
            lemma_expand_no_tab(s, i + 1, col + pad, tab);
            let rest = expand_from(s, i + 1, col + pad, tab);
            assert forall|k: int| 0 <= k < r.len() implies r[k] != '\t' by {
                if k >= rep(' ', pad).len() { assert(r[k] == rest[k - rep(' ', pad).len()]); }
            }
        } else if s[i] == '\n' || s[i] == '\r' {
            lemma_expand_no_tab(s, i + 1, 0, tab);
            let rest = expand_from(s, i + 1, 0, tab);
            assert forall|k: int| 0 <= k < r.len() implies r[k] != '\t' by {
                if k >= 1 { assert(r[k] == rest[k - 1]); }
            }
        } else {
            lemma_expand_no_tab(s, i + 1, col + 1, tab);
            let rest = expand_from(s, i + 1, col + 1, tab);
            assert forall|k: int| 0 <= k < r.len() implies r[k] != '\t' by {
                if k >= 1 { assert(r[k] == rest[k - 1]); }
            }
        }
    }
}

/// `expandtabs` leaves no tab; a tab after `c` plain characters of a line
/// becomes the spaces that reach the next multiple of the tab size (none for
/// a tab size of zero or less); text before it stays as it is.
pub proof fn law_expandtabs_reaches_next_stop(x: Seq<char>, y: Seq<char>, tab: int)
    requires
        forall|k: int| 0 <= k < x.len() ==> x[k] != '\t' && x[k] != '\n' && x[k] != '\r',
    ensures
        forall|k: int| 0 <= k < expand_from(x + seq!['\t'] + y, 0, 0, tab).len()
            ==> expand_from(x + seq!['\t'] + y, 0, 0, tab)[k] != '\t',
        ({
            let pad = if tab <= 0 { 0 } else { tab - (x.len() as int) % tab };
            &&& tab > 0 ==> (x.len() + pad) % tab == 0 && 0 < pad <= tab
            &&& expand_from(x + seq!['\t'] + y, 0, 0, tab) == x + rep(' ', pad) + expand_from(y, 0, x.len() + pad, tab)
        }),
{
    let s = x + seq!['\t'] + y;
    lemma_expand_no_tab(s, 0, 0, tab);
    let z = seq!['\t'] + y;
    assert(s =~= x + z);
    lemma_expand_plain_prefix(x, z, 0, 0, tab);
    assert(x.subrange(0, x.len() as int) =~= x);
    let pad = if tab <= 0 { 0 } else { tab - (x.len() as int) % tab };
    assert(s[x.len() as int] == '\t');
    let y2 = seq!['\t'] + y;
    lemma_expand_suffix(seq!['\t'], y, 0, x.len() + pad, tab);
    assert(seq!['\t'] + y == y2);
    lemma_expand_suffix(x, z, 1, x.len() + pad, tab);
    assert(x + z == s);
    assert(expand_from(s, x.len() as int, x.len() as int, tab) == rep(' ', pad) + expand_from(s, x.len() as int + 1, x.len() + pad, tab));
    lemma_expand_suffix(x + seq!['\t'], y, 0, x.len() + pad, tab);
    assert((x + seq!['\t']) + y == s);
    if tab > 0 {
        assert((x.len() + pad) % tab == 0) by (nonlinear_arith)
            requires pad == tab - (x.len() as int) % tab, tab > 0;
        assert(0 < pad <= tab) by (nonlinear_arith)
            requires pad == tab - (x.len() as int) % tab, tab > 0;
    }
}

proof fn lemma_replacen_len(s: Seq<char>, old: Seq<char>, new: Seq<char>, i: int)
    requires
        old.len() > 0,
        0 <= i <= s.len(),
    ensures
        replacen_from(s, old, new, i, -1).len() == (s.len() - i) + crate::bytes_methods::count_from(s, old, i) * (new.len() - old.len()),
    decreases s.len() - i,
{
    if i + old.len() > s.len() {
        assert(crate::bytes_methods::count_from(s, old, i) == 0);
    } else if occurs_at(s, old, i) {
        lemma_replacen_len(s, old, new, i + old.len());
        let c = crate::bytes_methods::count_from(s, old, i + old.len()) as int;
        let d = new.len() - old.len();
        assert((1 + c) * d == d + c * d) by (nonlinear_arith);
        assert(crate::bytes_methods::count_from(s, old, i) == 1 + c);
        assert(replacen_from(s, old, new, i, -1) == new + replacen_from(s, old, new, i + old.len(), -1));
    } else {
        lemma_replacen_len(s, old, new, i + 1);
        assert(crate::bytes_methods::count_from(s, old, i) == crate::bytes_methods::count_from(s, old, i + 1));
    }
}

proof fn lemma_replacen_same(s: Seq<char>, old: Seq<char>, i: int, left: int)
    requires
        old.len() > 0,
        0 <= i <= s.len(),
    ensures
        replacen_from(s, old, old, i, left) == s.subrange(i, s.len() as int),
    decreases s.len() - i,
{
    if left == 0 || i + old.len() > s.len() {
    } else if occurs_at(s, old, i) {
        lemma_replacen_same(s, old, i + old.len(), dec_budget(left));
        assert(s.subrange(i, i + old.len()) + s.subrange(i + old.len(), s.len() as int) =~= s.subrange(i, s.len() as int));
    } else {
        lemma_replacen_same(s, old, i + 1, left);
        assert(seq![s[i]] + s.subrange(i + 1, s.len() as int) =~= s.subrange(i, s.len() as int));
    }
}

/// `replace(old, new)` with no count swaps every counted occurrence of a
/// non-empty `old` for `new`: the result is as long as the text plus, for
/// each of the `count(old)` occurrences, the difference in length; and
/// replacing `old` by itself, with any count, leaves the text as it was.
pub proof fn law_replace_counts(s: Seq<char>, old: Seq<char>, new: Seq<char>, left: int)
    requires
        old.len() > 0,
    ensures
        replacen_from(s, old, new, 0, -1).len() == s.len() + crate::bytes_methods::spec_count(s, old) * (new.len() - old.len()),
        replacen_from(s, old, old, 0, left) == s,
{
    lemma_replacen_len(s, old, new, 0);
    lemma_replacen_same(s, old, 0, left);
    assert(s.subrange(0, s.len() as int) =~= s);
}

proof fn lemma_word_end_plain(s: Seq<char>, i: int)
    requires
        0 <= i <= s.len(),
    ensures
        forall|j: int| i <= j < word_end(s, i) ==> !is_unicode_ws(s[j]),
        word_end(s, i) < s.len() ==> is_unicode_ws(s[word_end(s, i)]),
    decreases s.len() - i,
{
    if i < s.len() && !is_unicode_ws(s[i]) {
        lemma_word_end_plain(s, i + 1);
    }
}

proof fn lemma_spans_plain(s: Seq<char>, i: int)
    requires
        0 <= i <= s.len(),
    ensures
        forall|k: int| 0 <= k < spans_from(s, i).len() ==> {
            let sp = #[trigger] spans_from(s, i)[k];
            &&& i <= sp.0 < sp.1 <= s.len()
            &&& forall|j: int| sp.0 <= j < sp.1 ==> !is_unicode_ws(s[j])
            &&& (sp.1 < s.len() ==> is_unicode_ws(s[sp.1]))
            &&& (sp.0 > 0 ==> is_unicode_ws(s[sp.0 - 1]) || sp.0 == i)
        },
    decreases s.len() - i,
{
    if skip_ws(s, i) < s.len() {
        lemma_skip_ws(s, i);
        let a = skip_ws(s, i);
        lemma_word_end(s, a);
        lemma_word_end_plain(s, a);
        let e = word_end(s, a);
        lemma_spans_plain(s, e);
        lemma_skip_ws_all(s, i);
        let rest = spans_from(s, e);
        assert(spans_from(s, i) == seq![(a, e)] + rest);
        assert forall|k: int| 0 <= k < spans_from(s, i).len() implies {
            let sp = #[trigger] spans_from(s, i)[k];
            &&& i <= sp.0 < sp.1 <= s.len()
            &&& forall|j: int| sp.0 <= j < sp.1 ==> !is_unicode_ws(s[j])
            &&& (sp.1 < s.len() ==> is_unicode_ws(s[sp.1]))
            &&& (sp.0 > 0 ==> is_unicode_ws(s[sp.0 - 1]) || sp.0 == i)
        } by {
            if k > 0 {
                assert(spans_from(s, i)[k] == rest[k - 1]);
                let sp = rest[k - 1];
                if sp.0 > 0 && sp.0 != e {
                    assert(is_unicode_ws(s[sp.0 - 1]));
                } else if sp.0 == e && e > 0 {
                    assert(e < s.len());
                }
            } else {
                if a > i {
                    assert(is_unicode_ws(s[a - 1]));
                }
            }
        }
    }
}

proof fn lemma_skip_ws_all(s: Seq<char>, i: int)
    requires
        0 <= i <= s.len(),
    ensures
        forall|j: int| i <= j < skip_ws(s, i) ==> is_unicode_ws(s[j]),
    decreases s.len() - i,
{
    if i < s.len() && is_unicode_ws(s[i]) {
        lemma_skip_ws_all(s, i + 1);
    }
}

/// `split()` with no separator gives the words of the text: each is a
/// non-empty run of non-white-space characters that white space (or an end
/// of the text) bounds on both sides.
pub proof fn law_split_whitespace_gives_words(s: Seq<char>)
    ensures
        forall|k: int| 0 <= k < spec_ws_split(s, -1).len() ==> {
            let w = #[trigger] spec_ws_split(s, -1)[k];
            &&& w.len() > 0
            &&& forall|j: int| 0 <= j < w.len() ==> !is_unicode_ws(w[j])
        },
{
    lemma_spans_plain(s, 0);
    let sp = spans_from(s, 0);
    assert forall|k: int| 0 <= k < spec_ws_split(s, -1).len() implies {
        let w = #[trigger] spec_ws_split(s, -1)[k];
        &&& w.len() > 0
        &&& forall|j: int| 0 <= j < w.len() ==> !is_unicode_ws(w[j])
    } by {
        let p = sp[k];
        let w = s.subrange(p.0, p.1);
        assert(spec_ws_split(s, -1)[k] == w);
        assert forall|j: int| 0 <= j < w.len() implies !is_unicode_ws(w[j]) by {
            assert(w[j] == s[p.0 + j]);
        }
    }
}

} // verus!
