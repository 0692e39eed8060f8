//! Dictionary keys: the hashable values turned into keys, and the names of
//! the builtin exception classes.

use vstd::prelude::*;
use vstd::arithmetic::power2::pow2;
use crate::value::{Value, PyVal, view_items, view_value, lemma_view_items, pyval_type_name, spec_py_type_name,
    neg_zero_bits};
use crate::error::{EvalError, is_type_error, type_error};
use crate::text::{concat_str, str_eq};

verus! {

broadcast use lemma_view_items;

/// A hashable value as a dictionary or set key.
#[derive(Debug)]
pub enum ValueKey {
    PyNone,
    Ellipsis,
    Bool(bool),
    Int(i64),
    /// A float key, by its bit pattern.
    Float(u64),
    /// A complex key with a non-zero imaginary part, by the bit patterns of
    /// its parts.
    Complex(u64, u64),
    String(String),
    Tuple(Vec<ValueKey>),
    Frozenset(Vec<ValueKey>),
}

/// The mathematical view of a [`ValueKey`].
pub enum KeyVal {
    PyNone,
    Ellipsis,
    Bool(bool),
    Int(int),
    Float(u64),
    Complex(u64, u64),
    Str(Seq<char>),
    Tuple(Seq<KeyVal>),
    Frozenset(Seq<KeyVal>),
}

pub open spec fn key_views(keys: Seq<ValueKey>) -> Seq<KeyVal>
    decreases keys, 1int,
{
    if keys.len() == 0 {
        Seq::empty()
    } else {
        key_views(keys.drop_last()).push(key_view(keys.last()))
    }
}

pub open spec fn key_view(k: ValueKey) -> KeyVal
    decreases k, 0int,
{
    match k {
        ValueKey::PyNone => KeyVal::PyNone,
        ValueKey::Ellipsis => KeyVal::Ellipsis,
        ValueKey::Bool(b) => KeyVal::Bool(b),
        ValueKey::Int(i) => KeyVal::Int(i as int),
        ValueKey::Float(f) => KeyVal::Float(f),
        ValueKey::Complex(re, im) => KeyVal::Complex(re, im),
        ValueKey::String(s) => KeyVal::Str(s@),
        ValueKey::Tuple(items) => KeyVal::Tuple(key_views(items@)),
        ValueKey::Frozenset(items) => KeyVal::Frozenset(key_views(items@)),
    }
}

impl View for ValueKey {
    type V = KeyVal;

    open spec fn view(&self) -> KeyVal {
        key_view(*self)
    }
}

/// A float's bits after adding `+0.0`: `-0.0` becomes `+0.0`, anything else
/// keeps its bits.
pub open spec fn plus_zero_bits(f: u64) -> u64 {
    if f == neg_zero_bits() { 0 } else { f }
}

/// Whether a float is zero (either sign).
pub open spec fn is_zero_bits(f: u64) -> bool {
    f == 0 || f == neg_zero_bits()
}

/// The message for a value that cannot be a key.
pub open spec fn unhashable_msg(class_name: Seq<char>) -> Seq<char> {
    "unhashable type: '"@ + class_name + "'"@
}

/// The key of each of `items`, or the message of the first that is not
/// hashable.
pub open spec fn keys_of(items: Seq<PyVal>) -> Result<Seq<KeyVal>, Seq<char>>
    decreases items, 1int,
{
    if items.len() == 0 {
        Ok(Seq::empty())
    } else {
        match keys_of(items.drop_last()) {
            Err(m) => Err(m),
            Ok(ks) => match key_of(items.last()) {
                Err(m) => Err(m),
                Ok(k) => Ok(ks.push(k)),
            },
        }
    }
}

/// The key of a value: `None`, `...`, bools, ints, floats, complex numbers
/// (a zero imaginary part keys as the real part's float), strings, and
/// tuples and frozensets of such values; anything else is unhashable.
pub open spec fn key_of(v: PyVal) -> Result<KeyVal, Seq<char>>
    decreases v, 0int,
{
    match v {
        PyVal::PyNone => Ok(KeyVal::PyNone),
        PyVal::Ellipsis => Ok(KeyVal::Ellipsis),
        PyVal::Bool(b) => Ok(KeyVal::Bool(b)),
        PyVal::Int(i) => Ok(KeyVal::Int(i)),
        PyVal::Float(f) => Ok(KeyVal::Float(f)),
        PyVal::Complex(re, im) => if is_zero_bits(im) {
            Ok(KeyVal::Float(re))
        } else {
            Ok(KeyVal::Complex(plus_zero_bits(re), plus_zero_bits(im)))
        },
        PyVal::Str(s) => Ok(KeyVal::Str(s)),
        PyVal::Tuple(items) => match keys_of(items) {
            Ok(ks) => Ok(KeyVal::Tuple(ks)),
            Err(m) => Err(m),
        },
        PyVal::Frozenset(items) => match keys_of(items) {
            Ok(ks) => Ok(KeyVal::Frozenset(ks)),
            Err(m) => Err(m),
        },
        other => Err(unhashable_msg(pyval_type_name(other))),
    }
}

proof fn lemma_keys_of_prefix(items: Seq<PyVal>, k: int)
    requires
        0 <= k < items.len(),
        keys_of(items.take(k)) is Ok,
    ensures
        keys_of(items.take(k + 1)) == match key_of(items[k]) {
            Err(m) => Err(m),
            Ok(key) => Ok(keys_of(items.take(k))->Ok_0.push(key)),
        },
{
    assert(items.take(k + 1).drop_last() =~= items.take(k));
}

proof fn lemma_keys_of_err_persists(items: Seq<PyVal>, k: int, k2: int)
    requires
        0 <= k <= k2 <= items.len(),
        keys_of(items.take(k)) is Err,
    ensures
        keys_of(items.take(k2)) == keys_of(items.take(k)),
    decreases k2 - k,
{
    if k2 > k {
        lemma_keys_of_err_persists(items, k, k2 - 1);
        assert(items.take(k2).drop_last() =~= items.take(k2 - 1));
    }
}

/// The key of a float: its bit pattern ([`key_equiv`] makes an integral
/// float the same key as the equal integer).
pub fn float_to_key(f: u64) -> (k: ValueKey)
    ensures
        k@ == KeyVal::Float(f),
{
    ValueKey::Float(f)
}

fn plus_zero(f: u64) -> (r: u64)
    ensures
        r == plus_zero_bits(f),
{
    if f == 0x8000_0000_0000_0000u64 { 0 } else { f }
}

/// The keys of `items`, in order, or `TypeError` at the first unhashable one.
fn keys_of_items(items: &Vec<Value>) -> (r: Result<Vec<ValueKey>, EvalError>)
    ensures
        match keys_of(view_items(items@)) {
            Ok(ks) => r matches Ok(v) && key_views(v@) == ks,
            Err(m) => r matches Err(e) && is_type_error(e, m),
        },
    decreases items,
{
    let ghost its = view_items(items@);
    let mut out: Vec<ValueKey> = Vec::new();
    let mut i: usize = 0;
    assert(its.take(0) =~= Seq::<PyVal>::empty());
    while i < items.len()
        invariant
            its == view_items(items@),
            its.len() == items@.len(),
            i <= items@.len(),
            keys_of(its.take(i as int)) == Ok::<Seq<KeyVal>, Seq<char>>(key_views(out@)),
        decreases items.len() - i,
    {
        proof {
            assert(its[i as int] == view_value(items@[i as int]));
            lemma_keys_of_prefix(its, i as int);
        }
        match value_to_key(&items[i]) {
            Ok(k) => {
                let ghost before = out@;
                out.push(k);
                assert(out@.drop_last() =~= before);
            },
            Err(e) => {
                proof { lemma_keys_of_err_persists(its, i + 1, its.len() as int); }
                assert(its.take(its.len() as int) =~= its);
                return Err(e);
            },
        }
        i = i + 1;
    }
    assert(its.take(its.len() as int) =~= its);
    Ok(out)
}

/// Convert a value to a hashable dictionary key. Floats key by their bits;
/// a complex number with a zero imaginary part keys as its real part's
/// float, otherwise as both parts with `-0.0` made `+0.0`; tuples and
/// frozensets key by their members' keys. Bytes, bytearrays, lists and sets
/// are unhashable and raise `TypeError`.
pub fn value_to_key(val: &Value) -> (r: Result<ValueKey, EvalError>)
    ensures
        match key_of(val@) {
            Ok(k) => r matches Ok(x) && x@ == k,
            Err(m) => r matches Err(e) && is_type_error(e, m),
        },
    decreases val,
{
    match val {
        Value::PyNone => Ok(ValueKey::PyNone),
        Value::Ellipsis => Ok(ValueKey::Ellipsis),
        Value::Bool(b) => Ok(ValueKey::Bool(*b)),
        Value::Int(i) => Ok(ValueKey::Int(*i)),
        Value::Float(f) => Ok(float_to_key(*f)),
        Value::Complex(re, im) => if *im == 0 || *im == 0x8000_0000_0000_0000u64 {
            Ok(float_to_key(*re))
        } else {
            Ok(ValueKey::Complex(plus_zero(*re), plus_zero(*im)))
        },
        Value::String(s) => Ok(ValueKey::String(s.clone())),
        Value::Tuple(items) => match keys_of_items(items) {
            Ok(ks) => Ok(ValueKey::Tuple(ks)),
            Err(e) => Err(e),
        },
        Value::Frozenset(items) => match keys_of_items(items) {
            Ok(ks) => Ok(ValueKey::Frozenset(ks)),
            Err(e) => Err(e),
        },
        _ => {
            let s1 = concat_str("unhashable type: '", val.py_type_name());
            let s2 = s1.concat("'");
            proof { crate::value::lemma_type_name_view(*val); }
            assert(s2@ =~= unhashable_msg(pyval_type_name(val@)));
            Err(type_error(s2))
        },
    }
}

/// The names of the builtin exception classes.
pub open spec fn exception_type_names() -> Seq<Seq<char>> {
    seq![
        "Exception"@, "ValueError"@, "TypeError"@, "KeyError"@, "IndexError"@, "AttributeError"@,
        "RuntimeError"@, "StopIteration"@, "ZeroDivisionError"@, "OverflowError"@, "AssertionError"@,
        "NotImplementedError"@, "FileNotFoundError"@, "IOError"@, "OSError"@, "NameError"@,
        "ArithmeticError"@, "LookupError"@, "RecursionError"@, "ExceptionGroup"@, "BaseExceptionGroup"@,
        "GeneratorExit"@, "StopAsyncIteration"@, "KeyboardInterrupt"@, "SystemExit"@, "UnicodeError"@,
        "UnicodeDecodeError"@, "UnicodeEncodeError"@, "FloatingPointError"@, "BufferError"@,
        "ReferenceError"@, "MemoryError"@, "PermissionError"@, "NotADirectoryError"@, "IsADirectoryError"@,
        "FileExistsError"@, "InterruptedError"@, "ConnectionError"@, "ConnectionAbortedError"@,
        "ConnectionRefusedError"@, "ConnectionResetError"@, "ProcessLookupError"@, "TimeoutError"@,
        "BlockingIOError"@, "ChildProcessError"@, "BrokenPipeError"@, "IndentationError"@, "TabError"@,
        "SyntaxError"@, "SystemError"@, "EOFError"@, "ModuleNotFoundError"@, "ImportError"@,
        "UnboundLocalError"@, "BaseException"@
    ]
}

/// Whether `name` is a known Python exception type.
pub fn is_exception_type_name(name: &str) -> (r: bool)
    ensures
        r == exception_type_names().contains(name@),
{
    let names: [&str; 55] = [
        "Exception", "ValueError", "TypeError", "KeyError", "IndexError", "AttributeError",
        "RuntimeError", "StopIteration", "ZeroDivisionError", "OverflowError", "AssertionError",
        "NotImplementedError", "FileNotFoundError", "IOError", "OSError", "NameError",
        "ArithmeticError", "LookupError", "RecursionError", "ExceptionGroup", "BaseExceptionGroup",
        "GeneratorExit", "StopAsyncIteration", "KeyboardInterrupt", "SystemExit", "UnicodeError",
        "UnicodeDecodeError", "UnicodeEncodeError", "FloatingPointError", "BufferError",
        "ReferenceError", "MemoryError", "PermissionError", "NotADirectoryError", "IsADirectoryError",
        "FileExistsError", "InterruptedError", "ConnectionError", "ConnectionAbortedError",
        "ConnectionRefusedError", "ConnectionResetError", "ProcessLookupError", "TimeoutError",
        "BlockingIOError", "ChildProcessError", "BrokenPipeError", "IndentationError", "TabError",
        "SyntaxError", "SystemError", "EOFError", "ModuleNotFoundError", "ImportError",
        "UnboundLocalError", "BaseException",
    ];
    let ghost all = exception_type_names();
    assert(all.len() == 55);
    assert forall|j: int| 0 <= j < 55 implies (#[trigger] names@[j])@ == all[j] by {}
    let mut i: usize = 0;
    while i < 55
        invariant
            i <= 55,
            all == exception_type_names(),
            all.len() == 55,
            names@.len() == 55,
            forall|j: int| 0 <= j < 55 ==> (#[trigger] names@[j])@ == all[j],
            forall|j: int| 0 <= j < i ==> all[j] != name@,
        decreases 55 - i,
    {
        if str_eq(names[i], name) {
            return true;
        }
        i = i + 1;
    }
    false
}

// ---------------------------------------------------------------------------
// Key equality
// ---------------------------------------------------------------------------

/// `2 ** 52`, the weight of a float's lowest exponent bit.
pub open spec fn two52() -> int {
    0x10_0000_0000_0000
}

/// The integer a float (by its bits) equals, when it is a finite integral
/// value: the biased exponent `e` and fraction `m` give `(2 ** 52 + m) *
/// 2 ** (e - 1075)`, zero for `e == 0, m == 0`; none for infinities, NaNs,
/// non-zero subnormals and values with a fractional part.
pub open spec fn float_int_value(f: u64) -> Option<int> {
    let e = (f as int / two52()) % 2048;
    let m = f as int % two52();
    let neg = f >= 0x8000_0000_0000_0000u64;
    if e == 0 {
        if m == 0 { Some(0) } else { None }
    } else if e == 2047 {
        None
    } else {
        let sig = two52() + m;
        let mag: Option<int> = if e >= 1075 {
            Some(sig * pow2((e - 1075) as nat))
        } else if sig % (pow2((1075 - e) as nat) as int) == 0 {
            Some(sig / (pow2((1075 - e) as nat) as int))
        } else {
            None
        };
        match mag {
            Some(v) => Some(if neg { -v } else { v }),
            None => None,
        }
    }
}

/// The integer a bool or int key stands for.
pub open spec fn key_int(k: KeyVal) -> Option<int> {
    match k {
        KeyVal::Bool(b) => Some(if b { 1int } else { 0int }),
        KeyVal::Int(i) => Some(i),
        _ => None,
    }
}

/// Equality of keys other than tuples and frozensets: `True`/`False` are
/// the integers 1 and 0, an integral float equals that integer, `0.0` and
/// `-0.0` are one key, and otherwise keys are equal when they are the same.
pub open spec fn scalar_equiv(a: KeyVal, b: KeyVal) -> bool {
    match (key_int(a), key_int(b)) {
        (Some(x), Some(y)) => x == y,
        (Some(x), None) => b matches KeyVal::Float(f) && float_int_value(f) == Some(x),
        (None, Some(y)) => a matches KeyVal::Float(f) && float_int_value(f) == Some(y),
        (None, None) => match (a, b) {
            (KeyVal::Float(x), KeyVal::Float(y)) => x == y || (is_zero_bits(x) && is_zero_bits(y)),
            (KeyVal::Complex(x1, x2), KeyVal::Complex(y1, y2)) => x1 == y1 && x2 == y2,
            (KeyVal::Str(x), KeyVal::Str(y)) => x == y,
            (KeyVal::PyNone, KeyVal::PyNone) => true,
            (KeyVal::Ellipsis, KeyVal::Ellipsis) => true,
            _ => false,
        },
    }
}

/// When two keys are the same dictionary key: [`scalar_equiv`] for single
/// values, and tuples and frozensets element by element, in the order of
/// their stored members.
pub open spec fn key_equiv(a: KeyVal, b: KeyVal) -> bool
    decreases a,
{
    match a {
        KeyVal::Tuple(xs) => match b {
            KeyVal::Tuple(ys) => xs.len() == ys.len()
                && forall|i: int| 0 <= i < xs.len() ==> key_equiv(#[trigger] xs[i], ys[i]),
            _ => false,
        },
        KeyVal::Frozenset(xs) => match b {
            KeyVal::Frozenset(ys) => xs.len() == ys.len()
                && forall|i: int| 0 <= i < xs.len() ==> key_equiv(#[trigger] xs[i], ys[i]),
            _ => false,
        },
        _ => scalar_equiv(a, b),
    }
}

proof fn lemma_key_views_index(keys: Seq<ValueKey>)
    ensures
        key_views(keys).len() == keys.len(),
        forall|i: int| 0 <= i < keys.len() ==> #[trigger] key_views(keys)[i] == keys[i]@,
    decreases keys.len(),
{
    if keys.len() > 0 {
        lemma_key_views_index(keys.drop_last());
    }
}

fn pow2_u128(k: u32) -> (r: u128)
    requires
        k <= 64,
    ensures
        r == pow2(k as nat),
{
    let mut r: u128 = 1;
    let mut i: u32 = 0;
    proof { vstd::arithmetic::power2::lemma2_to64(); }
    while i < k
        invariant
            i <= k <= 64,
            r == pow2(i as nat),
            pow2(i as nat) <= pow2(64),
        decreases k - i,
    {
        proof {
            vstd::arithmetic::power2::lemma_pow2_unfold((i + 1) as nat);
            if i + 1 < 64 {
                vstd::arithmetic::power2::lemma_pow2_strictly_increases((i + 1) as nat, 64);
            }
            vstd::arithmetic::power2::lemma2_to64();
        }
        r = r * 2;
        i = i + 1;
    }
    r
}

/// Whether the float with bits `f` equals the integer `n`.
pub(crate) fn float_equals_int(f: u64, n: i64) -> (r: bool)
    ensures
        r == (float_int_value(f) == Some(n as int)),
{
    let e: u64 = (f / 0x10_0000_0000_0000u64) % 2048;
    let m: u64 = f % 0x10_0000_0000_0000u64;
    let neg = f >= 0x8000_0000_0000_0000u64;
    if e == 0 {
        return m == 0 && n == 0;
    }
    if e == 2047 {
        return false;
    }
    let sig: u128 = 0x10_0000_0000_0000u128 + m as u128;
    proof { vstd::arithmetic::power2::lemma2_to64(); }
    let mag: u128 = if e >= 1075 {
        let shift: u64 = e - 1075;
        if shift > 11 {
            proof {
                if shift > 12 {
                    vstd::arithmetic::power2::lemma_pow2_strictly_increases(12, shift as nat);
                }
                let p = pow2(shift as nat);
                assert(sig * p >= 0x10_0000_0000_0000 * 4096) by (nonlinear_arith)
                    requires sig >= 0x10_0000_0000_0000, p >= 4096;
            }
            return false;
        }
        let p = pow2_u128(shift as u32);
        proof {
            if shift < 11 {
                vstd::arithmetic::power2::lemma_pow2_strictly_increases(shift as nat, 11);
            }
            assert(sig * p <= 0x20_0000_0000_0000 * 2048) by (nonlinear_arith)
                requires sig <= 0x20_0000_0000_0000, p <= 2048;
        }
        sig * p
    } else {
        let k: u64 = 1075 - e;
        if k > 52 {
            proof {
                if k > 53 {
                    vstd::arithmetic::power2::lemma_pow2_strictly_increases(53, k as nat);
                }
                assert(pow2(53) == 0x20_0000_0000_0000) by { vstd::arithmetic::power2::lemma2_to64_rest(); }
                assert(sig < pow2(k as nat));
                vstd::arithmetic::div_mod::lemma_small_mod(sig as nat, pow2(k as nat));
            }
            return false;
        }
        let d = pow2_u128(k as u32);
        proof { vstd::arithmetic::power2::lemma_pow2_pos(k as nat); }
        if sig % d != 0 {
            return false;
        }
        proof {
            vstd::arithmetic::div_mod::lemma_div_is_ordered_by_denominator(sig as int, 1, d as int);
        }
        sig / d
    };
    if neg {
        (n as i128) == -(mag as i128)
    } else {
        (n as i128) == (mag as i128)
    }
}

fn key_int_exec(k: &ValueKey) -> (r: Option<i64>)
    ensures
        match key_int(k@) {
            Some(x) => r == Some(x as i64) && x == x as i64,
            None => r is None,
        },
{
    match k {
        ValueKey::Bool(b) => Some(if *b { 1 } else { 0 }),
        ValueKey::Int(i) => Some(*i),
        _ => None,
    }
}

fn scalar_keys_equal(a: &ValueKey, b: &ValueKey) -> (r: bool)
    requires
        !(a is Tuple) && !(a is Frozenset),
    ensures
        r == scalar_equiv(a@, b@),
{
    match (key_int_exec(a), key_int_exec(b)) {
        (Some(x), Some(y)) => x == y,
        (Some(x), None) => match b {
            ValueKey::Float(f) => float_equals_int(*f, x),
            _ => false,
        },
        (None, Some(y)) => match a {
            ValueKey::Float(f) => float_equals_int(*f, y),
            _ => false,
        },
        (None, None) => match (a, b) {
            (ValueKey::Float(x), ValueKey::Float(y)) => *x == *y
                || ((*x == 0 || *x == 0x8000_0000_0000_0000u64) && (*y == 0 || *y == 0x8000_0000_0000_0000u64)),
            (ValueKey::Complex(x1, x2), ValueKey::Complex(y1, y2)) => *x1 == *y1 && *x2 == *y2,
            (ValueKey::String(x), ValueKey::String(y)) => str_eq(x.as_str(), y.as_str()),
            (ValueKey::PyNone, ValueKey::PyNone) => true,
            (ValueKey::Ellipsis, ValueKey::Ellipsis) => true,
            _ => false,
        },
    }
}

/// Whether the keys are equal position by position.
fn items_pairwise_equal(xs: &Vec<ValueKey>, ys: &Vec<ValueKey>) -> (r: bool)
    ensures
        r == (key_views(xs@).len() == key_views(ys@).len()
            && forall|i: int| 0 <= i < key_views(xs@).len() ==> key_equiv(#[trigger] key_views(xs@)[i], key_views(ys@)[i])),
    decreases xs,
{
    proof {
        lemma_key_views_index(xs@);
        lemma_key_views_index(ys@);
    }
    let ghost xv = key_views(xs@);
    let ghost yv = key_views(ys@);
    if xs.len() != ys.len() {
        return false;
    }
    let mut i: usize = 0;
    while i < xs.len()
        invariant
            i <= xs@.len(),
            xs@.len() == ys@.len(),
            xv == key_views(xs@),
            yv == key_views(ys@),
            xv.len() == xs@.len(),
            yv.len() == ys@.len(),
            forall|k: int| 0 <= k < xs@.len() ==> #[trigger] xv[k] == xs@[k]@,
            forall|k: int| 0 <= k < ys@.len() ==> #[trigger] yv[k] == ys@[k]@,
            forall|k: int| 0 <= k < i ==> key_equiv(#[trigger] xv[k], yv[k]),
        decreases xs.len() - i,
    {
        if !keys_equal(&xs[i], &ys[i]) {
            assert(!key_equiv(xv[i as int], yv[i as int]));
            return false;
        }
        i = i + 1;
    }
    true
}

/// Whether two keys are the same dictionary key ([`key_equiv`]): how a
/// dictionary or set compares the keys of its entries.
pub fn keys_equal(a: &ValueKey, b: &ValueKey) -> (r: bool)
    ensures
        r == key_equiv(a@, b@),
    decreases a,
{
    match a {
        ValueKey::Tuple(xs) => {
            assert(a@ == KeyVal::Tuple(key_views(xs@)));
            match b {
                ValueKey::Tuple(ys) => {
                    assert(b@ == KeyVal::Tuple(key_views(ys@)));
                    let r = items_pairwise_equal(xs, ys);
                    assert(r == key_equiv(KeyVal::Tuple(key_views(xs@)), KeyVal::Tuple(key_views(ys@))));
                    r
                },
                _ => false,
            }
        },
        ValueKey::Frozenset(xs) => {
            assert(a@ == KeyVal::Frozenset(key_views(xs@)));
            match b {
                ValueKey::Frozenset(ys) => {
                    assert(b@ == KeyVal::Frozenset(key_views(ys@)));
                    let r = items_pairwise_equal(xs, ys);
                    assert(r == key_equiv(KeyVal::Frozenset(key_views(xs@)), KeyVal::Frozenset(key_views(ys@))));
                    r
                },
                _ => false,
            }
        },
        _ => scalar_keys_equal(a, b),
    }
}

/// The keys of equal Python values are the same dictionary key: `True`
/// and `1` (and `False` and `0`), and `2.0` and `2`, so `{True: x}[1]` and
/// `{2.0: x}[2]` find `x`; an integral float is the same key as the equal
/// integer in general.
pub proof fn law_equal_values_same_key(n: i64, f: u64)
    requires
        float_int_value(f) == Some(n as int),
    ensures
        key_equiv(key_of(PyVal::Bool(true))->Ok_0, key_of(PyVal::Int(1))->Ok_0),
        key_equiv(key_of(PyVal::Bool(false))->Ok_0, key_of(PyVal::Int(0))->Ok_0),
        key_equiv(key_of(PyVal::Float(f))->Ok_0, key_of(PyVal::Int(n as int))->Ok_0),
        key_equiv(key_of(PyVal::Int(n as int))->Ok_0, key_of(PyVal::Float(f))->Ok_0),
{
}

/// `2.0` (bits `0x4000_0000_0000_0000`) is an integral float with value 2.
pub proof fn law_two_point_zero_is_two()
    ensures
        float_int_value(0x4000_0000_0000_0000u64) == Some(2int),
        key_equiv(key_of(PyVal::Float(0x4000_0000_0000_0000u64))->Ok_0, key_of(PyVal::Int(2))->Ok_0),
{
    vstd::arithmetic::power2::lemma2_to64_rest();
    let f: u64 = 0x4000_0000_0000_0000u64;
    assert(f as int / two52() == 1024);
    assert(1024int % 2048 == 1024);
    assert(f as int % two52() == 0);
    assert(pow2(51) == 0x8_0000_0000_0000);
    assert(two52() % 0x8_0000_0000_0000int == 0);
    assert(two52() / 0x8_0000_0000_0000int == 2);
}

} // verus!
