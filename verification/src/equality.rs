//! Python's `==` on values: numbers across `bool`, `int`, `float` and
//! `complex` (compared by value, NaN equal to nothing), strings, byte
//! strings across `bytes` and `bytearray`, sequences element by element, and
//! sets and frozensets as sets.

use vstd::prelude::*;
use crate::value::{Value, PyVal, view_items, lemma_view_items};
use crate::keys::{float_int_value, float_equals_int};
use crate::text::str_eq;

verus! {

broadcast use lemma_view_items;

/// Whether a float (by its bits) is a NaN.
pub open spec fn is_nan_bits(f: u64) -> bool {
    (f as int / 0x10_0000_0000_0000) % 2048 == 2047 && f as int % 0x10_0000_0000_0000 != 0
}

/// Whether a float (by its bits) is zero, of either sign.
pub open spec fn zero_bits(f: u64) -> bool {
    f == 0 || f == 0x8000_0000_0000_0000u64
}

/// IEEE equality of two floats: the same non-NaN value; `0.0 == -0.0`.
pub open spec fn float_eq(x: u64, y: u64) -> bool {
    !is_nan_bits(x) && !is_nan_bits(y) && (x == y || (zero_bits(x) && zero_bits(y)))
}

/// The integer a `bool` or `int` stands for.
pub open spec fn int_of(v: PyVal) -> Option<int> {
    match v {
        PyVal::Bool(b) => Some(if b { 1int } else { 0int }),
        PyVal::Int(i) => Some(i),
        _ => None,
    }
}

/// Whether a value is a number (`bool`, `int`, `float` or `complex`).
pub open spec fn is_number(v: PyVal) -> bool {
    v is Bool || v is Int || v is Float || v is Complex
}

/// Equality of two numbers: integers by value, an integer and an integral
/// float (or a complex number with zero imaginary part) by value, floats and
/// complex numbers part by part under IEEE equality.
pub open spec fn num_eq(a: PyVal, b: PyVal) -> bool {
    match (int_of(a), int_of(b)) {
        (Some(x), Some(y)) => x == y,
        (Some(x), None) => match b {
            PyVal::Float(f) => float_int_value(f) == Some(x),
            PyVal::Complex(re, im) => zero_bits(im) && float_int_value(re) == Some(x),
            _ => false,
        },
        (None, Some(y)) => match a {
            PyVal::Float(f) => float_int_value(f) == Some(y),
            PyVal::Complex(re, im) => zero_bits(im) && float_int_value(re) == Some(y),
            _ => false,
        },
        (None, None) => match (a, b) {
            (PyVal::Float(x), PyVal::Float(y)) => float_eq(x, y),
            (PyVal::Float(x), PyVal::Complex(re, im)) => zero_bits(im) && float_eq(x, re),
            (PyVal::Complex(re, im), PyVal::Float(y)) => zero_bits(im) && float_eq(re, y),
            (PyVal::Complex(r1, i1), PyVal::Complex(r2, i2)) => float_eq(r1, r2) && float_eq(i1, i2),
            _ => false,
        },
    }
}

/// Python's `a == b` on values.
pub open spec fn py_eq(a: PyVal, b: PyVal) -> bool
    decreases a,
{
    if is_number(a) && is_number(b) {
        num_eq(a, b)
    } else {
        match a {
            PyVal::PyNone => b is PyNone,
            PyVal::Ellipsis => b is Ellipsis,
            PyVal::Str(x) => b matches PyVal::Str(y) && x == y,
            PyVal::Bytes(x) => match b {
                PyVal::Bytes(y) => x == y,
                PyVal::ByteArray(y) => x == y,
                _ => false,
            },
            PyVal::ByteArray(x) => match b {
                PyVal::Bytes(y) => x == y,
                PyVal::ByteArray(y) => x == y,
                _ => false,
            },
            PyVal::Tuple(xs) => match b {
                PyVal::Tuple(ys) => xs.len() == ys.len() && forall|i: int| 0 <= i < xs.len() ==> py_eq(#[trigger] xs[i], ys[i]),
                _ => false,
            },
            PyVal::List(xs) => match b {
                PyVal::List(ys) => xs.len() == ys.len() && forall|i: int| 0 <= i < xs.len() ==> py_eq(#[trigger] xs[i], ys[i]),
                _ => false,
            },
            PyVal::Deque(xs, _) => match b {
                PyVal::Deque(ys, _) => xs.len() == ys.len() && forall|i: int| 0 <= i < xs.len() ==> py_eq(#[trigger] xs[i], ys[i]),
                _ => false,
            },
            PyVal::PySet(xs) => match b {
                PyVal::PySet(ys) => xs.len() == ys.len()
                    && forall|i: int| 0 <= i < xs.len() ==> exists|j: int| 0 <= j < ys.len() && py_eq(#[trigger] xs[i], ys[j]),
                PyVal::Frozenset(ys) => xs.len() == ys.len()
                    && forall|i: int| 0 <= i < xs.len() ==> exists|j: int| 0 <= j < ys.len() && py_eq(#[trigger] xs[i], ys[j]),
                _ => false,
            },
            PyVal::Frozenset(xs) => match b {
                PyVal::PySet(ys) => xs.len() == ys.len()
                    && forall|i: int| 0 <= i < xs.len() ==> exists|j: int| 0 <= j < ys.len() && py_eq(#[trigger] xs[i], ys[j]),
                PyVal::Frozenset(ys) => xs.len() == ys.len()
                    && forall|i: int| 0 <= i < xs.len() ==> exists|j: int| 0 <= j < ys.len() && py_eq(#[trigger] xs[i], ys[j]),
                _ => false,
            },
            _ => false,
        }
    }
}

/// Each member of `xs` equals some member of `ys`.
pub open spec fn members_in(xs: Seq<PyVal>, ys: Seq<PyVal>) -> bool {
    forall|i: int| 0 <= i < xs.len() ==> exists|j: int| 0 <= j < ys.len() && py_eq(#[trigger] xs[i], ys[j])
}

/// The members of the two sequences are equal position by position.
pub open spec fn pairwise_eq(xs: Seq<PyVal>, ys: Seq<PyVal>) -> bool {
    xs.len() == ys.len() && forall|i: int| 0 <= i < xs.len() ==> py_eq(#[trigger] xs[i], ys[i])
}

fn is_nan_exec(f: u64) -> (r: bool)
    ensures
        r == is_nan_bits(f),
{
    (f / 0x10_0000_0000_0000u64) % 2048 == 2047 && f % 0x10_0000_0000_0000u64 != 0
}

fn float_eq_exec(x: u64, y: u64) -> (r: bool)
    ensures
        r == float_eq(x, y),
{
    !is_nan_exec(x) && !is_nan_exec(y)
        && (x == y || ((x == 0 || x == 0x8000_0000_0000_0000u64) && (y == 0 || y == 0x8000_0000_0000_0000u64)))
}

fn int_of_exec(v: &Value) -> (r: Option<i64>)
    ensures
        match int_of(v@) {
            Some(x) => r == Some(x as i64) && x == x as i64,
            None => r is None,
        },
{
    match v {
        Value::Bool(b) => Some(if *b { 1 } else { 0 }),
        Value::Int(i) => Some(*i),
        _ => None,
    }
}

fn num_eq_exec(a: &Value, b: &Value) -> (r: bool)
    ensures
        r == num_eq(a@, b@),
{
    match (int_of_exec(a), int_of_exec(b)) {
        (Some(x), Some(y)) => x == y,
        (Some(x), None) => match b {
            Value::Float(f) => float_equals_int(*f, x),
            Value::Complex(re, im) => (*im == 0 || *im == 0x8000_0000_0000_0000u64) && float_equals_int(*re, x),
            _ => false,
        },
        (None, Some(y)) => match a {
            Value::Float(f) => float_equals_int(*f, y),
            Value::Complex(re, im) => (*im == 0 || *im == 0x8000_0000_0000_0000u64) && float_equals_int(*re, y),
            _ => false,
        },
        (None, None) => match (a, b) {
            (Value::Float(x), Value::Float(y)) => float_eq_exec(*x, *y),
            (Value::Float(x), Value::Complex(re, im)) => (*im == 0 || *im == 0x8000_0000_0000_0000u64) && float_eq_exec(*x, *re),
            (Value::Complex(re, im), Value::Float(y)) => (*im == 0 || *im == 0x8000_0000_0000_0000u64) && float_eq_exec(*re, *y),
            (Value::Complex(r1, i1), Value::Complex(r2, i2)) => float_eq_exec(*r1, *r2) && float_eq_exec(*i1, *i2),
            _ => false,
        },
    }
}

fn items_equal(xs: &Vec<Value>, ys: &Vec<Value>) -> (r: bool)
    ensures
        r == pairwise_eq(view_items(xs@), view_items(ys@)),
    decreases xs,
{
    let ghost vx = view_items(xs@);
    let ghost vy = view_items(ys@);
    proof {
        lemma_view_items(xs@);
        lemma_view_items(ys@);
    }
    if xs.len() != ys.len() {
        return false;
    }
    let mut i: usize = 0;
    while i < xs.len()
        invariant
            i <= xs@.len(),
            xs@.len() == ys@.len(),
            vx == view_items(xs@),
            vy == view_items(ys@),
            vx.len() == xs@.len(),
            vy.len() == ys@.len(),
            forall|k: int| 0 <= k < xs@.len() ==> #[trigger] vx[k] == xs@[k]@,
            forall|k: int| 0 <= k < ys@.len() ==> #[trigger] vy[k] == ys@[k]@,
            forall|k: int| 0 <= k < i ==> py_eq(#[trigger] vx[k], vy[k]),
        decreases xs.len() - i,
    {
        assert(vx[i as int] == xs@[i as int]@ && vy[i as int] == ys@[i as int]@);
        if !values_equal(&xs[i], &ys[i]) {
            assert(!py_eq(vx[i as int], vy[i as int]));
            return false;
        }
        i = i + 1;
    }
    true
}

fn items_members_in(xs: &Vec<Value>, ys: &Vec<Value>) -> (r: bool)
    ensures
        r == members_in(view_items(xs@), view_items(ys@)),
    decreases xs,
{
    let ghost vx = view_items(xs@);
    let ghost vy = view_items(ys@);
    proof {
        lemma_view_items(xs@);
        lemma_view_items(ys@);
    }
    let mut a: usize = 0;
    while a < xs.len()
        invariant
            a <= xs@.len(),
            vx == view_items(xs@),
            vy == view_items(ys@),
            vx.len() == xs@.len(),
            vy.len() == ys@.len(),
            forall|k: int| 0 <= k < xs@.len() ==> #[trigger] vx[k] == xs@[k]@,
            forall|k: int| 0 <= k < ys@.len() ==> #[trigger] vy[k] == ys@[k]@,
            forall|k: int| 0 <= k < a ==> exists|j: int| 0 <= j < vy.len() && py_eq(#[trigger] vx[k], vy[j]),
        decreases xs.len() - a,
    {
        let mut found = false;
        let mut b: usize = 0;
        while b < ys.len() && !found
            invariant
                a < xs@.len(),
                b <= ys@.len(),
                vx == view_items(xs@),
                vy == view_items(ys@),
                vx.len() == xs@.len(),
                vy.len() == ys@.len(),
                forall|k: int| 0 <= k < xs@.len() ==> #[trigger] vx[k] == xs@[k]@,
                forall|k: int| 0 <= k < ys@.len() ==> #[trigger] vy[k] == ys@[k]@,
                found ==> exists|j: int| 0 <= j < vy.len() && py_eq(vx[a as int], vy[j]),
                !found ==> forall|j: int| 0 <= j < b ==> !py_eq(vx[a as int], #[trigger] vy[j]),
            decreases ys.len() - b, if found { 0int } else { 1int },
        {
            assert(vx[a as int] == xs@[a as int]@ && vy[b as int] == ys@[b as int]@);
            if values_equal(&xs[a], &ys[b]) {
                assert(py_eq(vx[a as int], vy[b as int]));
                found = true;
            } else {
                b = b + 1;
            }
        }
        if !found {
            assert(!(exists|j: int| 0 <= j < vy.len() && py_eq(vx[a as int], vy[j])));
            assert(vx[a as int] == vx[a as int]);
            assert(!members_in(vx, vy)) by {
                if members_in(vx, vy) {
                    assert(exists|j: int| 0 <= j < vy.len() && py_eq(vx[a as int], vy[j]));
                }
            }
            return false;
        }
        a = a + 1;
    }
    true
}

/// Python's `a == b`.
pub fn values_equal(a: &Value, b: &Value) -> (r: bool)
    ensures
        r == py_eq(a@, b@),
    decreases a,
{
    let an = match a { Value::Bool(_) | Value::Int(_) | Value::Float(_) | Value::Complex(..) => true, _ => false };
    let bn = match b { Value::Bool(_) | Value::Int(_) | Value::Float(_) | Value::Complex(..) => true, _ => false };
    if an && bn {
        return num_eq_exec(a, b);
    }
    assert(!(is_number(a@) && is_number(b@)));
    match a {
        Value::PyNone => {
            assert(py_eq(a@, b@) == (b@ is PyNone));
            match b { Value::PyNone => true, _ => false }
        },
        Value::Ellipsis => {
            assert(py_eq(a@, b@) == (b@ is Ellipsis));
            match b { Value::Ellipsis => true, _ => false }
        },
        Value::String(x) => match b {
            Value::String(y) => {
                let r = str_eq(x.as_str(), y.as_str());
                assert(py_eq(a@, b@) == (x@ == y@));
                r
            },
            _ => false,
        },
        Value::Bytes(x) | Value::ByteArray(x) => match b {
            Value::Bytes(y) | Value::ByteArray(y) => {
                let r = bytes_equal(x, y);
                assert(py_eq(a@, b@) == (x@ == y@));
                r
            },
            _ => false,
        },
        Value::Tuple(xs) => match b {
            Value::Tuple(ys) => {
                let r = items_equal(xs, ys);
                assert(py_eq(a@, b@) == pairwise_eq(view_items(xs@), view_items(ys@)));
                r
            },
            _ => false,
        },
        Value::List(xs) => match b {
            Value::List(ys) => {
                let r = items_equal(xs, ys);
                assert(py_eq(a@, b@) == pairwise_eq(view_items(xs@), view_items(ys@)));
                r
            },
            _ => false,
        },
        Value::Deque(xs, _) => match b {
            Value::Deque(ys, _) => {
                let r = items_equal(xs, ys);
                assert(py_eq(a@, b@) == pairwise_eq(view_items(xs@), view_items(ys@)));
                r
            },
            _ => false,
        },
        Value::PySet(xs) | Value::Frozenset(xs) => match b {
            Value::PySet(ys) | Value::Frozenset(ys) => {
                proof {
                    lemma_view_items(xs@);
                    lemma_view_items(ys@);
                }
                let r = xs.len() == ys.len() && items_members_in(xs, ys);
                proof {
                    let vx = view_items(xs@);
                    let vy = view_items(ys@);
                    assert(a@ == PyVal::PySet(vx) || a@ == PyVal::Frozenset(vx));
                    assert(b@ == PyVal::PySet(vy) || b@ == PyVal::Frozenset(vy));
                    if py_eq(a@, b@) {
                        assert forall|i: int| 0 <= i < vx.len() implies exists|j: int| 0 <= j < vy.len() && py_eq(#[trigger] vx[i], vy[j]) by {}
                        assert(members_in(vx, vy));
                    }
                    if vx.len() == vy.len() && members_in(vx, vy) {
                        assert forall|i: int| 0 <= i < vx.len() implies exists|j: int| 0 <= j < vy.len() && py_eq(#[trigger] vx[i], vy[j]) by {}
                    }
                    assert(py_eq(a@, b@) == (vx.len() == vy.len() && members_in(vx, vy)));
                }
                r
            },
            _ => false,
        },
        _ => false,
    }
}

fn bytes_equal(x: &Vec<u8>, y: &Vec<u8>) -> (r: bool)
    ensures
        r == (x@ == y@),
{
    if x.len() != y.len() {
        return false;
    }
    let mut i: usize = 0;
    while i < x.len()
        invariant
            i <= x@.len(),
            x@.len() == y@.len(),
            forall|k: int| 0 <= k < i ==> x@[k] == y@[k],
        decreases x.len() - i,
    {
        if x[i] != y[i] {
            return false;
        }
        i = i + 1;
    }
    assert(x@ =~= y@);
    true
}

} // verus!
