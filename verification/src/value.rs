//! The value model: runtime values, their mathematical view, and hashing.

use vstd::prelude::*;
use crate::error::{EvalError, is_type_error, type_error};
use crate::text::{chars_of, string_from_chars, concat_str};

verus! {

/// A runtime value of the interpreter.
#[derive(Debug, PartialEq)]
pub enum Value {
    PyNone,
    Ellipsis,
    Bool(bool),
    Int(i64),
    /// A float, held as its IEEE-754 bit pattern.
    Float(u64),
    /// A complex number, held as the bit patterns of its real and imaginary parts.
    Complex(u64, u64),
    String(String),
    Bytes(Vec<u8>),
    ByteArray(Vec<u8>),
    Tuple(Vec<Value>),
    List(Vec<Value>),
    /// A set, its members in iteration order.
    PySet(Vec<Value>),
    /// A frozenset, its members in iteration order.
    Frozenset(Vec<Value>),
    /// A `collections.deque`, its items front to back, with its `maxlen`.
    Deque(Vec<Value>, Option<usize>),
}

/// The mathematical view of a [`Value`].
pub enum PyVal {
    PyNone,
    Ellipsis,
    Bool(bool),
    Int(int),
    Float(u64),
    Complex(u64, u64),
    Str(Seq<char>),
    Bytes(Seq<u8>),
    ByteArray(Seq<u8>),
    Tuple(Seq<PyVal>),
    List(Seq<PyVal>),
    PySet(Seq<PyVal>),
    Frozenset(Seq<PyVal>),
    Deque(Seq<PyVal>, Option<nat>),
}

pub open spec fn view_items(items: Seq<Value>) -> Seq<PyVal>
    decreases items, 1int,
{
    if items.len() == 0 {
        Seq::empty()
    } else {
        view_items(items.drop_last()).push(view_value(items.last()))
    }
}

pub open spec fn view_value(v: Value) -> PyVal
    decreases v, 0int,
{
    match v {
        Value::PyNone => PyVal::PyNone,
        Value::Ellipsis => PyVal::Ellipsis,
        Value::Bool(b) => PyVal::Bool(b),
        Value::Int(i) => PyVal::Int(i as int),
        Value::Float(f) => PyVal::Float(f),
        Value::Complex(re, im) => PyVal::Complex(re, im),
        Value::String(s) => PyVal::Str(s@),
        Value::Bytes(b) => PyVal::Bytes(b@),
        Value::ByteArray(b) => PyVal::ByteArray(b@),
        Value::Tuple(items) => PyVal::Tuple(view_items(items@)),
        Value::List(items) => PyVal::List(view_items(items@)),
        Value::PySet(items) => PyVal::PySet(view_items(items@)),
        Value::Frozenset(items) => PyVal::Frozenset(view_items(items@)),
        Value::Deque(items, maxlen) => PyVal::Deque(view_items(items@), match maxlen { Some(m) => Some(m as nat), None => None }),
    }
}

impl View for Value {
    type V = PyVal;

    open spec fn view(&self) -> PyVal {
        view_value(*self)
    }
}

/// The view of a sequence of values is taken element by element.
pub broadcast proof fn lemma_view_items(items: Seq<Value>)
    ensures
        #[trigger] view_items(items).len() == items.len(),
        forall|i: int| 0 <= i < items.len() ==> view_items(items)[i] == view_value(#[trigger] items[i]),
    decreases items.len(),
{
    if items.len() > 0 {
        let init = items.drop_last();
        lemma_view_items(init);
        assert forall|i: int| 0 <= i < items.len() implies view_items(items)[i] == view_value(
            #[trigger] items[i],
        ) by {
            if i < items.len() - 1 {
                assert(items[i] == init[i]);
            }
        }
    }
}

/// The Python class name of a value.
pub open spec fn spec_py_type_name(v: Value) -> Seq<char> {
    match v {
        Value::PyNone => "NoneType"@,
        Value::Ellipsis => "ellipsis"@,
        Value::Bool(_) => "bool"@,
        Value::Int(_) => "int"@,
        Value::Float(_) => "float"@,
        Value::Complex(..) => "complex"@,
        Value::String(_) => "str"@,
        Value::Bytes(_) => "bytes"@,
        Value::ByteArray(_) => "bytearray"@,
        Value::Tuple(_) => "tuple"@,
        Value::List(_) => "list"@,
        Value::PySet(_) => "set"@,
        Value::Frozenset(_) => "frozenset"@,
        Value::Deque(..) => "deque"@,
    }
}

/// The Python class name of a value's view.
pub open spec fn pyval_type_name(v: PyVal) -> Seq<char> {
    match v {
        PyVal::PyNone => "NoneType"@,
        PyVal::Ellipsis => "ellipsis"@,
        PyVal::Bool(_) => "bool"@,
        PyVal::Int(_) => "int"@,
        PyVal::Float(_) => "float"@,
        PyVal::Complex(..) => "complex"@,
        PyVal::Str(_) => "str"@,
        PyVal::Bytes(_) => "bytes"@,
        PyVal::ByteArray(_) => "bytearray"@,
        PyVal::Tuple(_) => "tuple"@,
        PyVal::List(_) => "list"@,
        PyVal::PySet(_) => "set"@,
        PyVal::Frozenset(_) => "frozenset"@,
        PyVal::Deque(..) => "deque"@,
    }
}

/// A value and its view have the same class name.
pub broadcast proof fn lemma_type_name_view(v: Value)
    ensures
        #[trigger] pyval_type_name(view_value(v)) == spec_py_type_name(v),
{
}

/// The IEEE-754 bit pattern of `-0.0`.
pub open spec fn neg_zero_bits() -> u64 {
    0x8000_0000_0000_0000u64
}

/// Python truthiness: `None`, `False`, zero numbers and empty containers are
/// false; everything else is true (a NaN float included).
pub open spec fn spec_truthy(v: PyVal) -> bool {
    match v {
        PyVal::PyNone => false,
        PyVal::Ellipsis => true,
        PyVal::Bool(b) => b,
        PyVal::Int(i) => i != 0,
        PyVal::Float(f) => f != 0 && f != neg_zero_bits(),
        PyVal::Complex(re, im) => (re != 0 && re != neg_zero_bits()) || (im != 0 && im != neg_zero_bits()),
        PyVal::Str(s) => s.len() > 0,
        PyVal::Bytes(b) => b.len() > 0,
        PyVal::ByteArray(b) => b.len() > 0,
        PyVal::Tuple(items) => items.len() > 0,
        PyVal::List(items) => items.len() > 0,
        PyVal::PySet(items) => items.len() > 0,
        PyVal::Frozenset(items) => items.len() > 0,
        PyVal::Deque(items, _) => items.len() > 0,
    }
}

/// The one-character strings of `s`, in order.
pub open spec fn char_strings(s: Seq<char>) -> Seq<PyVal> {
    Seq::new(s.len(), |i: int| PyVal::Str(seq![s[i]]))
}

/// The small ints of `b`, in order.
pub open spec fn byte_ints(b: Seq<u8>) -> Seq<PyVal> {
    Seq::new(b.len(), |i: int| PyVal::Int(b[i] as int))
}

/// The items that iterating `v` yields, when `v` is iterable.
pub open spec fn spec_iter_items(v: PyVal) -> Option<Seq<PyVal>> {
    match v {
        PyVal::Str(s) => Some(char_strings(s)),
        PyVal::Bytes(b) => Some(byte_ints(b)),
        PyVal::ByteArray(b) => Some(byte_ints(b)),
        PyVal::Tuple(items) => Some(items),
        PyVal::List(items) => Some(items),
        PyVal::PySet(items) => Some(items),
        PyVal::Frozenset(items) => Some(items),
        PyVal::Deque(items, _) => Some(items),
        _ => None,
    }
}

impl Value {
    /// Python truthiness of this value.
    pub fn is_truthy(&self) -> (r: bool)
        ensures
            r == spec_truthy(self@),
    {
        proof { lemma_view_items_len_all(); }
        match self {
            Value::PyNone => false,
            Value::Ellipsis => true,
            Value::Bool(b) => *b,
            Value::Int(i) => *i != 0,
            Value::Float(f) => *f != 0 && *f != 0x8000_0000_0000_0000u64,
            Value::Complex(re, im) => (*re != 0 && *re != 0x8000_0000_0000_0000u64) || (*im != 0 && *im != 0x8000_0000_0000_0000u64),
            Value::String(s) => !s.as_str().is_empty(),
            Value::Bytes(b) => b.len() > 0,
            Value::ByteArray(b) => b.len() > 0,
            Value::Tuple(items) => items.len() > 0,
            Value::List(items) => items.len() > 0,
            Value::PySet(items) => items.len() > 0,
            Value::Frozenset(items) => items.len() > 0,
            Value::Deque(items, _) => items.len() > 0,
        }
    }

    /// The Python class name of this value.
    pub fn py_type_name(&self) -> (r: &'static str)
        ensures
            r@ == spec_py_type_name(*self),
    {
        match self {
            Value::PyNone => "NoneType",
            Value::Ellipsis => "ellipsis",
            Value::Bool(_) => "bool",
            Value::Int(_) => "int",
            Value::Float(_) => "float",
            Value::Complex(..) => "complex",
            Value::String(_) => "str",
            Value::Bytes(_) => "bytes",
            Value::ByteArray(_) => "bytearray",
            Value::Tuple(_) => "tuple",
            Value::List(_) => "list",
            Value::PySet(_) => "set",
            Value::Frozenset(_) => "frozenset",
            Value::Deque(..) => "deque",
        }
    }

    /// A copy of this value with the same view.
    pub fn deep_copy(&self) -> (r: Value)
        ensures
            r@ == self@,
        decreases self,
    {
        match self {
            Value::PyNone => Value::PyNone,
            Value::Ellipsis => Value::Ellipsis,
            Value::Bool(b) => Value::Bool(*b),
            Value::Int(i) => Value::Int(*i),
            Value::Float(f) => Value::Float(*f),
            Value::Complex(re, im) => Value::Complex(*re, *im),
            Value::String(s) => Value::String(s.clone()),
            Value::Bytes(b) => Value::Bytes(b.clone()),
            Value::ByteArray(b) => Value::ByteArray(b.clone()),
            Value::Tuple(items) => Value::Tuple(copy_items(items)),
            Value::List(items) => Value::List(copy_items(items)),
            Value::PySet(items) => Value::PySet(copy_items(items)),
            Value::Frozenset(items) => Value::Frozenset(copy_items(items)),
            Value::Deque(items, maxlen) => Value::Deque(copy_items(items), *maxlen),
        }
    }
}

/// Viewing a sequence with one more value appends that value's view.
pub broadcast proof fn lemma_view_items_push(items: Seq<Value>, x: Value)
    ensures
        #[trigger] view_items(items.push(x)) == view_items(items).push(view_value(x)),
{
    assert(items.push(x).drop_last() =~= items);
}

pub(crate) proof fn lemma_view_items_len_all()
    ensures
        forall|items: Seq<Value>| #[trigger] view_items(items).len() == items.len(),
{
    assert forall|items: Seq<Value>| #[trigger] view_items(items).len() == items.len() by {
        lemma_view_items(items);
    }
}

/// The items of an iterable builtin container, in iteration order: the
/// characters of a `str` as one-character strings, the bytes of a
/// `bytes`/`bytearray` as ints, the members of a tuple, list, set or
/// frozenset. Anything else raises `TypeError`.
pub fn iterate_value(v: &Value) -> (r: Result<Vec<Value>, EvalError>)
    ensures
        match spec_iter_items(v@) {
            Some(items) => r matches Ok(out) && view_items(out@) == items,
            None => r matches Err(e) && is_type_error(e, "'"@ + spec_py_type_name(*v) + "' object is not iterable"@),
        },
{
    match v {
        Value::String(s) => {
            let cs = chars_of(s.as_str());
            let mut out: Vec<Value> = Vec::new();
            let mut i: usize = 0;
            while i < cs.len()
                invariant
                    i <= cs@.len(),
                    cs@ == s@,
                    view_items(out@) == char_strings(cs@).subrange(0, i as int),
                decreases cs.len() - i,
            {
                let mut one: Vec<char> = Vec::new();
                one.push(cs[i]);
                let item = Value::String(string_from_chars(&one));
                proof {
                    lemma_view_items_push(out@, item);
                    assert(one@ =~= seq![cs@[i as int]]);
                    assert(view_items(out@.push(item)) =~= char_strings(cs@).subrange(0, i + 1));
                }
                out.push(item);
                i = i + 1;
            }
            assert(char_strings(cs@).subrange(0, cs@.len() as int) =~= char_strings(cs@));
            Ok(out)
        },
        Value::Bytes(b) => Ok(byte_int_values(b)),
        Value::ByteArray(b) => Ok(byte_int_values(b)),
        Value::Tuple(items) => Ok(copy_items(items)),
        Value::List(items) => Ok(copy_items(items)),
        Value::PySet(items) => Ok(copy_items(items)),
        Value::Frozenset(items) => Ok(copy_items(items)),
        Value::Deque(items, _) => Ok(copy_items(items)),
        _ => {
            let s1 = concat_str("'", v.py_type_name());
            let s2 = s1.concat("' object is not iterable");
            assert(s2@ =~= "'"@ + spec_py_type_name(*v) + "' object is not iterable"@);
            Err(type_error(s2))
        },
    }
}

/// The bytes of `b` as `int` values.
pub fn byte_int_values(b: &Vec<u8>) -> (r: Vec<Value>)
    ensures
        view_items(r@) == byte_ints(b@),
{
    let mut out: Vec<Value> = Vec::new();
    let mut i: usize = 0;
    while i < b.len()
        invariant
            i <= b@.len(),
            view_items(out@) == byte_ints(b@).subrange(0, i as int),
        decreases b.len() - i,
    {
        let item = Value::Int(b[i] as i64);
        proof {
            lemma_view_items_push(out@, item);
            assert(view_items(out@.push(item)) =~= byte_ints(b@).subrange(0, i + 1));
        }
        out.push(item);
        i = i + 1;
    }
    assert(byte_ints(b@).subrange(0, b@.len() as int) =~= byte_ints(b@));
    out
}

/// A copy of a vector of values, element by element.
pub fn copy_items(items: &Vec<Value>) -> (r: Vec<Value>)
    ensures
        view_items(r@) == view_items(items@),
    decreases items,
{
    broadcast use lemma_view_items;
    let mut out: Vec<Value> = Vec::new();
    let mut i: usize = 0;
    while i < items.len()
        invariant
            i <= items.len(),
            out@.len() == i,
            forall|j: int| 0 <= j < i ==> view_value(#[trigger] out@[j]) == view_value(items@[j]),
        decreases items.len() - i,
    {
        let c = items[i].deep_copy();
        out.push(c);
        i = i + 1;
    }
    proof {
        lemma_view_items(out@);
        lemma_view_items(items@);
        assert forall|j: int| 0 <= j < out@.len() implies view_items(out@)[j] == view_items(
            items@,
        )[j] by {
            assert(view_value(out@[j]) == view_value(items@[j]));
        }
        assert(view_items(out@) =~= view_items(items@));
    }
    out
}

} // verus!
