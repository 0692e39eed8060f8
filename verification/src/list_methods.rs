//! `list` and `tuple` methods. A list method changes the items in place and
//! reports the values that entered and left the list, for the caller's
//! memory accounting; all of them take positional arguments only.

use vstd::prelude::*;
use indexmap::IndexMap;
use crate::value::{Value, PyVal, view_items, lemma_view_items, spec_iter_items, spec_py_type_name, iterate_value};
use crate::error::{EvalError, ErrSpec, err_matches, type_error, exception};
use crate::kwargs::{kwarg_entries, reject_kwargs, unexpected_kwarg_msg, arg1};
use crate::numeric::{value_to_i64, spec_int_of, not_integer_msg, sequence_index_range, spec_sequence_index_range};
use crate::equality::{py_eq, values_equal};
use crate::bytes_methods::{no_attr_msg, no_attribute};
use crate::deque_methods::{count_equal, first_equal, one_arg_msg, count_equal_exec, lemma_view_ext, lemma_view_concat, reversed};
use crate::text::{str_eq, str_to_string};

verus! {

broadcast use lemma_view_items;

/// What a list method returns, with the values that entered the list and
/// those that left it.
#[derive(Debug)]
pub struct ListOutcome {
    pub value: Value,
    pub added: Vec<Value>,
    pub dropped: Vec<Value>,
}

/// Why a list method failed: an error, or the value that `index` did not
/// find (whose message, `{repr} is not in list`, the caller renders).
#[derive(Debug)]
pub enum ListError {
    Raised(EvalError),
    NotInList(Value),
}

pub enum ListErrView {
    Spec(ErrSpec),
    NotIn(PyVal),
}

/// A result and the list afterwards.
pub type ListSpec = (Result<(PyVal, Seq<PyVal>, Seq<PyVal>), ListErrView>, Seq<PyVal>);

pub open spec fn list_matches(r: Result<ListOutcome, ListError>, after: Seq<PyVal>, s: ListSpec) -> bool {
    &&& after == s.1
    &&& match s.0 {
        Ok((v, a, d)) => r matches Ok(o) && o.value@ == v && view_items(o.added@) == a && view_items(o.dropped@) == d,
        Err(ListErrView::Spec(es)) => r matches Err(ListError::Raised(e)) && err_matches(e, es),
        Err(ListErrView::NotIn(x)) => r matches Err(ListError::NotInList(v)) && v@ == x,
    }
}

pub open spec fn list_ok(v: PyVal, after: Seq<PyVal>, added: Seq<PyVal>, dropped: Seq<PyVal>) -> ListSpec {
    (Ok((v, added, dropped)), after)
}

pub open spec fn list_fail(items: Seq<PyVal>, es: ErrSpec) -> ListSpec {
    (Err(ListErrView::Spec(es)), items)
}

/// The first position in `k..end` whose item equals `x`.
pub open spec fn first_equal_between(s: Seq<PyVal>, x: PyVal, k: int, end: int) -> Option<int>
    decreases end - k,
{
    if k < 0 || k >= end || k >= s.len() {
        None
    } else if py_eq(s[k], x) {
        Some(k)
    } else {
        first_equal_between(s, x, k + 1, end)
    }
}

/// The position `insert(i, x)` puts `x` at in a list of `len` items: a
/// negative `i` counts from the end and stops at the front, a large one
/// stops at the end.
pub open spec fn list_insert_position(i: int, len: int) -> int {
    if i < 0 { if len + i < 0 { 0 } else { len + i } } else if i > len { len } else { i }
}

/// `list.index(x[, start[, stop]])`.
pub open spec fn spec_list_index(items: Seq<PyVal>, args: Seq<Value>) -> ListSpec {
    if args.len() == 0 {
        list_fail(items, ErrSpec::Type(one_arg_msg("index"@)))
    } else {
        match spec_sequence_index_range("index"@, args, items.len() as int) {
            Err(m) => list_fail(items, ErrSpec::Type(m)),
            Ok((a, b)) => match first_equal_between(items, args[0]@, a, b) {
                Some(i) => list_ok(PyVal::Int(i), items, Seq::empty(), Seq::empty()),
                None => (Err(ListErrView::NotIn(args[0]@)), items),
            },
        }
    }
}

/// `list.insert(i, x)`.
pub open spec fn spec_list_insert(items: Seq<PyVal>, args: Seq<Value>) -> ListSpec {
    if args.len() != 2 {
        list_fail(items, ErrSpec::Type("insert() takes exactly 2 arguments"@))
    } else {
        match spec_int_of(args[0]) {
            None => list_fail(items, ErrSpec::Type(not_integer_msg(args[0]))),
            Some(i) => {
                let x = args[1]@;
                list_ok(PyVal::PyNone, items.insert(list_insert_position(i, items.len() as int), x), seq![x], Seq::empty())
            },
        }
    }
}

/// `list.pop([i])`.
pub open spec fn spec_list_pop(items: Seq<PyVal>, args: Seq<Value>) -> ListSpec {
    if items.len() == 0 {
        list_fail(items, ErrSpec::Exc("IndexError"@, "pop from empty list"@))
    } else if args.len() == 0 {
        list_ok(items.last(), items.drop_last(), Seq::empty(), seq![items.last()])
    } else {
        match spec_int_of(args[0]) {
            None => list_fail(items, ErrSpec::Type(not_integer_msg(args[0]))),
            Some(raw) => {
                let i = if raw < 0 { items.len() + raw } else { raw };
                if i < 0 || i >= items.len() {
                    list_fail(items, ErrSpec::Exc("IndexError"@, "pop index out of range"@))
                } else {
                    list_ok(items[i], items.remove(i), Seq::empty(), seq![items[i]])
                }
            },
        }
    }
}

/// `list.remove(x)`.
pub open spec fn spec_list_remove(items: Seq<PyVal>, args: Seq<Value>) -> ListSpec {
    if args.len() == 0 {
        list_fail(items, ErrSpec::Type(one_arg_msg("remove"@)))
    } else {
        match first_equal(items, args[0]@, 0) {
            Some(i) => list_ok(PyVal::PyNone, items.remove(i), Seq::empty(), seq![items[i]]),
            None => list_fail(items, ErrSpec::Exc("ValueError"@, "list.remove(x): x not in list"@)),
        }
    }
}

/// What each list method gives on the items.
pub open spec fn spec_list_method(items: Seq<PyVal>, method: Seq<char>, args: Seq<Value>) -> ListSpec {
    if method == "copy"@ {
        list_ok(PyVal::List(items), items, Seq::empty(), Seq::empty())
    } else if method == "count"@ {
        if args.len() != 1 {
            list_fail(items, ErrSpec::Type("count() takes exactly one argument"@))
        } else {
            list_ok(PyVal::Int(count_equal(items, args[0]@) as int), items, Seq::empty(), Seq::empty())
        }
    } else if method == "index"@ {
        spec_list_index(items, args)
    } else if method == "append"@ {
        if args.len() == 0 {
            list_fail(items, ErrSpec::Type(one_arg_msg(method)))
        } else {
            list_ok(PyVal::PyNone, items.push(args[0]@), seq![args[0]@], Seq::empty())
        }
    } else if method == "extend"@ {
        if args.len() == 0 {
            list_fail(items, ErrSpec::Type(one_arg_msg(method)))
        } else {
            match spec_iter_items(args[0]@) {
                None => list_fail(items, ErrSpec::Type("'"@ + spec_py_type_name(args[0]) + "' object is not iterable"@)),
                Some(new) => list_ok(PyVal::PyNone, items + new, new, Seq::empty()),
            }
        }
    } else if method == "insert"@ {
        spec_list_insert(items, args)
    } else if method == "pop"@ {
        spec_list_pop(items, args)
    } else if method == "remove"@ {
        spec_list_remove(items, args)
    } else if method == "reverse"@ {
        list_ok(PyVal::PyNone, items.reverse(), Seq::empty(), Seq::empty())
    } else if method == "clear"@ {
        list_ok(PyVal::PyNone, Seq::empty(), Seq::empty(), items)
    } else {
        list_fail(items, ErrSpec::Attribute(no_attr_msg("list"@, method)))
    }
}

/// What a list method call gives, keyword arguments included (every
/// method here takes none).
pub open spec fn spec_list(items: Seq<PyVal>, method: Seq<char>, args: Seq<Value>, kws: Seq<(Seq<char>, Value)>) -> ListSpec {
    if kws.len() > 0 {
        list_fail(items, ErrSpec::Type(unexpected_kwarg_msg(method, kws[0].0)))
    } else {
        spec_list_method(items, method, args)
    }
}

/// The lists whose lengths and positions fit an `i64`.
pub open spec fn list_fits(items: Seq<Value>) -> bool {
    items.len() < i64::MAX
}

// ---------------------------------------------------------------------------
// Implementation
// ---------------------------------------------------------------------------

fn raised(e: EvalError) -> (r: Result<ListOutcome, ListError>)
    ensures
        r == Err::<ListOutcome, ListError>(ListError::Raised(e)),
{
    Err(ListError::Raised(e))
}

fn outcome(value: Value, added: Vec<Value>, dropped: Vec<Value>) -> (o: ListOutcome)
    ensures
        o.value == value,
        o.added@ == added@,
        o.dropped@ == dropped@,
{
    ListOutcome { value, added, dropped }
}

fn nothing() -> (r: Vec<Value>)
    ensures
        view_items(r@) == Seq::<PyVal>::empty(),
{
    let r: Vec<Value> = Vec::new();
    proof { assert(view_items(r@) =~= Seq::<PyVal>::empty()); }
    r
}

fn one(x: Value) -> (r: Vec<Value>)
    ensures
        view_items(r@) == seq![x@],
{
    let r = vec![x];
    proof { lemma_view_ext(r@, seq![x@]); }
    r
}

proof fn lemma_first_equal_between_range(s: Seq<PyVal>, x: PyVal, k: int, end: int)
    ensures
        first_equal_between(s, x, k, end) matches Some(i) ==> k <= i < s.len() && i < end,
    decreases end - k,
{
    if !(k < 0 || k >= end || k >= s.len()) && !py_eq(s[k], x) {
        lemma_first_equal_between_range(s, x, k + 1, end);
    }
}

/// The first position in `start..end` whose item equals `x`.
fn find_equal_between(items: &Vec<Value>, x: &Value, start: usize, end: usize) -> (r: Option<usize>)
    ensures
        match first_equal_between(view_items(items@), x@, start as int, end as int) {
            Some(i) => r matches Some(k) && k as int == i && i < items@.len(),
            None => r is None,
        },
{
    let ghost vs = view_items(items@);
    proof { lemma_first_equal_between_range(vs, x@, start as int, end as int); }
    let mut i: usize = start;
    while i < end && i < items.len()
        invariant
            start <= i,
            vs == view_items(items@),
            vs.len() == items@.len(),
            first_equal_between(vs, x@, start as int, end as int) == first_equal_between(vs, x@, i as int, end as int),
        decreases items.len() - i,
    {
        assert(vs[i as int] == items@[i as int]@);
        if values_equal(&items[i], x) {
            return Some(i);
        }
        i = i + 1;
    }
    None
}

fn list_index(items: &Vec<Value>, args: &[Value]) -> (r: Result<ListOutcome, ListError>)
    requires
        list_fits(items@),
    ensures
        list_matches(r, view_items(items@), spec_list_index(view_items(items@), args@)),
{
    let x = match arg1("index", args) {
        Ok(x) => x,
        Err(e) => { return raised(e); },
    };
    let (a, b) = match sequence_index_range("index", args, items.len()) {
        Ok(p) => p,
        Err(e) => { return raised(e); },
    };
    match find_equal_between(items, x, a, b) {
        Some(i) => Ok(outcome(Value::Int(i as i64), nothing(), nothing())),
        None => Err(ListError::NotInList(x.deep_copy())),
    }
}

fn list_insert(items: &mut Vec<Value>, args: &[Value]) -> (r: Result<ListOutcome, ListError>)
    requires
        list_fits(old(items)@),
    ensures
        list_matches(r, view_items(final(items)@), spec_list_insert(view_items(old(items)@), args@)),
{
    let ghost v0 = view_items(items@);
    if args.len() != 2 {
        return raised(type_error(str_to_string("insert() takes exactly 2 arguments")));
    }
    let idx = match value_to_i64(&args[0]) {
        Ok(i) => i,
        Err(e) => { return raised(e); },
    };
    let len = items.len() as i64;
    let pos: i64 = if idx < 0 { if len + idx < 0 { 0 } else { len + idx } } else if idx > len { len } else { idx };
    let x = args[1].deep_copy();
    let added = one(args[1].deep_copy());
    items.insert(pos as usize, x);
    proof { lemma_view_ext(items@, v0.insert(pos as int, args@[1]@)); }
    Ok(outcome(Value::PyNone, added, nothing()))
}

fn list_pop(items: &mut Vec<Value>, args: &[Value]) -> (r: Result<ListOutcome, ListError>)
    requires
        list_fits(old(items)@),
    ensures
        list_matches(r, view_items(final(items)@), spec_list_pop(view_items(old(items)@), args@)),
{
    let ghost v0 = view_items(items@);
    if items.len() == 0 {
        return raised(exception("IndexError", str_to_string("pop from empty list")));
    }
    let i: usize = if args.len() == 0 {
        items.len() - 1
    } else {
        let raw = match value_to_i64(&args[0]) {
            Ok(v) => v,
            Err(e) => { return raised(e); },
        };
        let len = items.len() as i64;
        let normalized = if raw < 0 { len + raw } else { raw };
        if normalized < 0 || normalized >= len {
            return raised(exception("IndexError", str_to_string("pop index out of range")));
        }
        normalized as usize
    };
    let x = items.remove(i);
    proof { lemma_view_ext(items@, v0.remove(i as int)); }
    let dropped = one(x.deep_copy());
    Ok(outcome(x, nothing(), dropped))
}

fn list_remove(items: &mut Vec<Value>, args: &[Value]) -> (r: Result<ListOutcome, ListError>)
    requires
        list_fits(old(items)@),
    ensures
        list_matches(r, view_items(final(items)@), spec_list_remove(view_items(old(items)@), args@)),
{
    let ghost v0 = view_items(items@);
    let x = match arg1("remove", args) {
        Ok(x) => x,
        Err(e) => { return raised(e); },
    };
    match find_equal_between(items, x, 0, items.len()) {
        Some(i) => {
            proof { lemma_first_equal_between_all(v0, x@, 0); }
            let gone = items.remove(i);
            proof { lemma_view_ext(items@, v0.remove(i as int)); }
            let dropped = one(gone);
            Ok(outcome(Value::PyNone, nothing(), dropped))
        },
        None => {
            proof { lemma_first_equal_between_all(v0, x@, 0); }
            raised(exception("ValueError", str_to_string("list.remove(x): x not in list")))
        },
    }
}

proof fn lemma_first_equal_between_all(s: Seq<PyVal>, x: PyVal, k: int)
    requires
        0 <= k,
    ensures
        first_equal_between(s, x, k, s.len() as int) == first_equal(s, x, k),
    decreases s.len() - k,
{
    if k < s.len() {
        lemma_first_equal_between_all(s, x, k + 1);
    }
}

/// Dispatch a method on a list whose items are `items`; the items are
/// changed in place.
pub fn dispatch_list_method(items: &mut Vec<Value>, method: &str, args: &[Value], kwargs: &IndexMap<String, Value>)
    -> (r: Result<ListOutcome, ListError>)
    requires
        list_fits(old(items)@),
    ensures
        list_matches(r, view_items(final(items)@),
            spec_list(view_items(old(items)@), method@, args@, kwarg_entries(*kwargs))),
{
    proof { lemma_view_items(items@); }
    let ghost v0 = view_items(items@);
    match reject_kwargs(method, kwargs) {
        Ok(()) => {},
        Err(e) => { return raised(e); },
    }
    let m = method;
    if str_eq(m, "copy") {
        let c = crate::value::copy_items(items);
        Ok(outcome(Value::List(c), nothing(), nothing()))
    } else if str_eq(m, "count") {
        if args.len() != 1 {
            return raised(type_error(str_to_string("count() takes exactly one argument")));
        }
        let n = count_equal_exec(items, &args[0]);
        Ok(outcome(Value::Int(n as i64), nothing(), nothing()))
    } else if str_eq(m, "index") {
        list_index(items, args)
    } else if str_eq(m, "append") {
        let x = match arg1(method, args) {
            Ok(x) => x,
            Err(e) => { return raised(e); },
        };
        let ghost i0 = items@;
        let y = x.deep_copy();
        items.push(y);
        proof { crate::value::lemma_view_items_push(i0, y); }
        Ok(outcome(Value::PyNone, one(x.deep_copy()), nothing()))
    } else if str_eq(m, "extend") {
        let src = match arg1(method, args) {
            Ok(x) => x,
            Err(e) => { return raised(e); },
        };
        let new = match iterate_value(src) {
            Ok(v) => v,
            Err(e) => { return raised(e); },
        };
        let added = crate::value::copy_items(&new);
        let mut tail = new;
        let ghost t0 = tail@;
        let ghost i0 = items@;
        items.append(&mut tail);
        proof { lemma_view_concat(i0, t0); }
        Ok(outcome(Value::PyNone, added, nothing()))
    } else if str_eq(m, "insert") {
        list_insert(items, args)
    } else if str_eq(m, "pop") {
        list_pop(items, args)
    } else if str_eq(m, "remove") {
        list_remove(items, args)
    } else if str_eq(m, "reverse") {
        let ghost i0 = items@;
        let all = items.split_off(0);
        proof { assert(all@ =~= i0); }
        let mut r = reversed(all);
        std::mem::swap(items, &mut r);
        Ok(outcome(Value::PyNone, nothing(), nothing()))
    } else if str_eq(m, "clear") {
        let dropped = items.split_off(0);
        proof {
            assert(items@ =~= Seq::<Value>::empty());
            assert(dropped@ =~= old(items)@);
        }
        Ok(outcome(Value::PyNone, nothing(), dropped))
    } else {
        raised(no_attribute("list", method))
    }
}

// ---------------------------------------------------------------------------
// Tuples
// ---------------------------------------------------------------------------

/// What `count` and `index` give on a tuple's items.
pub open spec fn spec_tuple_method(items: Seq<PyVal>, method: Seq<char>, args: Seq<Value>) -> Result<PyVal, ErrSpec> {
    if method == "count"@ {
        if args.len() != 1 {
            Err(ErrSpec::Type("count() takes exactly 1 argument"@))
        } else {
            Ok(PyVal::Int(count_equal(items, args[0]@) as int))
        }
    } else if method == "index"@ {
        if args.len() == 0 {
            Err(ErrSpec::Type("index() takes at least 1 argument"@))
        } else {
            match spec_sequence_index_range(method, args, items.len() as int) {
                Err(m) => Err(ErrSpec::Type(m)),
                Ok((a, b)) => match first_equal_between(items, args[0]@, a, b) {
                    Some(i) => Ok(PyVal::Int(i)),
                    None => Err(ErrSpec::Exc("ValueError"@, "tuple.index(x): x not in tuple"@)),
                },
            }
        }
    } else {
        Err(ErrSpec::Attribute(no_attr_msg("tuple"@, method)))
    }
}

pub open spec fn spec_tuple(items: Seq<PyVal>, method: Seq<char>, args: Seq<Value>, kws: Seq<(Seq<char>, Value)>) -> Result<PyVal, ErrSpec> {
    if kws.len() > 0 {
        Err(ErrSpec::Type(unexpected_kwarg_msg(method, kws[0].0)))
    } else {
        spec_tuple_method(items, method, args)
    }
}

/// Dispatch `count` or `index` on a tuple whose items are `items`.
pub fn dispatch_tuple_method(items: &Vec<Value>, method: &str, args: &[Value], kwargs: &IndexMap<String, Value>)
    -> (r: Result<Value, EvalError>)
    requires
        list_fits(items@),
    ensures
        crate::error::result_matches(r, spec_tuple(view_items(items@), method@, args@, kwarg_entries(*kwargs))),
{
    match reject_kwargs(method, kwargs) {
        Ok(()) => {},
        Err(e) => { return Err(e); },
    }
    if str_eq(method, "count") {
        if args.len() != 1 {
            return Err(type_error(str_to_string("count() takes exactly 1 argument")));
        }
        let n = count_equal_exec(items, &args[0]);
        Ok(Value::Int(n as i64))
    } else if str_eq(method, "index") {
        if args.len() == 0 {
            return Err(type_error(str_to_string("index() takes at least 1 argument")));
        }
        let (a, b) = match sequence_index_range(method, args, items.len()) {
            Ok(p) => p,
            Err(e) => { return Err(e); },
        };
        match find_equal_between(items, &args[0], a, b) {
            Some(i) => Ok(Value::Int(i as i64)),
            None => Err(exception("ValueError", str_to_string("tuple.index(x): x not in tuple"))),
        }
    } else {
        Err(no_attribute("tuple", method))
    }
}

// ---------------------------------------------------------------------------
// Laws
// ---------------------------------------------------------------------------

/// Appending a value and popping gives the value back and leaves the list
/// as it was.
pub proof fn law_list_append_then_pop(items: Seq<PyVal>, x: Value)
    ensures
        ({
            let a = spec_list_method(items, "append"@, seq![x]);
            &&& a == list_ok(PyVal::PyNone, items.push(x@), seq![x@], Seq::empty())
            &&& spec_list_method(a.1, "pop"@, Seq::empty())
                == list_ok(x@, items, Seq::empty(), seq![x@])
        }),
{
    reveal_strlit("append");
    reveal_strlit("pop");
    reveal_strlit("copy");
    reveal_strlit("count");
    reveal_strlit("index");
    reveal_strlit("extend");
    reveal_strlit("insert");
    assert("append"@.len() == 6 && "copy"@.len() == 4 && "count"@.len() == 5 && "index"@.len() == 5);
    assert("append"@[0] == 'a' && "extend"@[0] == 'e' && "insert"@[0] == 'i');
    assert("pop"@.len() == 3 && "extend"@.len() == 6 && "insert"@.len() == 6);
    let c = items.push(x@);
    assert(c.drop_last() =~= items);
}

/// `index(x, start, stop)` on a list or tuple finds the first item equal
/// to `x` in the window, or reports that none is.
pub proof fn law_index_finds_first_equal(s: Seq<PyVal>, x: PyVal, a: int, b: int)
    requires
        0 <= a,
    ensures
        first_equal_between(s, x, a, b) matches Some(i) ==> a <= i < b && i < s.len() && py_eq(s[i], x)
            && forall|j: int| a <= j < i ==> !py_eq(#[trigger] s[j], x),
        first_equal_between(s, x, a, b) is None ==> forall|j: int| a <= j < b && j < s.len() ==> !py_eq(#[trigger] s[j], x),
    decreases b - a,
{
    if a < b && a < s.len() && !py_eq(s[a], x) {
        law_index_finds_first_equal(s, x, a + 1, b);
    }
}

} // verus!
