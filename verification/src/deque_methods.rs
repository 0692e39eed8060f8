//! `collections.deque` methods: appends and pops at both ends, extend and
//! extendleft, rotate, clear, copy, index, count, insert, remove and
//! reverse, with the bound `maxlen` enforced on every push. A call reports
//! the values that entered and left the deque, for the caller's memory
//! accounting.

use vstd::prelude::*;
use indexmap::IndexMap;
use crate::value::{Value, PyVal, view_items, view_value, lemma_view_items, spec_py_type_name, spec_iter_items,
    iterate_value};
use crate::error::{EvalError, ErrSpec, err_matches, type_error, value_error, runtime_error, exception};
use crate::kwargs::{kwarg_entries, reject_kwargs, unexpected_kwarg_msg, arg1};
use crate::numeric::arg_at;
use crate::equality::{py_eq, values_equal};
use crate::bytes_methods::{no_attr_msg, no_attribute};
use crate::text::{str_eq, str_to_string, concat_str};

verus! {

broadcast use lemma_view_items;

/// What a deque method returns, with the values that entered the deque and
/// those that left it.
#[derive(Debug, PartialEq)]
pub struct DequeOutcome {
    pub value: Value,
    pub added: Vec<Value>,
    pub dropped: Vec<Value>,
}

/// Why a deque method failed: an error, or the value that `index` did not
/// find (whose message, `{repr} is not in deque`, the caller renders).
#[derive(Debug)]
pub enum DequeError {
    Raised(EvalError),
    NotInDeque(Value),
}

/// The ghost form of a [`DequeError`].
pub enum DequeErrView {
    Spec(ErrSpec),
    NotIn(PyVal),
}

/// A result and the deque afterwards.
pub type DequeSpec = (Result<(PyVal, Seq<PyVal>, Seq<PyVal>), DequeErrView>, Seq<PyVal>);

/// `r` and the deque `after` are what `s` describes.
pub open spec fn deque_matches(r: Result<DequeOutcome, DequeError>, after: Seq<PyVal>, s: DequeSpec) -> bool {
    &&& after == s.1
    &&& match s.0 {
        Ok((v, a, d)) => r matches Ok(o) && o.value@ == v && view_items(o.added@) == a && view_items(o.dropped@) == d,
        Err(DequeErrView::Spec(es)) => r matches Err(DequeError::Raised(e)) && err_matches(e, es),
        Err(DequeErrView::NotIn(x)) => r matches Err(DequeError::NotInDeque(v)) && v@ == x,
    }
}

/// After a push at the back: the oldest items beyond `maxlen` leave from
/// the front (kept, dropped).
pub open spec fn trim_front(s: Seq<PyVal>, cap: Option<nat>) -> (Seq<PyVal>, Seq<PyVal>) {
    match cap {
        Some(c) => if s.len() > c {
            (s.subrange(s.len() - c, s.len() as int), s.subrange(0, s.len() - c))
        } else {
            (s, Seq::empty())
        },
        None => (s, Seq::empty()),
    }
}

/// After a push at the front: the items beyond `maxlen` leave from the back
/// (kept, dropped).
pub open spec fn trim_back(s: Seq<PyVal>, cap: Option<nat>) -> (Seq<PyVal>, Seq<PyVal>) {
    match cap {
        Some(c) => if s.len() > c {
            (s.subrange(0, c as int), s.subrange(c as int, s.len() as int))
        } else {
            (s, Seq::empty())
        },
        None => (s, Seq::empty()),
    }
}

/// The first position from `k` whose item equals `x`.
pub open spec fn first_equal(s: Seq<PyVal>, x: PyVal, k: int) -> Option<int>
    decreases s.len() - k,
{
    if k < 0 || k >= s.len() {
        None
    } else if py_eq(s[k], x) {
        Some(k)
    } else {
        first_equal(s, x, k + 1)
    }
}

/// How many items equal `x`.
pub open spec fn count_equal(s: Seq<PyVal>, x: PyVal) -> nat
    decreases s.len(),
{
    if s.len() == 0 {
        0
    } else {
        count_equal(s.drop_last(), x) + if py_eq(s.last(), x) { 1nat } else { 0nat }
    }
}

/// The insertion position of `insert(i, x)` in a deque of `len` items:
/// `i` clamped to `[-len, len]`, a negative one counted from the end.
pub open spec fn insert_position(i: int, len: int) -> int {
    let c = if i < -len { -len } else if i > len { len } else { i };
    if c < 0 { if c + len < 0 { 0 } else { c + len } } else { c }
}

/// The rotation count of `rotate(n=1)`, or the error.
pub open spec fn rotate_count(args: Seq<Value>) -> Result<int, ErrSpec> {
    match arg_at(args, 0) {
        None => Ok(1),
        Some(Value::Int(n)) => Ok(n as int),
        Some(Value::Bool(b)) => Ok(if b { 1int } else { 0int }),
        Some(other) => Err(ErrSpec::Type("rotate() expected an integer (got '"@ + spec_py_type_name(other) + "')"@)),
    }
}

/// `s` rotated right by `k` places (`0 <= k < len`): the last `k` items move
/// to the front.
pub open spec fn rotate_right(s: Seq<PyVal>, k: int) -> Seq<PyVal> {
    s.subrange(s.len() - k, s.len() as int) + s.subrange(0, s.len() - k)
}

pub open spec fn ok_none(after: Seq<PyVal>, added: Seq<PyVal>, dropped: Seq<PyVal>) -> DequeSpec {
    (Ok((PyVal::PyNone, added, dropped)), after)
}

pub open spec fn fail(items: Seq<PyVal>, es: ErrSpec) -> DequeSpec {
    (Err(DequeErrView::Spec(es)), items)
}

pub open spec fn one_arg_msg(method: Seq<char>) -> Seq<char> {
    method + "() takes exactly 1 argument"@
}

/// `append(x)` and `appendleft(x)`.
pub open spec fn spec_push(items: Seq<PyVal>, maxlen: Option<nat>, method: Seq<char>, args: Seq<Value>) -> DequeSpec {
    if args.len() == 0 {
        fail(items, ErrSpec::Type(one_arg_msg(method)))
    } else {
        let x = args[0]@;
        let t = if method == "append"@ { trim_front(items.push(x), maxlen) } else { trim_back(seq![x] + items, maxlen) };
        ok_none(t.0, seq![x], t.1)
    }
}

/// `pop()` and `popleft()`.
pub open spec fn spec_pop(items: Seq<PyVal>, method: Seq<char>) -> DequeSpec {
    if items.len() == 0 {
        fail(items, ErrSpec::Exc("IndexError"@, "pop from an empty deque"@))
    } else if method == "pop"@ {
        (Ok((items.last(), Seq::empty(), seq![items.last()])), items.drop_last())
    } else {
        (Ok((items[0], Seq::empty(), seq![items[0]])), items.drop_first())
    }
}

/// `extend(iterable)` and `extendleft(iterable)`; the latter pushes each
/// item at the front in turn, so they end up reversed.
pub open spec fn spec_extend(items: Seq<PyVal>, maxlen: Option<nat>, method: Seq<char>, args: Seq<Value>) -> DequeSpec {
    if args.len() == 0 {
        fail(items, ErrSpec::Type(one_arg_msg(method)))
    } else {
        match spec_iter_items(args[0]@) {
            None => fail(items, ErrSpec::Type("'"@ + spec_py_type_name(args[0]) + "' object is not iterable"@)),
            Some(new) => {
                let t = if method == "extend"@ { trim_front(items + new, maxlen) } else { trim_back(new.reverse() + items, maxlen) };
                ok_none(t.0, new, t.1)
            },
        }
    }
}

/// `rotate(n=1)`.
pub open spec fn spec_rotate(items: Seq<PyVal>, args: Seq<Value>) -> DequeSpec {
    match rotate_count(args) {
        Err(es) => fail(items, es),
        Ok(n) => if items.len() == 0 {
            ok_none(items, Seq::empty(), Seq::empty())
        } else {
            ok_none(rotate_right(items, n % (items.len() as int)), Seq::empty(), Seq::empty())
        },
    }
}

/// `index(x)`, `count(x)` and `remove(x)`.
pub open spec fn spec_find(items: Seq<PyVal>, method: Seq<char>, args: Seq<Value>) -> DequeSpec {
    if args.len() == 0 {
        fail(items, ErrSpec::Type(one_arg_msg(method)))
    } else {
        let x = args[0]@;
        if method == "count"@ {
            (Ok((PyVal::Int(count_equal(items, x) as int), Seq::empty(), Seq::empty())), items)
        } else {
            match first_equal(items, x, 0) {
                Some(i) => if method == "index"@ {
                    (Ok((PyVal::Int(i), Seq::empty(), Seq::empty())), items)
                } else {
                    ok_none(items.remove(i), Seq::empty(), seq![items[i]])
                },
                None => if method == "index"@ {
                    (Err(DequeErrView::NotIn(x)), items)
                } else {
                    fail(items, ErrSpec::Value("deque.remove(x): x not in deque"@))
                },
            }
        }
    }
}

/// The position argument of `insert(i, x)`, a bool counting as an integer.
pub open spec fn insert_index(args: Seq<Value>) -> Option<int> {
    match arg_at(args, 0) {
        Some(Value::Int(i)) => Some(i as int),
        Some(Value::Bool(b)) => Some(if b { 1int } else { 0int }),
        _ => None,
    }
}

/// `insert(i, x)`; a missing `x` inserts `None`.
pub open spec fn spec_insert(items: Seq<PyVal>, maxlen: Option<nat>, args: Seq<Value>) -> DequeSpec {
    match insert_index(args) {
        None => fail(items, ErrSpec::Type("insert() argument 1 must be an integer"@)),
        Some(i) => {
            let x = match arg_at(args, 1) { Some(v) => v@, None => PyVal::PyNone };
            if maxlen matches Some(m) && items.len() >= m {
                fail(items, ErrSpec::Exc("IndexError"@, "deque already at its maximum size"@))
            } else {
                ok_none(items.insert(insert_position(i, items.len() as int), x), seq![x], Seq::empty())
            }
        },
    }
}

/// What each deque method gives on the items (front to back) and `maxlen`.
pub open spec fn spec_deque_method(items: Seq<PyVal>, maxlen: Option<nat>, method: Seq<char>, args: Seq<Value>) -> DequeSpec {
    if method == "append"@ || method == "appendleft"@ {
        spec_push(items, maxlen, method, args)
    } else if method == "pop"@ || method == "popleft"@ {
        spec_pop(items, method)
    } else if method == "extend"@ || method == "extendleft"@ {
        spec_extend(items, maxlen, method, args)
    } else if method == "rotate"@ {
        spec_rotate(items, args)
    } else if method == "clear"@ {
        ok_none(Seq::empty(), Seq::empty(), items)
    } else if method == "copy"@ {
        (Ok((PyVal::Deque(items, maxlen), Seq::empty(), Seq::empty())), items)
    } else if method == "index"@ || method == "count"@ || method == "remove"@ {
        spec_find(items, method, args)
    } else if method == "insert"@ {
        spec_insert(items, maxlen, args)
    } else if method == "reverse"@ {
        ok_none(items.reverse(), Seq::empty(), Seq::empty())
    } else {
        fail(items, ErrSpec::Attribute(no_attr_msg("deque"@, method)))
    }
}

/// What a call gives, keyword arguments included (every method here takes
/// none).
pub open spec fn spec_deque(items: Seq<PyVal>, maxlen: Option<nat>, method: Seq<char>, args: Seq<Value>, kws: Seq<(Seq<char>, Value)>) -> DequeSpec {
    if kws.len() > 0 {
        fail(items, ErrSpec::Type(unexpected_kwarg_msg(method, kws[0].0)))
    } else {
        spec_deque_method(items, maxlen, method, args)
    }
}

// ---------------------------------------------------------------------------
// Implementation
// ---------------------------------------------------------------------------

pub open spec fn cap_view(maxlen: Option<usize>) -> Option<nat> {
    match maxlen {
        Some(m) => Some(m as nat),
        None => None,
    }
}

/// Views of values that agree item by item are the same sequence.
pub(crate) proof fn lemma_view_ext(a: Seq<Value>, b: Seq<PyVal>)
    requires
        a.len() == b.len(),
        forall|i: int| 0 <= i < a.len() ==> view_value(#[trigger] a[i]) == b[i],
    ensures
        view_items(a) == b,
{
    lemma_view_items(a);
    assert forall|i: int| 0 <= i < a.len() implies view_items(a)[i] == b[i] by {
        assert(view_value(a[i]) == b[i]);
    }
    assert(view_items(a) =~= b);
}

pub(crate) proof fn lemma_view_subrange(a: Seq<Value>, lo: int, hi: int)
    requires
        0 <= lo <= hi <= a.len(),
    ensures
        view_items(a.subrange(lo, hi)) == view_items(a).subrange(lo, hi),
{
    lemma_view_items(a);
    lemma_view_ext(a.subrange(lo, hi), view_items(a).subrange(lo, hi));
}

pub(crate) proof fn lemma_view_concat(a: Seq<Value>, b: Seq<Value>)
    ensures
        view_items(a + b) == view_items(a) + view_items(b),
{
    lemma_view_items(a);
    lemma_view_items(b);
    lemma_view_ext(a + b, view_items(a) + view_items(b));
}

fn trim_front_exec(items: &mut Vec<Value>, cap: Option<usize>) -> (dropped: Vec<Value>)
    ensures
        (view_items(final(items)@), view_items(dropped@)) == trim_front(view_items(old(items)@), cap_view(cap)),
{
    proof { lemma_view_items(items@); }
    let ghost v0 = items@;
    match cap {
        Some(c) => if items.len() > c {
            let k = items.len() - c;
            let mut kept = items.split_off(k);
            std::mem::swap(items, &mut kept);
            proof {
                lemma_view_subrange(v0, k as int, v0.len() as int);
                lemma_view_subrange(v0, 0, k as int);
            }
            kept
        } else {
            Vec::new()
        },
        None => Vec::new(),
    }
}

fn trim_back_exec(items: &mut Vec<Value>, cap: Option<usize>) -> (dropped: Vec<Value>)
    ensures
        (view_items(final(items)@), view_items(dropped@)) == trim_back(view_items(old(items)@), cap_view(cap)),
{
    proof { lemma_view_items(items@); }
    let ghost v0 = items@;
    match cap {
        Some(c) => if items.len() > c {
            let dropped = items.split_off(c);
            proof {
                lemma_view_subrange(v0, c as int, v0.len() as int);
                lemma_view_subrange(v0, 0, c as int);
            }
            dropped
        } else {
            Vec::new()
        },
        None => Vec::new(),
    }
}

/// The values in reverse order.
pub(crate) fn reversed(v: Vec<Value>) -> (r: Vec<Value>)
    ensures
        view_items(r@) == view_items(v@).reverse(),
{
    let ghost v0 = v@;
    let mut src = v;
    let mut out: Vec<Value> = Vec::new();
    proof { lemma_view_items(v0); }
    while src.len() > 0
        invariant
            src@.len() + out@.len() == v0.len(),
            src@ == v0.subrange(0, src@.len() as int),
            forall|i: int| 0 <= i < out@.len() ==> #[trigger] out@[i] == v0[v0.len() - 1 - i],
        decreases src.len(),
    {
        let ghost n = src@.len();
        let x = src.pop().unwrap();
        out.push(x);
        assert(src@ =~= v0.subrange(0, src@.len() as int));
    }
    proof {
        lemma_view_items(out@);
        lemma_view_ext(out@, view_items(v0).reverse());
    }
    out
}

fn none_with(added: Vec<Value>, dropped: Vec<Value>) -> (o: DequeOutcome)
    ensures
        o.value@ == PyVal::PyNone,
        o.added@ == added@,
        o.dropped@ == dropped@,
{
    DequeOutcome { value: Value::PyNone, added, dropped }
}

fn raised(e: EvalError) -> (r: Result<DequeOutcome, DequeError>)
    ensures
        r == Err::<DequeOutcome, DequeError>(DequeError::Raised(e)),
{
    Err(DequeError::Raised(e))
}

/// The first position whose item equals `x`.
fn find_equal(items: &Vec<Value>, x: &Value) -> (r: Option<usize>)
    ensures
        match first_equal(view_items(items@), x@, 0) {
            Some(i) => r matches Some(k) && k as int == i && i < items@.len(),
            None => r is None,
        },
{
    let ghost vs = view_items(items@);
    proof { lemma_view_items(items@); }
    let mut i: usize = 0;
    while i < items.len()
        invariant
            i <= items@.len(),
            vs == view_items(items@),
            vs.len() == items@.len(),
            first_equal(vs, x@, 0) == first_equal(vs, x@, i as int),
        decreases items.len() - i,
    {
        assert(vs[i as int] == items@[i as int]@);
        if values_equal(&items[i], x) {
            return Some(i);
        }
        i = i + 1;
    }
    None
}

pub(crate) fn count_equal_exec(items: &Vec<Value>, x: &Value) -> (r: usize)
    ensures
        r == count_equal(view_items(items@), x@),
        r <= items@.len(),
{
    let ghost vs = view_items(items@);
    proof { lemma_view_items(items@); }
    let mut n: usize = 0;
    let mut i: usize = 0;
    while i < items.len()
        invariant
            i <= items@.len(),
            vs == view_items(items@),
            vs.len() == items@.len(),
            n == count_equal(vs.take(i as int), x@),
            n <= i,
        decreases items.len() - i,
    {
        assert(vs[i as int] == items@[i as int]@);
        assert(vs.take(i + 1).drop_last() =~= vs.take(i as int));
        if values_equal(&items[i], x) {
            n = n + 1;
        }
        i = i + 1;
    }
    assert(vs.take(vs.len() as int) =~= vs);
    n
}

/// The deque calls whose counts stay within the machine's range.
pub open spec fn deque_fits(items: Seq<Value>) -> bool {
    items.len() < i64::MAX
}

fn push_one(items: &mut Vec<Value>, maxlen: Option<usize>, method: &str, args: &[Value]) -> (r: Result<DequeOutcome, DequeError>)
    ensures
        deque_matches(r, view_items(final(items)@), spec_push(view_items(old(items)@), cap_view(maxlen), method@, args@)),
{
    proof { lemma_view_items(items@); }
    let ghost v0 = view_items(items@);
    let x = match arg1(method, args) {
        Ok(x) => x,
        Err(e) => { return raised(e); },
    };
    let added = vec![x.deep_copy()];
    proof { lemma_view_ext(added@, seq![x@]); }
    if str_eq(method, "append") {
        let ghost i0 = items@;
        let y = x.deep_copy();
        items.push(y);
        proof { crate::value::lemma_view_items_push(i0, y); }
        let dropped = trim_front_exec(items, maxlen);
        Ok(none_with(added, dropped))
    } else {
        items.insert(0, x.deep_copy());
        proof {
            lemma_view_items(items@);
            lemma_view_ext(items@, seq![x@] + v0);
        }
        let dropped = trim_back_exec(items, maxlen);
        Ok(none_with(added, dropped))
    }
}

fn pop_one(items: &mut Vec<Value>, method: &str) -> (r: Result<DequeOutcome, DequeError>)
    ensures
        deque_matches(r, view_items(final(items)@), spec_pop(view_items(old(items)@), method@)),
{
    proof { lemma_view_items(items@); }
    let ghost v0 = view_items(items@);
    if items.len() == 0 {
        return raised(exception("IndexError", str_to_string("pop from an empty deque")));
    }
    let is_pop = str_eq(method, "pop");
    let x = if is_pop { items.pop().unwrap() } else { items.remove(0) };
    proof {
        lemma_view_items(items@);
        if is_pop {
            lemma_view_ext(items@, v0.drop_last());
        } else {
            lemma_view_ext(items@, v0.drop_first());
        }
    }
    let dropped = vec![x.deep_copy()];
    proof { lemma_view_ext(dropped@, seq![x@]); }
    Ok(DequeOutcome { value: x, added: Vec::new(), dropped })
}

fn extend_with(items: &mut Vec<Value>, maxlen: Option<usize>, method: &str, args: &[Value]) -> (r: Result<DequeOutcome, DequeError>)
    ensures
        deque_matches(r, view_items(final(items)@), spec_extend(view_items(old(items)@), cap_view(maxlen), method@, args@)),
{
    proof { lemma_view_items(items@); }
    let src = match arg1(method, args) {
        Ok(x) => x,
        Err(e) => { return raised(e); },
    };
    let new = match iterate_value(src) {
        Ok(v) => v,
        Err(e) => { return raised(e); },
    };
    let added = crate::value::copy_items(&new);
    let ghost i0 = items@;
    if str_eq(method, "extend") {
        let mut tail = new;
        let ghost t0 = tail@;
        items.append(&mut tail);
        proof { lemma_view_concat(i0, t0); }
        let dropped = trim_front_exec(items, maxlen);
        Ok(none_with(added, dropped))
    } else {
        let mut front = reversed(new);
        let ghost f0 = front@;
        front.append(items);
        std::mem::swap(items, &mut front);
        proof { lemma_view_concat(f0, i0); }
        let dropped = trim_back_exec(items, maxlen);
        Ok(none_with(added, dropped))
    }
}

fn empty_outcome() -> (o: DequeOutcome)
    ensures
        o.value@ == PyVal::PyNone,
        view_items(o.added@) == Seq::<PyVal>::empty(),
        view_items(o.dropped@) == Seq::<PyVal>::empty(),
{
    let o = none_with(Vec::new(), Vec::new());
    proof {
        lemma_view_items(o.added@);
        lemma_view_items(o.dropped@);
        assert(view_items(o.added@) =~= Seq::<PyVal>::empty());
        assert(view_items(o.dropped@) =~= Seq::<PyVal>::empty());
    }
    o
}

fn rotate_by(items: &mut Vec<Value>, args: &[Value]) -> (r: Result<DequeOutcome, DequeError>)
    requires
        deque_fits(old(items)@),
    ensures
        deque_matches(r, view_items(final(items)@), spec_rotate(view_items(old(items)@), args@)),
{
    proof { lemma_view_items(items@); }
    let ghost v0 = view_items(items@);
    let n: i64 = if args.len() == 0 {
        1
    } else {
        match &args[0] {
            Value::Int(n) => *n,
            Value::Bool(b) => if *b { 1 } else { 0 },
            other => {
                let s1 = concat_str("rotate() expected an integer (got '", other.py_type_name());
                let s2 = s1.concat("')");
                return raised(type_error(s2));
            },
        }
    };
    if items.len() == 0 {
        return Ok(empty_outcome());
    }
    let l = items.len();
    let lu = l as u64;
    let shift: u64 = if n >= 0 {
        (n as u64) % lu
    } else {
        let k: u64 = (-(n + 1)) as u64;
        lu - 1 - k % lu
    };
    proof {
        let li = l as int;
        if n >= 0 {
            assert(shift as int == (n as int) % li);
        } else {
            let k = -(n + 1);
            vstd::arithmetic::div_mod::lemma_fundamental_div_mod(k, li);
            vstd::arithmetic::div_mod::lemma_mod_bound(k, li);
            let q = k / li;
            let rr = k % li;
            assert(n == (-q - 1) * li + (li - 1 - rr)) by (nonlinear_arith)
                requires k == li * q + rr, n == -(k + 1);
            vstd::arithmetic::div_mod::lemma_fundamental_div_mod_converse(n as int, li, -q - 1, li - 1 - rr);
        }
    }
    let cut = l - shift as usize;
    let ghost i0 = items@;
    let mut tail = items.split_off(cut);
    let ghost t0 = tail@;
    let ghost h0 = items@;
    tail.append(items);
    std::mem::swap(items, &mut tail);
    proof {
        lemma_view_concat(t0, h0);
        lemma_view_subrange(i0, cut as int, l as int);
        lemma_view_subrange(i0, 0, cut as int);
        assert(view_items(items@) == rotate_right(v0, (n as int) % (l as int)));
    }
    Ok(empty_outcome())
}

fn find_in(items: &mut Vec<Value>, method: &str, args: &[Value]) -> (r: Result<DequeOutcome, DequeError>)
    requires
        deque_fits(old(items)@),
    ensures
        deque_matches(r, view_items(final(items)@), spec_find(view_items(old(items)@), method@, args@)),
{
    proof { lemma_view_items(items@); }
    let ghost v0 = view_items(items@);
    let x = match arg1(method, args) {
        Ok(x) => x,
        Err(e) => { return raised(e); },
    };
    if str_eq(method, "count") {
        let n = count_equal_exec(items, x);
        let o = empty_outcome();
        return Ok(DequeOutcome { value: Value::Int(n as i64), added: o.added, dropped: o.dropped });
    }
    match find_equal(items, x) {
        Some(i) => if str_eq(method, "index") {
            let o = empty_outcome();
            Ok(DequeOutcome { value: Value::Int(i as i64), added: o.added, dropped: o.dropped })
        } else {
            let gone = items.remove(i);
            proof {
                lemma_view_items(items@);
                lemma_view_ext(items@, v0.remove(i as int));
            }
            let dropped = vec![gone];
            proof { lemma_view_ext(dropped@, seq![v0[i as int]]); }
            let o = empty_outcome();
            Ok(DequeOutcome { value: o.value, added: o.added, dropped })
        },
        None => if str_eq(method, "index") {
            Err(DequeError::NotInDeque(x.deep_copy()))
        } else {
            raised(value_error(str_to_string("deque.remove(x): x not in deque")))
        },
    }
}

fn insert_at(items: &mut Vec<Value>, maxlen: Option<usize>, args: &[Value]) -> (r: Result<DequeOutcome, DequeError>)
    requires
        deque_fits(old(items)@),
    ensures
        deque_matches(r, view_items(final(items)@), spec_insert(view_items(old(items)@), cap_view(maxlen), args@)),
{
    proof { lemma_view_items(items@); }
    let ghost v0 = view_items(items@);
    let raw: i64 = if args.len() == 0 {
        return raised(type_error(str_to_string("insert() argument 1 must be an integer")));
    } else {
        match &args[0] {
            Value::Int(i) => *i,
            Value::Bool(b) => if *b { 1 } else { 0 },
            _ => { return raised(type_error(str_to_string("insert() argument 1 must be an integer"))); },
        }
    };
    let x = if args.len() > 1 { args[1].deep_copy() } else { Value::PyNone };
    match maxlen {
        Some(cap) => if items.len() >= cap {
            return raised(exception("IndexError", str_to_string("deque already at its maximum size")));
        },
        None => {},
    }
    let len = items.len() as i64;
    let c = if raw < -len { -len } else if raw > len { len } else { raw };
    let pos: i64 = if c < 0 { if c + len < 0 { 0 } else { c + len } } else { c };
    let added = vec![x.deep_copy()];
    proof { lemma_view_ext(added@, seq![x@]); }
    items.insert(pos as usize, x);
    proof {
        lemma_view_items(items@);
        lemma_view_ext(items@, v0.insert(pos as int, x@));
    }
    let o = empty_outcome();
    Ok(DequeOutcome { value: o.value, added, dropped: o.dropped })
}

/// Dispatch a method on a deque whose items (front to back) are `items` and
/// whose bound is `maxlen`; the items are changed in place.
pub fn dispatch_deque_method(items: &mut Vec<Value>, maxlen: Option<usize>, method: &str, args: &[Value],
    kwargs: &IndexMap<String, Value>) -> (r: Result<DequeOutcome, DequeError>)
    requires
        deque_fits(old(items)@),
    ensures
        deque_matches(r, view_items(final(items)@),
            spec_deque(view_items(old(items)@), cap_view(maxlen), method@, args@, kwarg_entries(*kwargs))),
{
    proof { lemma_view_items(items@); }
    let ghost v0 = view_items(items@);
    match reject_kwargs(method, kwargs) {
        Ok(()) => {},
        Err(e) => { return raised(e); },
    }
    let m = method;
    if str_eq(m, "append") || str_eq(m, "appendleft") {
        push_one(items, maxlen, method, args)
    } else if str_eq(m, "pop") || str_eq(m, "popleft") {
        pop_one(items, method)
    } else if str_eq(m, "extend") || str_eq(m, "extendleft") {
        extend_with(items, maxlen, method, args)
    } else if str_eq(m, "rotate") {
        rotate_by(items, args)
    } else if str_eq(m, "clear") {
        let dropped = items.split_off(0);
        proof {
            assert(items@ =~= Seq::<Value>::empty());
            assert(dropped@ =~= old(items)@);
        }
        let o = empty_outcome();
        Ok(DequeOutcome { value: o.value, added: o.added, dropped })
    } else if str_eq(m, "copy") {
        let c = crate::value::copy_items(items);
        let o = empty_outcome();
        Ok(DequeOutcome { value: Value::Deque(c, maxlen), added: o.added, dropped: o.dropped })
    } else if str_eq(m, "index") || str_eq(m, "count") || str_eq(m, "remove") {
        find_in(items, method, args)
    } else if str_eq(m, "insert") {
        insert_at(items, maxlen, args)
    } else if str_eq(m, "reverse") {
        let ghost i0 = items@;
        let all = items.split_off(0);
        proof { assert(all@ =~= i0); }
        let mut r = reversed(all);
        std::mem::swap(items, &mut r);
        Ok(empty_outcome())
    } else {
        raised(no_attribute("deque", method))
    }
}

// ---------------------------------------------------------------------------
// Laws
// ---------------------------------------------------------------------------

proof fn lemma_first_equal_in_range(s: Seq<PyVal>, x: PyVal, k: int)
    ensures
        first_equal(s, x, k) matches Some(i) ==> k <= i < s.len(),
    decreases s.len() - k,
{
    if 0 <= k < s.len() && !py_eq(s[k], x) {
        lemma_first_equal_in_range(s, x, k + 1);
    }
}

proof fn lemma_trims_bounded(s: Seq<PyVal>, m: nat)
    ensures
        trim_front(s, Some(m)).0.len() <= m,
        trim_back(s, Some(m)).0.len() <= m,
{
}

/// A bounded deque stays bounded: whatever method is called on a deque
/// that holds at most `maxlen` items, it holds at most `maxlen` afterwards.
pub proof fn law_deque_stays_bounded(items: Seq<PyVal>, m: nat, method: Seq<char>, args: Seq<Value>,
    kws: Seq<(Seq<char>, Value)>)
    requires
        items.len() <= m,
    ensures
        spec_deque(items, Some(m), method, args, kws).1.len() <= m,
{
    let after = spec_deque_method(items, Some(m), method, args);
    if method == "append"@ || method == "appendleft"@ {
        if args.len() > 0 {
            lemma_trims_bounded(items.push(args[0]@), m);
            lemma_trims_bounded(seq![args[0]@] + items, m);
        }
    } else if method == "pop"@ || method == "popleft"@ {
    } else if method == "extend"@ || method == "extendleft"@ {
        if args.len() > 0 {
            if let Some(new) = spec_iter_items(args[0]@) {
                lemma_trims_bounded(items + new, m);
                lemma_trims_bounded(new.reverse() + items, m);
            }
        }
    } else if method == "rotate"@ {
        if let Ok(n) = rotate_count(args) {
            if items.len() > 0 {
                vstd::arithmetic::div_mod::lemma_mod_bound(n, items.len() as int);
            }
        }
    } else if method == "clear"@ || method == "copy"@ {
    } else if method == "index"@ || method == "count"@ || method == "remove"@ {
        if args.len() > 0 {
            lemma_first_equal_in_range(items, args[0]@, 0);
        }
    } else if method == "insert"@ {
    } else if method == "reverse"@ {
    }
}

/// Appending a value and popping it again gives the value back and leaves
/// the deque as it was, when the append dropped nothing.
pub proof fn law_deque_append_then_pop(items: Seq<PyVal>, maxlen: Option<nat>, x: Value)
    requires
        maxlen matches Some(m) ==> items.len() < m,
    ensures
        ({
            let a = spec_deque_method(items, maxlen, "append"@, seq![x]);
            &&& a == ok_none(items.push(x@), seq![x@], Seq::empty())
            &&& spec_deque_method(a.1, maxlen, "pop"@, Seq::empty())
                == (Ok::<(PyVal, Seq<PyVal>, Seq<PyVal>), DequeErrView>((x@, Seq::empty(), seq![x@])), items)
        }),
{
    reveal_strlit("append");
    reveal_strlit("appendleft");
    reveal_strlit("pop");
    assert("pop"@.len() == 3 && "append"@.len() == 6 && "appendleft"@.len() == 10);
    let c = items.push(x@);
    assert(c.drop_last() =~= items);
}

/// Pushing a value at the front and popping it from the front gives the
/// value back and leaves the deque as it was, when the push dropped nothing.
pub proof fn law_deque_appendleft_then_popleft(items: Seq<PyVal>, maxlen: Option<nat>, x: Value)
    requires
        maxlen matches Some(m) ==> items.len() < m,
    ensures
        ({
            let a = spec_deque_method(items, maxlen, "appendleft"@, seq![x]);
            &&& a == ok_none(seq![x@] + items, seq![x@], Seq::empty())
            &&& spec_deque_method(a.1, maxlen, "popleft"@, Seq::empty())
                == (Ok::<(PyVal, Seq<PyVal>, Seq<PyVal>), DequeErrView>((x@, Seq::empty(), seq![x@])), items)
        }),
{
    reveal_strlit("append");
    reveal_strlit("appendleft");
    reveal_strlit("pop");
    reveal_strlit("popleft");
    assert("pop"@.len() == 3 && "popleft"@.len() == 7);
    assert("append"@.len() == 6 && "appendleft"@.len() == 10);
    let c = seq![x@] + items;
    assert(c.drop_first() =~= items);
}

proof fn lemma_rotate_right_back(s: Seq<PyVal>, a: int)
    requires
        0 < a < s.len(),
    ensures
        rotate_right(rotate_right(s, a), s.len() - a) == s,
{
    let l = s.len() as int;
    let r1 = rotate_right(s, a);
    assert(r1.len() == l);
    assert(r1.subrange(a, l) =~= s.subrange(0, l - a));
    assert(r1.subrange(0, a) =~= s.subrange(l - a, l));
    assert(rotate_right(r1, l - a) =~= s);
}

/// `rotate(n)` followed by `rotate(m)` with `m == -n` leaves the deque as
/// it was.
pub proof fn law_deque_rotate_then_back(items: Seq<PyVal>, maxlen: Option<nat>, n: i64, m: i64)
    requires
        m == -n,
    ensures
        spec_deque_method(spec_deque_method(items, maxlen, "rotate"@, seq![Value::Int(n)]).1, maxlen,
            "rotate"@, seq![Value::Int(m)]).1 == items,
{
    reveal_strlit("rotate");
    reveal_strlit("append");
    reveal_strlit("appendleft");
    reveal_strlit("pop");
    reveal_strlit("popleft");
    reveal_strlit("extend");
    reveal_strlit("extendleft");
    assert("rotate"@.len() == 6 && "append"@.len() == 6 && "appendleft"@.len() == 10);
    assert("rotate"@[0] == 'r' && "append"@[0] == 'a' && "extend"@[0] == 'e');
    assert("pop"@.len() == 3 && "popleft"@.len() == 7 && "extendleft"@.len() == 10);
    let args1 = seq![Value::Int(n)];
    let args2 = seq![Value::Int(m)];
    assert(rotate_count(args1) == Ok::<int, ErrSpec>(n as int));
    assert(rotate_count(args2) == Ok::<int, ErrSpec>(m as int));
    let l = items.len() as int;
    if l > 0 {
        let a = (n as int) % l;
        vstd::arithmetic::div_mod::lemma_fundamental_div_mod(n as int, l);
        vstd::arithmetic::div_mod::lemma_mod_bound(n as int, l);
        let q = (n as int) / l;
        let r1 = rotate_right(items, a);
        assert(r1.len() == l);
        if a == 0 {
            assert(r1 =~= items);
            assert(-(n as int) == l * (-q) + 0) by (nonlinear_arith)
                requires n as int == l * q + a, a == 0;
            vstd::arithmetic::div_mod::lemma_fundamental_div_mod_converse(-(n as int), l, -q, 0);
            assert(rotate_right(r1, 0) =~= r1);
        } else {
            assert(-(n as int) == l * (-q - 1) + (l - a)) by (nonlinear_arith)
                requires n as int == l * q + a;
            vstd::arithmetic::div_mod::lemma_fundamental_div_mod_converse(-(n as int), l, -q - 1, l - a);
            lemma_rotate_right_back(items, a);
        }
    }
}

/// The search that `index` and `remove` make finds the first item equal
/// to `x` at or after `k`, or reports that none is.
pub proof fn law_first_equal_is_first(s: Seq<PyVal>, x: PyVal, k: int)
    requires
        0 <= k,
    ensures
        first_equal(s, x, k) matches Some(i) ==> k <= i < s.len() && py_eq(s[i], x)
            && forall|j: int| k <= j < i ==> !py_eq(#[trigger] s[j], x),
        first_equal(s, x, k) is None ==> forall|j: int| k <= j < s.len() ==> !py_eq(#[trigger] s[j], x),
    decreases s.len() - k,
{
    if k < s.len() && !py_eq(s[k], x) {
        law_first_equal_is_first(s, x, k + 1);
    }
}

/// `count(x)` on a deque counts the items equal to `x`: it is at most the
/// length, zero exactly when no item is equal, and one more for a deque
/// with an equal item appended.
pub proof fn law_count_equal_items(s: Seq<PyVal>, x: PyVal, y: PyVal)
    ensures
        count_equal(s, x) <= s.len(),
        (count_equal(s, x) == 0) == (forall|j: int| 0 <= j < s.len() ==> !py_eq(#[trigger] s[j], x)),
        count_equal(s.push(y), x) == count_equal(s, x) + if py_eq(y, x) { 1nat } else { 0nat },
    decreases s.len(),
{
    assert(s.push(y).drop_last() =~= s);
    if s.len() > 0 {
        law_count_equal_items(s.drop_last(), x, s.last());
        assert forall|j: int| 0 <= j < s.len() - 1 implies #[trigger] s.drop_last()[j] == s[j] by {}
        if count_equal(s, x) == 0 {
            assert forall|j: int| 0 <= j < s.len() implies !py_eq(#[trigger] s[j], x) by {
                if j < s.len() - 1 { assert(s.drop_last()[j] == s[j]); }
            }
        } else if forall|j: int| 0 <= j < s.len() ==> !py_eq(#[trigger] s[j], x) {
            assert forall|j: int| 0 <= j < s.drop_last().len() implies !py_eq(#[trigger] s.drop_last()[j], x) by {
                assert(s.drop_last()[j] == s[j]);
            }
            assert(!py_eq(s[s.len() - 1], x));
        }
    }
}

} // verus!
