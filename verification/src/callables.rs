//! Calling values that stand for a callable: the unbound methods of the
//! builtin types (`bytes.fromhex`, `int.from_bytes`, `str.upper`, ...) and
//! `functools.partial` objects.

use vstd::prelude::*;
use indexmap::IndexMap;
use crate::value::{Value, PyVal, view_items, lemma_view_items};
use crate::error::{EvalError, ErrSpec, err_matches, result_matches, type_error};
use crate::kwargs::{kwarg_entries, kwargs_len, kwargs_get_index};
use crate::bytes_methods::{bytes_fromhex, spec_bytes_fromhex};
use crate::helpers::{bytes_maketrans, spec_bytes_maketrans};
use crate::int_bytes::{int_from_bytes, spec_int_from_bytes, WideInt, wide_value, wide_ok};
use crate::call_args::{kw_insert, find_key, insert_kw};
use crate::params::kw_pairs_view;
use crate::text::{str_eq, str_to_string};

verus! {

broadcast use lemma_view_items;

/// What a call of an unbound method of a builtin type comes to.
pub enum UnboundCall {
    /// The result, computed here.
    Value(Value),
    /// The integer of `int.from_bytes`.
    Int(WideInt),
    /// `dict.fromkeys(*args)`, which builds a dict.
    DictFromkeys,
    /// `float.fromhex(*args)`, which builds a float.
    FloatFromhex,
    /// `str.maketrans(*args)`, which builds a dict.
    StrMaketrans,
    /// `object.<method>(*args)`, the default attribute protocol, which works
    /// on the interpreter's objects.
    ObjectDefault,
    /// The method called on `receiver` with the remaining arguments.
    Method { receiver: Value, rest: Vec<Value> },
}

/// The ghost form of an [`UnboundCall`].
pub enum UnboundView {
    Value(PyVal),
    Int(int),
    DictFromkeys,
    FloatFromhex,
    StrMaketrans,
    ObjectDefault,
    Method(PyVal, Seq<PyVal>),
}

pub open spec fn unbound_view(u: UnboundCall) -> UnboundView {
    match u {
        UnboundCall::Value(v) => UnboundView::Value(v@),
        UnboundCall::Int(w) => UnboundView::Int(wide_value(w)),
        UnboundCall::DictFromkeys => UnboundView::DictFromkeys,
        UnboundCall::FloatFromhex => UnboundView::FloatFromhex,
        UnboundCall::StrMaketrans => UnboundView::StrMaketrans,
        UnboundCall::ObjectDefault => UnboundView::ObjectDefault,
        UnboundCall::Method { receiver, rest } => UnboundView::Method(receiver@, view_items(rest@)),
    }
}

pub open spec fn needs_receiver_msg(t: Seq<char>, m: Seq<char>) -> Seq<char> {
    "unbound method "@ + t + "."@ + m + "() needs a "@ + t + " as first argument"@
}

/// `bytearray.fromhex` gives a bytearray where `bytes.fromhex` gives bytes.
pub open spec fn as_bytearray(r: Result<PyVal, ErrSpec>, bytearray: bool) -> Result<UnboundView, ErrSpec> {
    match r {
        Ok(PyVal::Bytes(b)) => Ok(UnboundView::Value(if bytearray { PyVal::ByteArray(b) } else { PyVal::Bytes(b) })),
        Ok(v) => Ok(UnboundView::Value(v)),
        Err(es) => Err(es),
    }
}

/// What calling the unbound method `t.m` with `args` comes to.
pub open spec fn spec_unbound_call(t: Seq<char>, m: Seq<char>, args: Seq<Value>, kws: Seq<(Seq<char>, Value)>) -> Result<UnboundView, ErrSpec> {
    if t == "dict"@ && m == "fromkeys"@ {
        Ok(UnboundView::DictFromkeys)
    } else if (t == "bytes"@ || t == "bytearray"@) && m == "fromhex"@ {
        as_bytearray(spec_bytes_fromhex(args), t == "bytearray"@)
    } else if t == "int"@ && m == "from_bytes"@ {
        match spec_int_from_bytes(args, kws) {
            Ok(n) => Ok(UnboundView::Int(n)),
            Err(es) => Err(es),
        }
    } else if t == "bool"@ && m == "from_bytes"@ {
        match spec_int_from_bytes(args, kws) {
            Ok(n) => Ok(UnboundView::Value(PyVal::Bool(n != 0))),
            Err(es) => Err(es),
        }
    } else if t == "str"@ && m == "maketrans"@ {
        Ok(UnboundView::StrMaketrans)
    } else if (t == "bytes"@ || t == "bytearray"@) && m == "maketrans"@ {
        match spec_bytes_maketrans(args) {
            Ok(v) => Ok(UnboundView::Value(v)),
            Err(es) => Err(es),
        }
    } else if t == "float"@ && m == "fromhex"@ {
        Ok(UnboundView::FloatFromhex)
    } else if t == "object"@ {
        Ok(UnboundView::ObjectDefault)
    } else if args.len() == 0 {
        Err(ErrSpec::Type(needs_receiver_msg(t, m)))
    } else {
        Ok(UnboundView::Method(args[0]@, view_items(args.drop_first())))
    }
}

fn nonzero(w: &WideInt) -> (r: bool)
    ensures
        r == (wide_value(*w) != 0),
{
    match w {
        WideInt::Small(i) => *i != 0,
        WideInt::Large(_, m) => !crate::unparse::is_zero_magnitude(m),
    }
}

fn needs_receiver(t: &str, m: &str) -> (e: EvalError)
    ensures
        err_matches(e, ErrSpec::Type(needs_receiver_msg(t@, m@))),
{
    let mut s = str_to_string("unbound method ");
    s.append(t);
    s.append(".");
    s.append(m);
    s.append("() needs a ");
    s.append(t);
    s.append(" as first argument");
    type_error(s)
}

/// Call the unbound method `owner.method` with `args`: the result where
/// it is computed here, else what the caller is to do.
pub fn call_unbound_type_method(owner: &str, method: &str, args: &[Value], kwargs: &IndexMap<String, Value>)
    -> (r: Result<UnboundCall, EvalError>)
    ensures
        match spec_unbound_call(owner@, method@, args@, kwarg_entries(*kwargs)) {
            Ok(u) => r matches Ok(x) && unbound_view(x) == u,
            Err(es) => r matches Err(e) && err_matches(e, es),
        },
{
    let t = owner;
    let m = method;
    if str_eq(t, "dict") && str_eq(m, "fromkeys") {
        Ok(UnboundCall::DictFromkeys)
    } else if (str_eq(t, "bytes") || str_eq(t, "bytearray")) && str_eq(m, "fromhex") {
        match bytes_fromhex(args) {
            Ok(Value::Bytes(b)) => Ok(UnboundCall::Value(if str_eq(t, "bytearray") { Value::ByteArray(b) } else { Value::Bytes(b) })),
            Ok(v) => Ok(UnboundCall::Value(v)),
            Err(e) => Err(e),
        }
    } else if str_eq(t, "int") && str_eq(m, "from_bytes") {
        match int_from_bytes(args, kwargs) {
            Ok(w) => Ok(UnboundCall::Int(w)),
            Err(e) => Err(e),
        }
    } else if str_eq(t, "bool") && str_eq(m, "from_bytes") {
        match int_from_bytes(args, kwargs) {
            Ok(w) => Ok(UnboundCall::Value(Value::Bool(nonzero(&w)))),
            Err(e) => Err(e),
        }
    } else if str_eq(t, "str") && str_eq(m, "maketrans") {
        Ok(UnboundCall::StrMaketrans)
    } else if (str_eq(t, "bytes") || str_eq(t, "bytearray")) && str_eq(m, "maketrans") {
        match bytes_maketrans(args) {
            Ok(v) => Ok(UnboundCall::Value(v)),
            Err(e) => Err(e),
        }
    } else if str_eq(t, "float") && str_eq(m, "fromhex") {
        Ok(UnboundCall::FloatFromhex)
    } else if str_eq(t, "object") {
        Ok(UnboundCall::ObjectDefault)
    } else if args.len() == 0 {
        Err(needs_receiver(t, m))
    } else {
        let receiver = args[0].deep_copy();
        let mut rest: Vec<Value> = Vec::new();
        let mut i: usize = 1;
        while i < args.len()
            invariant
                1 <= i <= args@.len(),
                rest@.len() == i - 1,
                forall|j: int| 0 <= j < rest@.len() ==> (#[trigger] rest@[j])@ == args@[j + 1]@,
            decreases args.len() - i,
        {
            rest.push(args[i].deep_copy());
            i = i + 1;
        }
        proof {
            lemma_view_items(rest@);
            lemma_view_items(args@.drop_first());
            assert forall|j: int| 0 <= j < rest@.len() implies view_items(rest@)[j] == view_items(args@.drop_first())[j] by {
                assert(args@.drop_first()[j] == args@[j + 1]);
                assert(rest@[j]@ == args@[j + 1]@);
            }
            assert(view_items(rest@) =~= view_items(args@.drop_first()));
        }
        Ok(UnboundCall::Method { receiver, rest })
    }
}

// ---------------------------------------------------------------------------
// functools.partial
// ---------------------------------------------------------------------------

/// `m` with the keyword arguments `kws` set in turn.
pub open spec fn kw_merge(m: Seq<(Seq<char>, PyVal)>, kws: Seq<(Seq<char>, Value)>) -> Seq<(Seq<char>, PyVal)>
    decreases kws.len(),
{
    if kws.len() == 0 {
        m
    } else {
        let prev = kw_merge(m, kws.drop_last());
        kw_insert(prev, kws.last().0, kws.last().1@)
    }
}

pub open spec fn entry_views(kws: Seq<(Seq<char>, Value)>) -> Seq<(Seq<char>, PyVal)> {
    Seq::new(kws.len(), |i: int| (kws[i].0, kws[i].1@))
}

/// The arguments a `functools.partial` object passes on: its bound
/// positional arguments, then the call's; its bound keywords, each
/// replaced by a call keyword of the same name, then the call's new ones.
pub open spec fn spec_partial_args(bound: Seq<Value>, bound_kws: Seq<(Seq<char>, PyVal)>, args: Seq<Value>,
    kws: Seq<(Seq<char>, Value)>) -> (Seq<PyVal>, Seq<(Seq<char>, PyVal)>)
{
    (view_items(bound + args), if bound_kws.len() == 0 { entry_views(kws) } else { kw_merge(bound_kws, kws) })
}

/// The positional and keyword arguments a call of a `functools.partial`
/// object passes to the wrapped callable.
pub fn partial_args(bound: &Vec<Value>, bound_kws: &Vec<(String, Value)>, args: &[Value], kwargs: &IndexMap<String, Value>)
    -> (r: (Vec<Value>, Vec<(String, Value)>))
    ensures
        (view_items(r.0@), kw_pairs_view(r.1@)) == spec_partial_args(bound@, kw_pairs_view(bound_kws@), args@, kwarg_entries(*kwargs)),
{
    let ghost kws = kwarg_entries(*kwargs);
    let mut combined = crate::value::copy_items(bound);
    let mut i: usize = 0;
    let ghost b0 = combined@;
    proof { crate::deque_methods::lemma_view_concat(b0, Seq::<Value>::empty()); assert(b0 + Seq::<Value>::empty() =~= b0); }
    while i < args.len()
        invariant
            i <= args@.len(),
            view_items(combined@) == view_items(bound@ + args@.take(i as int)),
        decreases args.len() - i,
    {
        let ghost c0 = combined@;
        let x = args[i].deep_copy();
        combined.push(x);
        proof {
            crate::value::lemma_view_items_push(c0, x);
            crate::value::lemma_view_items_push(bound@ + args@.take(i as int), args@[i as int]);
            assert(bound@ + args@.take(i + 1) =~= (bound@ + args@.take(i as int)).push(args@[i as int]));
        }
        i = i + 1;
    }
    proof { assert(args@.take(i as int) =~= args@); }
    let n = kwargs_len(kwargs);
    let empty = bound_kws.len() == 0;
    let mut merged: Vec<(String, Value)> = Vec::new();
    if !empty {
        let mut j: usize = 0;
        while j < bound_kws.len()
            invariant
                j <= bound_kws@.len(),
                merged@.len() == j,
                forall|t: int| 0 <= t < j ==> (#[trigger] merged@[t]).0@ == bound_kws@[t].0@ && merged@[t].1@ == bound_kws@[t].1@,
            decreases bound_kws.len() - j,
        {
            merged.push((bound_kws[j].0.clone(), bound_kws[j].1.deep_copy()));
            j = j + 1;
        }
        proof { assert(kw_pairs_view(merged@) =~= kw_pairs_view(bound_kws@)); }
    }
    let mut k: usize = 0;
    proof {
        assert(kws.take(0) =~= Seq::<(Seq<char>, Value)>::empty());
        if empty { assert(kw_pairs_view(merged@) =~= entry_views(kws.take(0))); }
    }
    while k < n
        invariant
            kws == kwarg_entries(*kwargs),
            n == kws.len(),
            k <= n,
            empty == (bound_kws@.len() == 0),
            empty ==> kw_pairs_view(merged@) == entry_views(kws.take(k as int)),
            !empty ==> kw_pairs_view(merged@) == kw_merge(kw_pairs_view(bound_kws@), kws.take(k as int)),
        decreases n - k,
    {
        proof { assert(kws.take(k + 1).drop_last() =~= kws.take(k as int)); }
        match kwargs_get_index(kwargs, k) {
            Some((key, v)) => {
                if empty {
                    let ghost before = kw_pairs_view(merged@);
                    merged.push((key.clone(), v.deep_copy()));
                    proof {
                        assert(kws.take(k + 1)[k as int] == kws[k as int]);
                        assert(entry_views(kws.take(k + 1)) =~= entry_views(kws.take(k as int)).push((key@, v@)));
                        assert(kw_pairs_view(merged@) =~= before.push((key@, v@)));
                    }
                } else {
                    insert_kw(&mut merged, key, v);
                }
            },
            None => {},
        }
        k = k + 1;
    }
    proof { assert(kws.take(n as int) =~= kws); }
    (combined, merged)
}

// ---------------------------------------------------------------------------
// Laws
// ---------------------------------------------------------------------------

proof fn lemma_find_key_some(m: Seq<(Seq<char>, PyVal)>, k: Seq<char>, j: int)
    requires
        0 <= j,
    ensures
        find_key(m, k, j) matches Some(i) ==> j <= i < m.len() && m[i].0 == k,
        (exists|t: int| j <= t < m.len() && m[t].0 == k) ==> find_key(m, k, j) is Some,
    decreases m.len() - j,
{
    if 0 <= j < m.len() && m[j].0 != k {
        lemma_find_key_some(m, k, j + 1);
        if exists|t: int| j <= t < m.len() && m[t].0 == k {
            let t = choose|t: int| j <= t < m.len() && m[t].0 == k;
            assert(j + 1 <= t);
        }
    }
}

proof fn lemma_insert_keeps(m: Seq<(Seq<char>, PyVal)>, k: Seq<char>, v: PyVal, k2: Seq<char>, v2: PyVal)
    requires
        k2 != k,
        exists|t: int| 0 <= t < m.len() && m[t] == (k2, v2),
    ensures
        exists|t: int| 0 <= t < kw_insert(m, k, v).len() && kw_insert(m, k, v)[t] == (k2, v2),
{
    let t = choose|t: int| 0 <= t < m.len() && m[t] == (k2, v2);
    lemma_find_key_some(m, k, 0);
    match find_key(m, k, 0) {
        Some(i) => { assert(i != t); assert(kw_insert(m, k, v)[t] == (k2, v2)); },
        None => { assert(kw_insert(m, k, v)[t] == (k2, v2)); },
    }
}

proof fn lemma_insert_has(m: Seq<(Seq<char>, PyVal)>, k: Seq<char>, v: PyVal)
    ensures
        exists|t: int| 0 <= t < kw_insert(m, k, v).len() && kw_insert(m, k, v)[t] == (k, v),
{
    lemma_find_key_some(m, k, 0);
    match find_key(m, k, 0) {
        Some(i) => { assert(kw_insert(m, k, v)[i] == (k, v)); },
        None => { assert(kw_insert(m, k, v)[m.len() as int] == (k, v)); },
    }
}

/// A call keyword of a `functools.partial` object overrides a bound one of
/// the same name: after merging keywords with distinct names, each of them
/// is there with the call's value.
pub proof fn law_partial_call_keyword_wins(bound_kws: Seq<(Seq<char>, PyVal)>, kws: Seq<(Seq<char>, Value)>, i: int)
    requires
        0 <= i < kws.len(),
        forall|a: int, b: int| 0 <= a < b < kws.len() ==> kws[a].0 != kws[b].0,
    ensures
        exists|t: int| 0 <= t < kw_merge(bound_kws, kws).len() && kw_merge(bound_kws, kws)[t] == (kws[i].0, kws[i].1@),
    decreases kws.len(),
{
    let last = kws.len() - 1;
    let init = kws.drop_last();
    assert(kws.last() == kws[last]);
    assert(kw_merge(bound_kws, kws) == kw_insert(kw_merge(bound_kws, init), kws[last].0, kws[last].1@));
    if i == last {
        lemma_insert_has(kw_merge(bound_kws, init), kws[i].0, kws[i].1@);
    } else {
        assert(init[i] == kws[i]);
        assert forall|a: int, b: int| 0 <= a < b < init.len() implies init[a].0 != init[b].0 by {
            assert(init[a] == kws[a]);
            assert(init[b] == kws[b]);
        }
        law_partial_call_keyword_wins(bound_kws, init, i);
        assert(kws[last].0 != kws[i].0);
        lemma_insert_keeps(kw_merge(bound_kws, init), kws.last().0, kws.last().1@, kws[i].0, kws[i].1@);
    }
}

} // verus!
