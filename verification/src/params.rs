//! Binding the arguments of a call onto a user function's parameters:
//! positional parameters from the positional arguments, then the keyword
//! arguments, then the defaults; the surplus positional arguments into
//! `*args`; keyword-only parameters; the surplus keyword arguments into
//! `**kwargs`.

use vstd::prelude::*;
use indexmap::IndexMap;
use crate::value::{Value, PyVal, view_items, lemma_view_items};
use crate::error::{EvalError, is_type_error, type_error};
use crate::kwargs::{kwarg_entries, kwarg_from, kwarg_get, kwargs_len, kwargs_get_index};
use crate::text::{str_eq, str_to_string};

verus! {

/// The parameters of a user function. Defaults belong to the last
/// positional parameters; each is kept as its source text and, once
/// evaluated at definition time, as its value.
pub struct FunctionParams {
    pub args: Vec<String>,
    pub defaults: Vec<String>,
    pub default_values: Vec<Value>,
    pub vararg: Option<String>,
    pub kwonlyargs: Vec<String>,
    pub kw_defaults: Vec<Option<String>>,
    pub kw_default_values: Vec<Option<Value>>,
    pub kwarg: Option<String>,
}

/// What a parameter is bound to: a value; a default whose value was never
/// computed, as the source text for the caller to evaluate (`None` where
/// that fails); or the surplus keyword arguments, from which the caller
/// builds the `**kwargs` dict.
pub enum Bound {
    Value(Value),
    Source(String),
    Kwargs(Vec<(String, Value)>),
}

/// The ghost form of a [`Bound`].
pub enum BoundView {
    Value(PyVal),
    Source(Seq<char>),
    Kwargs(Seq<(Seq<char>, PyVal)>),
}

pub open spec fn kw_pairs_view(v: Seq<(String, Value)>) -> Seq<(Seq<char>, PyVal)> {
    Seq::new(v.len(), |i: int| (v[i].0@, v[i].1@))
}

pub open spec fn bound_view(b: Bound) -> BoundView {
    match b {
        Bound::Value(v) => BoundView::Value(v@),
        Bound::Source(s) => BoundView::Source(s@),
        Bound::Kwargs(kv) => BoundView::Kwargs(kw_pairs_view(kv@)),
    }
}

/// The bindings in order, each name with what it is bound to.
pub open spec fn bindings_view(v: Seq<(String, Bound)>) -> Seq<(Seq<char>, BoundView)> {
    Seq::new(v.len(), |i: int| (v[i].0@, bound_view(v[i].1)))
}

pub open spec fn names_view(v: Seq<String>) -> Seq<Seq<char>> {
    Seq::new(v.len(), |i: int| v[i]@)
}

pub open spec fn missing_msg(name: Seq<char>) -> Seq<char> {
    "missing required argument: '"@ + name + "'"@
}

pub open spec fn missing_kw_msg(name: Seq<char>) -> Seq<char> {
    "missing required keyword argument: '"@ + name + "'"@
}

/// The index of the first positional parameter that has a default.
pub open spec fn first_default(p: FunctionParams) -> int {
    if p.args@.len() >= p.defaults@.len() { p.args@.len() - p.defaults@.len() } else { 0 }
}

/// What positional parameter `i` is bound to: its positional argument,
/// else its keyword argument, else its default.
pub open spec fn pos_binding(p: FunctionParams, args: Seq<Value>, kws: Seq<(Seq<char>, Value)>, i: int) -> Result<BoundView, Seq<char>> {
    let name = p.args@[i]@;
    if i < args.len() {
        Ok(BoundView::Value(args[i]@))
    } else {
        match kwarg_from(kws, name, 0) {
            Some(v) => Ok(BoundView::Value(v@)),
            None => if i >= first_default(p) {
                let di = i - first_default(p);
                if di < p.default_values@.len() {
                    Ok(BoundView::Value(p.default_values@[di]@))
                } else {
                    Ok(BoundView::Source(p.defaults@[di]@))
                }
            } else {
                Err(missing_msg(name))
            },
        }
    }
}

/// The bindings of the first `k` positional parameters, or the first
/// failure.
pub open spec fn pos_bindings(p: FunctionParams, args: Seq<Value>, kws: Seq<(Seq<char>, Value)>, k: int) -> Result<Seq<(Seq<char>, BoundView)>, Seq<char>>
    decreases k,
{
    if k <= 0 {
        Ok(Seq::empty())
    } else {
        match pos_bindings(p, args, kws, k - 1) {
            Err(m) => Err(m),
            Ok(s) => match pos_binding(p, args, kws, k - 1) {
                Err(m) => Err(m),
                Ok(b) => Ok(s.push((p.args@[k - 1]@, b))),
            },
        }
    }
}

/// What keyword-only parameter `i` is bound to: its keyword argument, else
/// its default.
pub open spec fn kw_binding(p: FunctionParams, kws: Seq<(Seq<char>, Value)>, i: int) -> Result<BoundView, Seq<char>> {
    let name = p.kwonlyargs@[i]@;
    match kwarg_from(kws, name, 0) {
        Some(v) => Ok(BoundView::Value(v@)),
        None => if i < p.kw_default_values@.len() && p.kw_default_values@[i] is Some {
            Ok(BoundView::Value(p.kw_default_values@[i]->Some_0@))
        } else if i < p.kw_defaults@.len() && p.kw_defaults@[i] is Some {
            Ok(BoundView::Source(p.kw_defaults@[i]->Some_0@))
        } else {
            Err(missing_kw_msg(name))
        },
    }
}

pub open spec fn kw_bindings(p: FunctionParams, kws: Seq<(Seq<char>, Value)>, k: int) -> Result<Seq<(Seq<char>, BoundView)>, Seq<char>>
    decreases k,
{
    if k <= 0 {
        Ok(Seq::empty())
    } else {
        match kw_bindings(p, kws, k - 1) {
            Err(m) => Err(m),
            Ok(s) => match kw_binding(p, kws, k - 1) {
                Err(m) => Err(m),
                Ok(b) => Ok(s.push((p.kwonlyargs@[k - 1]@, b))),
            },
        }
    }
}

/// The keyword arguments whose names are not among `names`, in order.
pub open spec fn extra_kwargs(kws: Seq<(Seq<char>, Value)>, names: Seq<Seq<char>>) -> Seq<(Seq<char>, PyVal)>
    decreases kws.len(),
{
    if kws.len() == 0 {
        Seq::empty()
    } else {
        let rest = extra_kwargs(kws.drop_last(), names);
        if names.contains(kws.last().0) { rest } else { rest.push((kws.last().0, kws.last().1@)) }
    }
}

/// The positional arguments beyond the positional parameters.
pub open spec fn surplus_args(args: Seq<Value>, n: int) -> Seq<Value> {
    if args.len() > n { args.subrange(n, args.len() as int) } else { Seq::empty() }
}

/// The bindings of a call, in the order they are made, or the message of
/// the `TypeError` for a missing argument. Positional arguments beyond the
/// parameters without `*args`, and unknown keywords without `**kwargs`,
/// are dropped.
pub open spec fn spec_bind_params(p: FunctionParams, args: Seq<Value>, kws: Seq<(Seq<char>, Value)>) -> Result<Seq<(Seq<char>, BoundView)>, Seq<char>> {
    let n = p.args@.len() as int;
    match pos_bindings(p, args, kws, n) {
        Err(m) => Err(m),
        Ok(a) => {
            let with_var = match p.vararg {
                Some(v) => a.push((v@, BoundView::Value(PyVal::Tuple(view_items(surplus_args(args, n)))))),
                None => a,
            };
            match kw_bindings(p, kws, p.kwonlyargs@.len() as int) {
                Err(m) => Err(m),
                Ok(b) => {
                    let all = with_var + b;
                    match p.kwarg {
                        Some(k) => Ok(all.push((k@, BoundView::Kwargs(
                            extra_kwargs(kws, names_view(p.args@) + names_view(p.kwonlyargs@)))))),
                        None => Ok(all),
                    }
                },
            }
        },
    }
}

// ---------------------------------------------------------------------------
// Implementation
// ---------------------------------------------------------------------------

proof fn lemma_pos_err_stays(p: FunctionParams, args: Seq<Value>, kws: Seq<(Seq<char>, Value)>, k: int, n: int, m: Seq<char>)
    requires
        0 <= k <= n,
        pos_bindings(p, args, kws, k) == Err::<Seq<(Seq<char>, BoundView)>, Seq<char>>(m),
    ensures
        pos_bindings(p, args, kws, n) == Err::<Seq<(Seq<char>, BoundView)>, Seq<char>>(m),
    decreases n - k,
{
    if k < n {
        lemma_pos_err_stays(p, args, kws, k + 1, n, m);
    }
}

proof fn lemma_kw_err_stays(p: FunctionParams, kws: Seq<(Seq<char>, Value)>, k: int, n: int, m: Seq<char>)
    requires
        0 <= k <= n,
        kw_bindings(p, kws, k) == Err::<Seq<(Seq<char>, BoundView)>, Seq<char>>(m),
    ensures
        kw_bindings(p, kws, n) == Err::<Seq<(Seq<char>, BoundView)>, Seq<char>>(m),
    decreases n - k,
{
    if k < n {
        lemma_kw_err_stays(p, kws, k + 1, n, m);
    }
}

fn quoted_msg(prefix: &str, name: &str) -> (r: String)
    ensures
        r@ == prefix@ + name@ + "'"@,
{
    let mut out = str_to_string(prefix);
    out.append(name);
    out.append("'");
    out
}

fn bind_positional(p: &FunctionParams, args: &[Value], kwargs: &IndexMap<String, Value>, i: usize) -> (r: Result<Bound, EvalError>)
    requires
        i < p.args@.len(),
    ensures
        match pos_binding(*p, args@, kwarg_entries(*kwargs), i as int) {
            Ok(b) => r matches Ok(x) && bound_view(x) == b,
            Err(m) => r matches Err(e) && is_type_error(e, m),
        },
{
    let name = &p.args[i];
    if i < args.len() {
        return Ok(Bound::Value(args[i].deep_copy()));
    }
    match kwarg_get(kwargs, name.as_str()) {
        Some(v) => { return Ok(Bound::Value(v.deep_copy())); },
        None => {},
    }
    let n = p.args.len();
    let first = if n >= p.defaults.len() { n - p.defaults.len() } else { 0 };
    if i >= first {
        let di = i - first;
        if di < p.default_values.len() {
            Ok(Bound::Value(p.default_values[di].deep_copy()))
        } else {
            Ok(Bound::Source(p.defaults[di].clone()))
        }
    } else {
        Err(type_error(quoted_msg("missing required argument: '", name.as_str())))
    }
}

fn bind_keyword_only(p: &FunctionParams, kwargs: &IndexMap<String, Value>, i: usize) -> (r: Result<Bound, EvalError>)
    requires
        i < p.kwonlyargs@.len(),
    ensures
        match kw_binding(*p, kwarg_entries(*kwargs), i as int) {
            Ok(b) => r matches Ok(x) && bound_view(x) == b,
            Err(m) => r matches Err(e) && is_type_error(e, m),
        },
{
    let name = &p.kwonlyargs[i];
    match kwarg_get(kwargs, name.as_str()) {
        Some(v) => { return Ok(Bound::Value(v.deep_copy())); },
        None => {},
    }
    if i < p.kw_default_values.len() {
        match &p.kw_default_values[i] {
            Some(v) => { return Ok(Bound::Value(v.deep_copy())); },
            None => {},
        }
    }
    if i < p.kw_defaults.len() {
        match &p.kw_defaults[i] {
            Some(s) => { return Ok(Bound::Source(s.clone())); },
            None => {},
        }
    }
    Err(type_error(quoted_msg("missing required keyword argument: '", name.as_str())))
}

/// Whether `name` is among `names`.
fn names_contain(names: &Vec<String>, name: &str) -> (r: bool)
    ensures
        r == names_view(names@).contains(name@),
{
    let mut i: usize = 0;
    while i < names.len()
        invariant
            i <= names@.len(),
            forall|j: int| 0 <= j < i ==> names@[j]@ != name@,
        decreases names.len() - i,
    {
        if str_eq(names[i].as_str(), name) {
            proof { assert(names_view(names@)[i as int] == name@); }
            return true;
        }
        i = i + 1;
    }
    proof {
        if names_view(names@).contains(name@) {
            let j = choose|j: int| 0 <= j < names_view(names@).len() && names_view(names@)[j] == name@;
            assert(names@[j]@ == name@);
        }
    }
    false
}

fn surplus_kwargs(kwargs: &IndexMap<String, Value>, p: &FunctionParams) -> (r: Vec<(String, Value)>)
    ensures
        kw_pairs_view(r@) == extra_kwargs(kwarg_entries(*kwargs), names_view(p.args@) + names_view(p.kwonlyargs@)),
{
    let ghost kws = kwarg_entries(*kwargs);
    let ghost names = names_view(p.args@) + names_view(p.kwonlyargs@);
    let n = kwargs_len(kwargs);
    let mut out: Vec<(String, Value)> = Vec::new();
    let mut i: usize = 0;
    proof { assert(kw_pairs_view(out@) =~= extra_kwargs(kws.take(0), names)); }
    while i < n
        invariant
            kws == kwarg_entries(*kwargs),
            names == names_view(p.args@) + names_view(p.kwonlyargs@),
            n == kws.len(),
            i <= n,
            kw_pairs_view(out@) == extra_kwargs(kws.take(i as int), names),
        decreases n - i,
    {
        proof { assert(kws.take(i + 1).drop_last() =~= kws.take(i as int)); }
        match kwargs_get_index(kwargs, i) {
            Some((k, v)) => {
                let known = names_contain(&p.args, k.as_str()) || names_contain(&p.kwonlyargs, k.as_str());
                proof {
                    assert(names.contains(k@) == (names_view(p.args@).contains(k@) || names_view(p.kwonlyargs@).contains(k@))) by {
                        if names.contains(k@) {
                            let j = choose|j: int| 0 <= j < names.len() && names[j] == k@;
                            if j >= names_view(p.args@).len() {
                                assert(names_view(p.kwonlyargs@)[j - names_view(p.args@).len()] == k@);
                            }
                        }
                        if names_view(p.args@).contains(k@) {
                            let j = choose|j: int| 0 <= j < names_view(p.args@).len() && names_view(p.args@)[j] == k@;
                            assert(names[j] == k@);
                        }
                        if names_view(p.kwonlyargs@).contains(k@) {
                            let j = choose|j: int| 0 <= j < names_view(p.kwonlyargs@).len() && names_view(p.kwonlyargs@)[j] == k@;
                            assert(names[j + names_view(p.args@).len()] == k@);
                        }
                    }
                }
                if !known {
                    let ghost before = kw_pairs_view(out@);
                    out.push((k.clone(), v.deep_copy()));
                    proof { assert(kw_pairs_view(out@) =~= before.push((k@, v@))); }
                }
            },
            None => {},
        }
        i = i + 1;
    }
    proof { assert(kws.take(n as int) =~= kws); }
    out
}

/// Bind the arguments of a call onto `params`: the bindings in the order
/// they are made, or a `TypeError` for a missing argument.
pub fn bind_params(params: &FunctionParams, args: &[Value], kwargs: &IndexMap<String, Value>) -> (r: Result<Vec<(String, Bound)>, EvalError>)
    ensures
        match spec_bind_params(*params, args@, kwarg_entries(*kwargs)) {
            Ok(b) => r matches Ok(v) && bindings_view(v@) == b,
            Err(m) => r matches Err(e) && is_type_error(e, m),
        },
{
    let ghost kws = kwarg_entries(*kwargs);
    let n = params.args.len();
    let mut out: Vec<(String, Bound)> = Vec::new();
    let mut i: usize = 0;
    proof { assert(bindings_view(out@) =~= Seq::<(Seq<char>, BoundView)>::empty()); }
    while i < n
        invariant
            n == params.args@.len(),
            kws == kwarg_entries(*kwargs),
            i <= n,
            pos_bindings(*params, args@, kws, i as int) == Ok::<Seq<(Seq<char>, BoundView)>, Seq<char>>(bindings_view(out@)),
        decreases n - i,
    {
        match bind_positional(params, args, kwargs, i) {
            Err(e) => {
                proof {
                    let m = pos_binding(*params, args@, kws, i as int)->Err_0;
                    lemma_pos_err_stays(*params, args@, kws, i + 1, n as int, m);
                }
                return Err(e);
            },
            Ok(b) => {
                let ghost before = bindings_view(out@);
                let ghost bv = bound_view(b);
                out.push((params.args[i].clone(), b));
                proof { assert(bindings_view(out@) =~= before.push((params.args@[i as int]@, bv))); }
            },
        }
        i = i + 1;
    }
    match &params.vararg {
        Some(vname) => {
            let mut extra: Vec<Value> = Vec::new();
            let start: usize = if n < args.len() { n } else { args.len() };
            let mut j: usize = start;
            while j < args.len()
                invariant
                    start <= j <= args@.len(),
                    start == n || (start == args@.len() && args@.len() <= n),
                    extra@.len() == j - start,
                    forall|t: int| 0 <= t < extra@.len() ==> (#[trigger] extra@[t])@ == args@[start + t]@,
                decreases args.len() - j,
            {
                extra.push(args[j].deep_copy());
                j = j + 1;
            }
            proof {
                let sur = surplus_args(args@, n as int);
                if args@.len() <= n { assert(sur =~= Seq::<Value>::empty()); }
                lemma_view_items(extra@);
                lemma_view_items(sur);
                assert(sur.len() == extra@.len());
                assert forall|t: int| 0 <= t < sur.len() implies view_items(extra@)[t] == view_items(sur)[t] by {
                    assert(sur[t] == args@[start + t]);
                    assert(extra@[t]@ == args@[start + t]@);
                }
                assert(view_items(extra@) =~= view_items(sur));
            }
            let ghost before = bindings_view(out@);
            let tup = Bound::Value(Value::Tuple(extra));
            let ghost bv = bound_view(tup);
            out.push((vname.clone(), tup));
            proof { assert(bindings_view(out@) =~= before.push((vname@, bv))); }
        },
        None => {},
    }
    let ghost with_var = bindings_view(out@);
    let m = params.kwonlyargs.len();
    let mut kout: Vec<(String, Bound)> = Vec::new();
    let mut k: usize = 0;
    proof { assert(bindings_view(kout@) =~= Seq::<(Seq<char>, BoundView)>::empty()); }
    while k < m
        invariant
            m == params.kwonlyargs@.len(),
            kws == kwarg_entries(*kwargs),
            k <= m,
            pos_bindings(*params, args@, kws, params.args@.len() as int) is Ok,
            kw_bindings(*params, kws, k as int) == Ok::<Seq<(Seq<char>, BoundView)>, Seq<char>>(bindings_view(kout@)),
        decreases m - k,
    {
        match bind_keyword_only(params, kwargs, k) {
            Err(e) => {
                proof {
                    let msg = kw_binding(*params, kws, k as int)->Err_0;
                    lemma_kw_err_stays(*params, kws, k + 1, m as int, msg);
                }
                return Err(e);
            },
            Ok(b) => {
                let ghost before = bindings_view(kout@);
                let ghost bv = bound_view(b);
                kout.push((params.kwonlyargs[k].clone(), b));
                proof { assert(bindings_view(kout@) =~= before.push((params.kwonlyargs@[k as int]@, bv))); }
            },
        }
        k = k + 1;
    }
    let ghost kb = bindings_view(kout@);
    out.append(&mut kout);
    proof { assert(bindings_view(out@) =~= with_var + kb); }
    match &params.kwarg {
        Some(kname) => {
            let extra = surplus_kwargs(kwargs, params);
            let ghost before = bindings_view(out@);
            let kb2 = Bound::Kwargs(extra);
            let ghost bv = bound_view(kb2);
            out.push((kname.clone(), kb2));
            proof { assert(bindings_view(out@) =~= before.push((kname@, bv))); }
        },
        None => {},
    }
    Ok(out)
}

// ---------------------------------------------------------------------------
// The fast frame
// ---------------------------------------------------------------------------

/// What a function's body asks of its frame.
pub struct FrameShape {
    pub nonlocal_names: Vec<String>,
    pub assigned_names: Vec<String>,
    pub global_names: Vec<String>,
    pub is_generator: bool,
    pub closure_is_empty: bool,
    pub is_module_level: bool,
}

/// A call runs on the fast frame (no parameters to bind, no closure to lay
/// over the scope, no names to save and restore) when nothing is passed, the
/// function takes no parameters, declares no `nonlocal` or `global` names,
/// binds no names, is no generator, and has no closure or is defined at
/// module level.
pub open spec fn spec_fast_frame(p: FunctionParams, f: FrameShape, nargs: nat, nkws: nat) -> bool {
    &&& nargs == 0
    &&& nkws == 0
    &&& p.args@.len() == 0
    &&& p.vararg is None
    &&& p.kwonlyargs@.len() == 0
    &&& p.kwarg is None
    &&& f.nonlocal_names@.len() == 0
    &&& f.assigned_names@.len() == 0
    &&& f.global_names@.len() == 0
    &&& !f.is_generator
    &&& (f.closure_is_empty || f.is_module_level)
}

/// Whether a call of a function with `params` and `shape` runs on the fast
/// frame.
pub fn takes_fast_frame(params: &FunctionParams, shape: &FrameShape, args: &[Value], kwargs: &IndexMap<String, Value>) -> (r: bool)
    ensures
        r == spec_fast_frame(*params, *shape, args@.len(), kwarg_entries(*kwargs).len()),
{
    args.len() == 0
        && kwargs_len(kwargs) == 0
        && params.args.len() == 0
        && params.vararg.is_none()
        && params.kwonlyargs.len() == 0
        && params.kwarg.is_none()
        && shape.nonlocal_names.len() == 0
        && shape.assigned_names.len() == 0
        && shape.global_names.len() == 0
        && !shape.is_generator
        && (shape.closure_is_empty || shape.is_module_level)
}

// ---------------------------------------------------------------------------
// Laws
// ---------------------------------------------------------------------------

proof fn lemma_pos_bindings_at(p: FunctionParams, args: Seq<Value>, kws: Seq<(Seq<char>, Value)>, k: int, i: int)
    requires
        0 <= i < k,
        pos_bindings(p, args, kws, k) is Ok,
    ensures
        pos_bindings(p, args, kws, k)->Ok_0.len() == k,
        pos_binding(p, args, kws, i) is Ok,
        pos_bindings(p, args, kws, k)->Ok_0[i] == (p.args@[i]@, pos_binding(p, args, kws, i)->Ok_0),
    decreases k,
{
    lemma_pos_bindings_len(p, args, kws, k);
    if i < k - 1 {
        lemma_pos_bindings_at(p, args, kws, k - 1, i);
    }
}

proof fn lemma_pos_bindings_len(p: FunctionParams, args: Seq<Value>, kws: Seq<(Seq<char>, Value)>, k: int)
    requires
        0 <= k,
        pos_bindings(p, args, kws, k) is Ok,
    ensures
        pos_bindings(p, args, kws, k)->Ok_0.len() == k,
    decreases k,
{
    if k > 0 {
        lemma_pos_bindings_len(p, args, kws, k - 1);
    }
}

/// Positional arguments bind the positional parameters in order: where the
/// binding succeeds, parameter `i` with a positional argument is the `i`-th
/// binding, bound to that argument.
pub proof fn law_positional_arguments_bind_in_order(p: FunctionParams, args: Seq<Value>, kws: Seq<(Seq<char>, Value)>, i: int)
    requires
        spec_bind_params(p, args, kws) is Ok,
        0 <= i < p.args@.len(),
        i < args.len(),
    ensures
        spec_bind_params(p, args, kws)->Ok_0[i] == (p.args@[i]@, BoundView::Value(args[i]@)),
{
    let n = p.args@.len() as int;
    lemma_pos_bindings_at(p, args, kws, n, i);
    let a = pos_bindings(p, args, kws, n)->Ok_0;
    let with_var = match p.vararg {
        Some(v) => a.push((v@, BoundView::Value(PyVal::Tuple(view_items(surplus_args(args, n)))))),
        None => a,
    };
    assert(with_var[i] == a[i]);
    let b = kw_bindings(p, kws, p.kwonlyargs@.len() as int)->Ok_0;
    assert((with_var + b)[i] == a[i]);
}

proof fn lemma_bound_at(p: FunctionParams, args: Seq<Value>, kws: Seq<(Seq<char>, Value)>, i: int)
    requires
        spec_bind_params(p, args, kws) is Ok,
        0 <= i < p.args@.len(),
    ensures
        pos_binding(p, args, kws, i) is Ok,
        spec_bind_params(p, args, kws)->Ok_0[i] == (p.args@[i]@, pos_binding(p, args, kws, i)->Ok_0),
{
    let n = p.args@.len() as int;
    lemma_pos_bindings_at(p, args, kws, n, i);
    let a = pos_bindings(p, args, kws, n)->Ok_0;
    let with_var = match p.vararg {
        Some(v) => a.push((v@, BoundView::Value(PyVal::Tuple(view_items(surplus_args(args, n)))))),
        None => a,
    };
    assert(with_var[i] == a[i]);
    let b = kw_bindings(p, kws, p.kwonlyargs@.len() as int)->Ok_0;
    assert((with_var + b)[i] == a[i]);
}

/// A positional parameter that no positional argument fills but a keyword
/// argument names is bound to that keyword argument's value, whether or not
/// it has a default.
pub proof fn law_keyword_argument_fills_parameter(p: FunctionParams, args: Seq<Value>, kws: Seq<(Seq<char>, Value)>, i: int, v: Value)
    requires
        spec_bind_params(p, args, kws) is Ok,
        0 <= i < p.args@.len(),
        args.len() <= i,
        kwarg_from(kws, p.args@[i]@, 0) == Some(v),
    ensures
        spec_bind_params(p, args, kws)->Ok_0[i] == (p.args@[i]@, BoundView::Value(v@)),
{
    lemma_bound_at(p, args, kws, i);
}

/// A positional parameter given neither positionally nor by keyword takes
/// its default: the `d` defaults belong to the last `d` parameters, in
/// order; one whose value was never computed is handed over as its source.
pub proof fn law_default_fills_parameter(p: FunctionParams, args: Seq<Value>, kws: Seq<(Seq<char>, Value)>, i: int)
    requires
        spec_bind_params(p, args, kws) is Ok,
        p.defaults@.len() <= p.args@.len(),
        p.args@.len() - p.defaults@.len() <= i < p.args@.len(),
        args.len() <= i,
        kwarg_from(kws, p.args@[i]@, 0) is None,
    ensures
        ({
            let di = i - (p.args@.len() - p.defaults@.len());
            spec_bind_params(p, args, kws)->Ok_0[i] == (p.args@[i]@,
                if di < p.default_values@.len() { BoundView::Value(p.default_values@[di]@) } else { BoundView::Source(p.defaults@[di]@) })
        }),
{
    lemma_bound_at(p, args, kws, i);
}

/// Whether every parameter is given: each positional one by position, by
/// keyword or by default, and each keyword-only one by keyword or by
/// default.
pub open spec fn all_parameters_given(p: FunctionParams, args: Seq<Value>, kws: Seq<(Seq<char>, Value)>) -> bool {
    &&& forall|i: int| 0 <= i < p.args@.len() ==>
        i < args.len() || kwarg_from(kws, #[trigger] p.args@[i]@, 0) is Some
            || i >= p.args@.len() - p.defaults@.len()
    &&& forall|j: int| 0 <= j < p.kwonlyargs@.len() ==>
        kwarg_from(kws, #[trigger] p.kwonlyargs@[j]@, 0) is Some
            || (j < p.kw_default_values@.len() && p.kw_default_values@[j] is Some)
            || (j < p.kw_defaults@.len() && p.kw_defaults@[j] is Some)
}

proof fn lemma_pos_all_ok(p: FunctionParams, args: Seq<Value>, kws: Seq<(Seq<char>, Value)>, k: int)
    requires
        0 <= k <= p.args@.len(),
        all_parameters_given(p, args, kws),
    ensures
        pos_bindings(p, args, kws, k) is Ok,
    decreases k,
{
    if k > 0 {
        lemma_pos_all_ok(p, args, kws, k - 1);
        let i = k - 1;
        assert(i < args.len() || kwarg_from(kws, p.args@[i]@, 0) is Some || i >= p.args@.len() - p.defaults@.len());
    }
}

proof fn lemma_kw_all_ok(p: FunctionParams, kws: Seq<(Seq<char>, Value)>, args: Seq<Value>, k: int)
    requires
        0 <= k <= p.kwonlyargs@.len(),
        all_parameters_given(p, args, kws),
    ensures
        kw_bindings(p, kws, k) is Ok,
    decreases k,
{
    if k > 0 {
        lemma_kw_all_ok(p, kws, args, k - 1);
        let j = k - 1;
        assert(kwarg_from(kws, p.kwonlyargs@[j]@, 0) is Some
            || (j < p.kw_default_values@.len() && p.kw_default_values@[j] is Some)
            || (j < p.kw_defaults@.len() && p.kw_defaults@[j] is Some));
    }
}

/// Binding succeeds whenever every parameter is given, by position, by
/// keyword or by default.
pub proof fn law_binding_succeeds_when_all_given(p: FunctionParams, args: Seq<Value>, kws: Seq<(Seq<char>, Value)>)
    requires
        all_parameters_given(p, args, kws),
    ensures
        spec_bind_params(p, args, kws) is Ok,
{
    lemma_pos_all_ok(p, args, kws, p.args@.len() as int);
    lemma_kw_all_ok(p, kws, args, p.kwonlyargs@.len() as int);
}

proof fn lemma_kw_bindings_at(p: FunctionParams, kws: Seq<(Seq<char>, Value)>, k: int, j: int)
    requires
        0 <= j < k,
        kw_bindings(p, kws, k) is Ok,
    ensures
        kw_bindings(p, kws, k)->Ok_0.len() == k,
        kw_binding(p, kws, j) is Ok,
        kw_bindings(p, kws, k)->Ok_0[j] == (p.kwonlyargs@[j]@, kw_binding(p, kws, j)->Ok_0),
    decreases k,
{
    lemma_kw_bindings_len(p, kws, k);
    if j < k - 1 {
        lemma_kw_bindings_at(p, kws, k - 1, j);
    }
}

proof fn lemma_kw_bindings_len(p: FunctionParams, kws: Seq<(Seq<char>, Value)>, k: int)
    requires
        0 <= k,
        kw_bindings(p, kws, k) is Ok,
    ensures
        kw_bindings(p, kws, k)->Ok_0.len() == k,
    decreases k,
{
    if k > 0 {
        lemma_kw_bindings_len(p, kws, k - 1);
    }
}

/// A keyword-only parameter named by a keyword argument is bound to that
/// argument's value, whatever its default; one not named takes its
/// computed default, else its default's source. The keyword-only bindings
/// come after the positional parameters and `*args`.
pub proof fn law_keyword_only_parameters(p: FunctionParams, args: Seq<Value>, kws: Seq<(Seq<char>, Value)>, j: int)
    requires
        spec_bind_params(p, args, kws) is Ok,
        0 <= j < p.kwonlyargs@.len(),
    ensures
        ({
            let at = p.args@.len() + if p.vararg is Some { 1int } else { 0int } + j;
            let name = p.kwonlyargs@[j]@;
            let r = spec_bind_params(p, args, kws)->Ok_0;
            &&& r[at].0 == name
            &&& match kwarg_from(kws, name, 0) {
                Some(v) => r[at].1 == BoundView::Value(v@),
                None => if j < p.kw_default_values@.len() && p.kw_default_values@[j] is Some {
                    r[at].1 == BoundView::Value(p.kw_default_values@[j]->Some_0@)
                } else {
                    j < p.kw_defaults@.len() && p.kw_defaults@[j] is Some
                        && r[at].1 == BoundView::Source(p.kw_defaults@[j]->Some_0@)
                },
            }
        }),
{
    let n = p.args@.len() as int;
    let m = p.kwonlyargs@.len() as int;
    lemma_pos_bindings_len(p, args, kws, n);
    lemma_kw_bindings_at(p, kws, m, j);
    let a = pos_bindings(p, args, kws, n)->Ok_0;
    let with_var = match p.vararg {
        Some(v) => a.push((v@, BoundView::Value(PyVal::Tuple(view_items(surplus_args(args, n)))))),
        None => a,
    };
    let b = kw_bindings(p, kws, m)->Ok_0;
    assert((with_var + b)[with_var.len() + j] == b[j]);
}

/// `*args` gets the positional arguments beyond the positional
/// parameters, in order, as a tuple, right after the positional
/// parameters.
pub proof fn law_surplus_arguments_go_to_varargs(p: FunctionParams, args: Seq<Value>, kws: Seq<(Seq<char>, Value)>)
    requires
        spec_bind_params(p, args, kws) is Ok,
        p.vararg is Some,
    ensures
        ({
            let n = p.args@.len() as int;
            let r = spec_bind_params(p, args, kws)->Ok_0;
            &&& r[n].0 == p.vararg->Some_0@
            &&& r[n].1 == BoundView::Value(PyVal::Tuple(view_items(
                    if args.len() > n { args.subrange(n, args.len() as int) } else { Seq::empty() })))
            &&& (args.len() > n ==> view_items(args.subrange(n, args.len() as int)).len() == args.len() - n)
        }),
{
    let n = p.args@.len() as int;
    lemma_pos_bindings_len(p, args, kws, n);
    crate::value::lemma_view_items_len_all();
    let a = pos_bindings(p, args, kws, n)->Ok_0;
    let with_var = a.push((p.vararg->Some_0@, BoundView::Value(PyVal::Tuple(view_items(surplus_args(args, n))))));
    let b = kw_bindings(p, kws, p.kwonlyargs@.len() as int)->Ok_0;
    assert((with_var + b)[n] == with_var[n]);
}

} // verus!
