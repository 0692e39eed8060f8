//! Keyword arguments, held in an insertion-ordered `indexmap::IndexMap`, and
//! the binding of positional and keyword arguments onto method parameters.

use vstd::prelude::*;
use indexmap::IndexMap;
use crate::value::{Value, PyVal};
use crate::error::{EvalError, is_type_error, type_error};
use crate::text::{concat_str, str_eq, string_from_chars, str_to_string};
use crate::error::{decimal, decimal_chars};

verus! {

#[verifier::external_type_specification]
#[verifier::external_body]
#[verifier::reject_recursive_types(K)]
#[verifier::reject_recursive_types(V)]
#[verifier::reject_recursive_types(S)]
pub struct ExIndexMap<K, V, S>(IndexMap<K, V, S>);

/// The entries of a keyword-argument map, in insertion order: each name's
/// characters and its value.
pub uninterp spec fn kwarg_entries(m: IndexMap<String, Value>) -> Seq<(Seq<char>, Value)>;

/// The number of entries. Calls `IndexMap::len`, which counts the entries.
#[verifier::external_body]
pub(crate) fn kwargs_len(m: &IndexMap<String, Value>) -> (n: usize)
    ensures
        n == kwarg_entries(*m).len(),
{
    m.len()
}

/// The entry at position `i`. Calls `IndexMap::get_index`, which returns the
/// `i`-th entry in insertion order, or `None` when `i` is past the end.
#[verifier::external_body]
pub(crate) fn kwargs_get_index(m: &IndexMap<String, Value>, i: usize) -> (r: Option<(&String, &Value)>)
    ensures
        i < kwarg_entries(*m).len() <==> r is Some,
        r matches Some((k, v)) ==> k@ == kwarg_entries(*m)[i as int].0 && *v == kwarg_entries(*m)[i as int].1,
{
    m.get_index(i)
}

/// The message for an unexpected keyword argument `name` of `method`.
pub open spec fn unexpected_kwarg_msg(method: Seq<char>, name: Seq<char>) -> Seq<char> {
    method + "() got an unexpected keyword argument '"@ + name + "'"@
}

/// `method() got an unexpected keyword argument 'name'` as an error.
pub fn unexpected_kwarg(method: &str, name: &str) -> (e: EvalError)
    ensures
        is_type_error(e, unexpected_kwarg_msg(method@, name@)),
{
    let a = concat_str(method, "() got an unexpected keyword argument '");
    let b = a.concat(name);
    let c = b.concat("'");
    assert(c@ =~= unexpected_kwarg_msg(method@, name@));
    type_error(c)
}

/// Reject any keyword arguments: a method that takes none raises `TypeError`
/// naming the first one given.
pub fn reject_kwargs(method: &str, kwargs: &IndexMap<String, Value>) -> (r: Result<(), EvalError>)
    ensures
        r is Ok <==> kwarg_entries(*kwargs).len() == 0,
        r matches Err(e) ==> is_type_error(e, unexpected_kwarg_msg(method@, kwarg_entries(*kwargs)[0].0)),
{
    match kwargs_get_index(kwargs, 0) {
        Some((name, _)) => Err(unexpected_kwarg(method, name.as_str())),
        None => Ok(()),
    }
}

/// The first position of `name` in `params`, or -1.
pub open spec fn param_index(params: Seq<&str>, name: Seq<char>) -> int
    decreases params.len(),
{
    if params.len() == 0 {
        -1
    } else if params[0]@ == name {
        0
    } else {
        let rest = param_index(params.drop_first(), name);
        if rest < 0 { -1 } else { rest + 1 }
    }
}

/// The view of an optional value.
pub open spec fn opt_view(o: Option<Value>) -> Option<PyVal> {
    match o {
        Some(v) => Some(v@),
        None => None,
    }
}

/// The message for more positional arguments than parameters.
pub open spec fn too_many_args_msg(method: Seq<char>, nparams: nat, nargs: nat) -> Seq<char> {
    method + "() takes at most "@ + decimal(nparams) + " argument"@ + (if nparams == 1 { ""@ } else { "s"@ })
        + " ("@ + decimal(nargs) + " given)"@
}

/// The message for a keyword that repeats a bound parameter.
pub open spec fn multiple_values_msg(method: Seq<char>, name: Seq<char>) -> Seq<char> {
    method + "() got multiple values for argument '"@ + name + "'"@
}

/// The slots after the positionals and the first `k` keyword arguments are
/// bound, or the message of the first binding error.
pub open spec fn bind_upto(
    method: Seq<char>,
    args: Seq<Value>,
    kws: Seq<(Seq<char>, Value)>,
    params: Seq<&str>,
    k: int,
) -> Result<Seq<Option<PyVal>>, Seq<char>>
    decreases k,
{
    if k <= 0 {
        Ok(Seq::new(params.len(), |i: int| if i < args.len() { Some(args[i]@) } else { None }))
    } else {
        match bind_upto(method, args, kws, params, k - 1) {
            Err(m) => Err(m),
            Ok(b) => {
                let name = kws[k - 1].0;
                let idx = param_index(params, name);
                if idx < 0 {
                    Err(unexpected_kwarg_msg(method, name))
                } else if b[idx] is Some {
                    Err(multiple_values_msg(method, name))
                } else {
                    Ok(b.update(idx, Some(kws[k - 1].1@)))
                }
            },
        }
    }
}

/// What binding `args` and `kws` onto `params` gives: one slot per parameter
/// (`None` when not supplied), or the message of the `TypeError` raised.
pub open spec fn spec_bind(
    method: Seq<char>,
    args: Seq<Value>,
    kws: Seq<(Seq<char>, Value)>,
    params: Seq<&str>,
) -> Result<Seq<Option<PyVal>>, Seq<char>> {
    if args.len() > params.len() {
        Err(too_many_args_msg(method, params.len(), args.len()))
    } else {
        bind_upto(method, args, kws, params, kws.len() as int)
    }
}

proof fn lemma_param_index_bounds(params: Seq<&str>, name: Seq<char>)
    ensures
        -1 <= param_index(params, name) < params.len(),
        param_index(params, name) >= 0 ==> params[param_index(params, name)]@ == name,
        param_index(params, name) < 0 ==> forall|i: int| 0 <= i < params.len() ==> params[i]@ != name,
    decreases params.len(),
{
    if params.len() > 0 {
        lemma_param_index_bounds(params.drop_first(), name);
        assert forall|i: int| 1 <= i < params.len() implies params[i] == params.drop_first()[i - 1] by {}
    }
}

proof fn lemma_bind_upto_len(method: Seq<char>, args: Seq<Value>, kws: Seq<(Seq<char>, Value)>, params: Seq<&str>, k: int)
    ensures
        bind_upto(method, args, kws, params, k) matches Ok(b) ==> b.len() == params.len(),
    decreases k,
{
    if k > 0 {
        lemma_bind_upto_len(method, args, kws, params, k - 1);
        lemma_param_index_bounds(params, kws[k - 1].0);
    }
}

proof fn lemma_bind_upto_err_persists(method: Seq<char>, args: Seq<Value>, kws: Seq<(Seq<char>, Value)>, params: Seq<&str>, k: int, k2: int)
    requires
        0 <= k <= k2,
        bind_upto(method, args, kws, params, k) is Err,
    ensures
        bind_upto(method, args, kws, params, k2) == bind_upto(method, args, kws, params, k),
    decreases k2 - k,
{
    if k2 > k {
        lemma_bind_upto_err_persists(method, args, kws, params, k, k2 - 1);
    }
}

/// The position of `name` in `params`, or -1.
fn find_param(params: &[&str], name: &str) -> (r: i64)
    requires
        params@.len() < i64::MAX,
    ensures
        r == param_index(params@, name@),
{
    let mut i: usize = 0;
    while i < params.len()
        invariant
            i <= params@.len(),
            params@.len() < i64::MAX,
            forall|j: int| 0 <= j < i ==> params@[j]@ != name@,
        decreases params.len() - i,
    {
        if str_eq(params[i], name) {
            proof { lemma_param_index_first(params@, name@, i as int); }
            return i as i64;
        }
        i = i + 1;
    }
    proof { lemma_param_index_absent(params@, name@); }
    -1
}

proof fn lemma_param_index_first(params: Seq<&str>, name: Seq<char>, i: int)
    requires
        0 <= i < params.len(),
        params[i]@ == name,
        forall|j: int| 0 <= j < i ==> params[j]@ != name,
    ensures
        param_index(params, name) == i,
    decreases i,
{
    if i > 0 {
        let rest = params.drop_first();
        assert forall|j: int| 0 <= j < i - 1 implies rest[j]@ != name by {
            assert(rest[j] == params[j + 1]);
        }
        lemma_param_index_first(rest, name, i - 1);
    }
}

proof fn lemma_param_index_absent(params: Seq<&str>, name: Seq<char>)
    requires
        forall|j: int| 0 <= j < params.len() ==> params[j]@ != name,
    ensures
        param_index(params, name) == -1,
    decreases params.len(),
{
    if params.len() > 0 {
        let rest = params.drop_first();
        assert forall|j: int| 0 <= j < rest.len() implies rest[j]@ != name by {
            assert(rest[j] == params[j + 1]);
        }
        lemma_param_index_absent(rest, name);
    }
}

/// `"{method}() takes at most {P} argument{s} ({A} given)"` as an error.
fn too_many_args(method: &str, nparams: usize, nargs: usize) -> (e: EvalError)
    ensures
        is_type_error(e, too_many_args_msg(method@, nparams as nat, nargs as nat)),
{
    let p = string_from_chars(&decimal_chars(nparams as u64));
    let a = string_from_chars(&decimal_chars(nargs as u64));
    let s1 = concat_str(method, "() takes at most ");
    let s2 = s1.concat(p.as_str());
    let s3 = s2.concat(" argument");
    let s4 = if nparams == 1 { s3.concat("") } else { s3.concat("s") };
    let s5 = s4.concat(" (");
    let s6 = s5.concat(a.as_str());
    let s7 = s6.concat(" given)");
    assert(s7@ =~= too_many_args_msg(method@, nparams as nat, nargs as nat));
    type_error(s7)
}

/// `"{method}() got multiple values for argument '{name}'"` as an error.
fn multiple_values(method: &str, name: &str) -> (e: EvalError)
    ensures
        is_type_error(e, multiple_values_msg(method@, name@)),
{
    let s1 = concat_str(method, "() got multiple values for argument '");
    let s2 = s1.concat(name);
    let s3 = s2.concat("'");
    assert(s3@ =~= multiple_values_msg(method@, name@));
    type_error(s3)
}

/// Bind positional and keyword arguments onto named method parameters:
/// one slot per parameter (`None` when not supplied). Raises `TypeError` for
/// more positionals than parameters, for an unknown keyword, and for a
/// keyword that names a parameter already bound.
pub fn bind_method_params(
    method: &str,
    args: &[Value],
    kwargs: &IndexMap<String, Value>,
    params: &[&str],
) -> (r: Result<Vec<Option<Value>>, EvalError>)
    requires
        params@.len() < i64::MAX,
    ensures
        match spec_bind(method@, args@, kwarg_entries(*kwargs), params@) {
            Ok(b) => r matches Ok(v) && v@.len() == b.len() && b.len() == params@.len() && forall|i: int|
                0 <= i < b.len() ==> opt_view(#[trigger] v@[i]) == b[i],
            Err(m) => r matches Err(e) && is_type_error(e, m),
        },
{
    if args.len() > params.len() {
        return Err(too_many_args(method, params.len(), args.len()));
    }
    let ghost kws = kwarg_entries(*kwargs);
    let mut bound: Vec<Option<Value>> = Vec::new();
    let mut i: usize = 0;
    while i < params.len()
        invariant
            args@.len() <= params@.len(),
            i <= params@.len(),
            bound@.len() == i,
            forall|j: int| 0 <= j < i ==> opt_view(#[trigger] bound@[j]) == (if j < args@.len() { Some(args@[j]@) } else { None::<PyVal> }),
        decreases params.len() - i,
    {
        if i < args.len() {
            bound.push(Some(args[i].deep_copy()));
        } else {
            bound.push(None);
        }
        i = i + 1;
    }
    let n = kwargs_len(kwargs);
    let mut k: usize = 0;
    while k < n
        invariant
            n == kws.len(),
            kws == kwarg_entries(*kwargs),
            args@.len() <= params@.len(),
            params@.len() < i64::MAX,
            k <= n,
            bind_upto(method@, args@, kws, params@, k as int) matches Ok(b) && bound@.len() == b.len()
                && forall|j: int| 0 <= j < b.len() ==> opt_view(#[trigger] bound@[j]) == b[j],
        decreases n - k,
    {
        let (name, value) = match kwargs_get_index(kwargs, k) {
            Some(entry) => entry,
            None => { return Err(type_error(str_to_string(""))); },
        };
        proof {
            lemma_param_index_bounds(params@, name@);
            lemma_bind_upto_len(method@, args@, kws, params@, k as int);
        }
        let idx = find_param(params, name.as_str());
        if idx < 0 {
            proof { lemma_bind_upto_err_persists(method@, args@, kws, params@, k + 1, kws.len() as int); }
            return Err(unexpected_kwarg(method, name.as_str()));
        }
        let ui = idx as usize;
        if bound[ui].is_some() {
            proof { lemma_bind_upto_err_persists(method@, args@, kws, params@, k + 1, kws.len() as int); }
            return Err(multiple_values(method, name.as_str()));
        }
        let ghost before = bound@;
        bound.set(ui, Some(value.deep_copy()));
        k = k + 1;
        proof {
            let b0 = bind_upto(method@, args@, kws, params@, k - 1)->Ok_0;
            assert forall|j: int| 0 <= j < bound@.len() implies opt_view(#[trigger] bound@[j]) == b0.update(ui as int, Some(kws[k - 1].1@))[j] by {
                if j != ui {
                    assert(bound@[j] == before[j]);
                }
            }
        }
    }
    proof {
        assert(kws.len() as int == n as int);
        lemma_bind_upto_len(method@, args@, kws, params@, kws.len() as int);
    }
    Ok(bound)
}

/// Require the bound slot `idx`, raising `TypeError` naming the parameter
/// when it was not supplied.
pub fn require_param<'a>(method: &str, bound: &'a [Option<Value>], idx: usize, name: &str) -> (r: Result<&'a Value, EvalError>)
    ensures
        (idx < bound@.len() && bound@[idx as int] is Some) <==> r is Ok,
        r matches Ok(v) ==> Some(*v) == bound@[idx as int],
        r matches Err(e) ==> is_type_error(e, method@ + "() missing required argument: '"@ + name@ + "'"@),
{
    if idx < bound.len() {
        if let Some(v) = &bound[idx] {
            return Ok(v);
        }
    }
    let s1 = concat_str(method, "() missing required argument: '");
    let s2 = s1.concat(name);
    let s3 = s2.concat("'");
    assert(s3@ =~= method@ + "() missing required argument: '"@ + name@ + "'"@);
    Err(type_error(s3))
}

/// The single required positional argument of a method, or `TypeError`
/// naming the method when it is missing.
pub fn arg1<'a>(method: &str, args: &'a [Value]) -> (r: Result<&'a Value, EvalError>)
    ensures
        args@.len() > 0 <==> r is Ok,
        r matches Ok(v) ==> *v == args@[0],
        r matches Err(e) ==> is_type_error(e, method@ + "() takes exactly 1 argument"@),
{
    if args.len() > 0 {
        Ok(&args[0])
    } else {
        Err(type_error(concat_str(method, "() takes exactly 1 argument")))
    }
}

/// The value of the first keyword argument named `key`, looking from entry
/// `i` on.
pub open spec fn kwarg_from(kws: Seq<(Seq<char>, Value)>, key: Seq<char>, i: int) -> Option<Value>
    decreases kws.len() - i,
{
    if i < 0 || i >= kws.len() {
        None
    } else if kws[i].0 == key {
        Some(kws[i].1)
    } else {
        kwarg_from(kws, key, i + 1)
    }
}

/// The value of the keyword argument `key`, if it was given.
pub fn kwarg_get<'a>(kwargs: &'a IndexMap<String, Value>, key: &str) -> (r: Option<&'a Value>)
    ensures
        kwarg_from(kwarg_entries(*kwargs), key@, 0) is Some <==> r is Some,
        r matches Some(v) ==> *v == kwarg_from(kwarg_entries(*kwargs), key@, 0)->Some_0,
{
    let ghost kws = kwarg_entries(*kwargs);
    let n = kwargs_len(kwargs);
    let mut i: usize = 0;
    while i < n
        invariant
            kws == kwarg_entries(*kwargs),
            n == kws.len(),
            i <= n,
            kwarg_from(kws, key@, 0) == kwarg_from(kws, key@, i as int),
        decreases n - i,
    {
        match kwargs_get_index(kwargs, i) {
            Some((k, v)) => {
                if str_eq(k.as_str(), key) {
                    return Some(v);
                }
            },
            None => {},
        }
        i = i + 1;
    }
    None
}

/// The name of the first keyword argument, from entry `i` on, that is not
/// `key`.
pub open spec fn first_key_other_than(kws: Seq<(Seq<char>, Value)>, key: Seq<char>, i: int) -> Option<Seq<char>>
    decreases kws.len() - i,
{
    if i < 0 || i >= kws.len() {
        None
    } else if kws[i].0 != key {
        Some(kws[i].0)
    } else {
        first_key_other_than(kws, key, i + 1)
    }
}

/// The first keyword argument whose name is not `key`, if any.
pub fn kwarg_other_than<'a>(kwargs: &'a IndexMap<String, Value>, key: &str) -> (r: Option<&'a String>)
    ensures
        match first_key_other_than(kwarg_entries(*kwargs), key@, 0) {
            Some(k) => r matches Some(s) && s@ == k,
            None => r is None,
        },
{
    let ghost kws = kwarg_entries(*kwargs);
    let n = kwargs_len(kwargs);
    let mut i: usize = 0;
    while i < n
        invariant
            kws == kwarg_entries(*kwargs),
            n == kws.len(),
            i <= n,
            first_key_other_than(kws, key@, 0) == first_key_other_than(kws, key@, i as int),
        decreases n - i,
    {
        match kwargs_get_index(kwargs, i) {
            Some((k, _)) => {
                if !str_eq(k.as_str(), key) {
                    return Some(k);
                }
            },
            None => {},
        }
        i = i + 1;
    }
    None
}

} // verus!
