//! Collecting the evaluated arguments of a call: `*iterable` spliced into
//! the positional arguments in order, `**mapping` spread into the keyword
//! arguments, and a later keyword replacing an earlier one of the same name
//! in its place.

use vstd::prelude::*;
use crate::value::{Value, PyVal, view_items, lemma_view_items, spec_iter_items, spec_py_type_name, iterate_value};
use crate::error::{EvalError, is_type_error, type_error};
use crate::keys::{ValueKey, KeyVal, key_view};
use crate::params::kw_pairs_view;
use crate::text::{str_eq, str_to_string};

verus! {

broadcast use lemma_view_items;

/// A positional argument of a call, evaluated: a value, or the operand of
/// `*`.
pub enum CallArg {
    Positional(Value),
    Starred(Value),
}

/// A keyword argument of a call, evaluated: `name=value`, or the operand of
/// `**`, given by its entries where it is a dict and by `None` where it is
/// not.
pub enum KwArg {
    Named(String, Value),
    Unpack(Option<Vec<(ValueKey, Value)>>),
}

pub open spec fn not_iterable_msg(v: Value) -> Seq<char> {
    "'"@ + spec_py_type_name(v) + "' object is not iterable"@
}

/// The positional values one argument gives.
pub open spec fn arg_items(a: CallArg) -> Result<Seq<PyVal>, Seq<char>> {
    match a {
        CallArg::Positional(v) => Ok(seq![v@]),
        CallArg::Starred(v) => match spec_iter_items(v@) {
            Some(xs) => Ok(xs),
            None => Err(not_iterable_msg(v)),
        },
    }
}

/// The positional values of the arguments, in order, or the first failure.
pub open spec fn spec_positional(pos: Seq<CallArg>) -> Result<Seq<PyVal>, Seq<char>>
    decreases pos.len(),
{
    if pos.len() == 0 {
        Ok(Seq::empty())
    } else {
        match spec_positional(pos.drop_last()) {
            Err(m) => Err(m),
            Ok(a) => match arg_items(pos.last()) {
                Err(m) => Err(m),
                Ok(xs) => Ok(a + xs),
            },
        }
    }
}

/// The first position from `j` whose name is `k`.
pub open spec fn find_key(m: Seq<(Seq<char>, PyVal)>, k: Seq<char>, j: int) -> Option<int>
    decreases m.len() - j,
{
    if j < 0 || j >= m.len() {
        None
    } else if m[j].0 == k {
        Some(j)
    } else {
        find_key(m, k, j + 1)
    }
}

/// `m` with `k` set to `v`: in place where `k` is already there, else at
/// the end.
pub open spec fn kw_insert(m: Seq<(Seq<char>, PyVal)>, k: Seq<char>, v: PyVal) -> Seq<(Seq<char>, PyVal)> {
    match find_key(m, k, 0) {
        Some(i) => m.update(i, (k, v)),
        None => m.push((k, v)),
    }
}

/// `m` with the entries of a dict spread into it, or the failure for a key
/// that is not a string.
pub open spec fn dict_apply(m: Seq<(Seq<char>, PyVal)>, es: Seq<(ValueKey, Value)>) -> Result<Seq<(Seq<char>, PyVal)>, Seq<char>>
    decreases es.len(),
{
    if es.len() == 0 {
        Ok(m)
    } else {
        match dict_apply(m, es.drop_last()) {
            Err(msg) => Err(msg),
            Ok(m2) => match key_view(es.last().0) {
                KeyVal::Str(s) => Ok(kw_insert(m2, s, es.last().1@)),
                _ => Err("keywords must be strings"@),
            },
        }
    }
}

/// `m` with one keyword argument applied.
pub open spec fn kw_apply(m: Seq<(Seq<char>, PyVal)>, a: KwArg) -> Result<Seq<(Seq<char>, PyVal)>, Seq<char>> {
    match a {
        KwArg::Named(k, v) => Ok(kw_insert(m, k@, v@)),
        KwArg::Unpack(None) => Err("** operator requires a dictionary"@),
        KwArg::Unpack(Some(es)) => dict_apply(m, es@),
    }
}

/// The keyword arguments, applied in order, or the first failure.
pub open spec fn spec_keywords(kws: Seq<KwArg>) -> Result<Seq<(Seq<char>, PyVal)>, Seq<char>>
    decreases kws.len(),
{
    if kws.len() == 0 {
        Ok(Seq::empty())
    } else {
        match spec_keywords(kws.drop_last()) {
            Err(m) => Err(m),
            Ok(m) => kw_apply(m, kws.last()),
        }
    }
}

/// The positional and keyword arguments of a call, or the first failure,
/// positional arguments first.
pub open spec fn spec_collect_args(pos: Seq<CallArg>, kws: Seq<KwArg>) -> Result<(Seq<PyVal>, Seq<(Seq<char>, PyVal)>), Seq<char>> {
    match spec_positional(pos) {
        Err(m) => Err(m),
        Ok(a) => match spec_keywords(kws) {
            Err(m) => Err(m),
            Ok(k) => Ok((a, k)),
        },
    }
}

// ---------------------------------------------------------------------------
// Implementation
// ---------------------------------------------------------------------------

proof fn lemma_positional_err_stays(pos: Seq<CallArg>, i: int, m: Seq<char>)
    requires
        0 <= i <= pos.len(),
        spec_positional(pos.take(i)) == Err::<Seq<PyVal>, Seq<char>>(m),
    ensures
        spec_positional(pos) == Err::<Seq<PyVal>, Seq<char>>(m),
    decreases pos.len() - i,
{
    if i < pos.len() {
        assert(pos.take(i + 1).drop_last() =~= pos.take(i));
        lemma_positional_err_stays(pos, i + 1, m);
    } else {
        assert(pos.take(i) =~= pos);
    }
}

proof fn lemma_keywords_err_stays(kws: Seq<KwArg>, i: int, m: Seq<char>)
    requires
        0 <= i <= kws.len(),
        spec_keywords(kws.take(i)) == Err::<Seq<(Seq<char>, PyVal)>, Seq<char>>(m),
    ensures
        spec_keywords(kws) == Err::<Seq<(Seq<char>, PyVal)>, Seq<char>>(m),
    decreases kws.len() - i,
{
    if i < kws.len() {
        assert(kws.take(i + 1).drop_last() =~= kws.take(i));
        lemma_keywords_err_stays(kws, i + 1, m);
    } else {
        assert(kws.take(i) =~= kws);
    }
}

proof fn lemma_dict_err_stays(m0: Seq<(Seq<char>, PyVal)>, es: Seq<(ValueKey, Value)>, i: int, msg: Seq<char>)
    requires
        0 <= i <= es.len(),
        dict_apply(m0, es.take(i)) == Err::<Seq<(Seq<char>, PyVal)>, Seq<char>>(msg),
    ensures
        dict_apply(m0, es) == Err::<Seq<(Seq<char>, PyVal)>, Seq<char>>(msg),
    decreases es.len() - i,
{
    if i < es.len() {
        assert(es.take(i + 1).drop_last() =~= es.take(i));
        lemma_dict_err_stays(m0, es, i + 1, msg);
    } else {
        assert(es.take(i) =~= es);
    }
}

/// Set `k` to `v` in `out`, in place where it is already there.
pub(crate) fn insert_kw(out: &mut Vec<(String, Value)>, k: &String, v: &Value)
    ensures
        kw_pairs_view(final(out)@) == kw_insert(kw_pairs_view(old(out)@), k@, v@),
{
    let ghost m = kw_pairs_view(out@);
    let mut j: usize = 0;
    while j < out.len()
        invariant
            m == kw_pairs_view(out@),
            m == kw_pairs_view(old(out)@),
            j <= out@.len(),
            find_key(m, k@, 0) == find_key(m, k@, j as int),
        decreases out.len() - j,
    {
        if str_eq(out[j].0.as_str(), k.as_str()) {
            proof {
                assert(m[j as int].0 == k@);
                assert(find_key(m, k@, j as int) == Some(j as int));
            }
            out.set(j, (k.clone(), v.deep_copy()));
            proof { assert(kw_pairs_view(out@) =~= m.update(j as int, (k@, v@))); }
            return;
        }
        j = j + 1;
    }
    out.push((k.clone(), v.deep_copy()));
    proof { assert(kw_pairs_view(out@) =~= m.push((k@, v@))); }
}

fn spread_dict(out: &mut Vec<(String, Value)>, es: &Vec<(ValueKey, Value)>) -> (r: Result<(), EvalError>)
    ensures
        match dict_apply(kw_pairs_view(old(out)@), es@) {
            Ok(m) => r is Ok && kw_pairs_view(final(out)@) == m,
            Err(msg) => r matches Err(e) && is_type_error(e, msg),
        },
{
    let ghost m0 = kw_pairs_view(out@);
    let mut i: usize = 0;
    proof { assert(es@.take(0) =~= Seq::<(ValueKey, Value)>::empty()); }
    while i < es.len()
        invariant
            i <= es@.len(),
            m0 == kw_pairs_view(old(out)@),
            dict_apply(m0, es@.take(i as int)) == Ok::<Seq<(Seq<char>, PyVal)>, Seq<char>>(kw_pairs_view(out@)),
        decreases es.len() - i,
    {
        proof { assert(es@.take(i + 1).drop_last() =~= es@.take(i as int)); }
        match &es[i].0 {
            ValueKey::String(s) => {
                insert_kw(out, s, &es[i].1);
            },
            _ => {
                proof {
                    let t = es@.take(i + 1);
                    assert(t.last() == es@[i as int]);
                    assert(!(key_view(es@[i as int].0) is Str));
                    assert(dict_apply(m0, t) == Err::<Seq<(Seq<char>, PyVal)>, Seq<char>>("keywords must be strings"@));
                    lemma_dict_err_stays(m0, es@, i + 1, "keywords must be strings"@);
                }
                return Err(type_error(str_to_string("keywords must be strings")));
            },
        }
        i = i + 1;
    }
    proof { assert(es@.take(i as int) =~= es@); }
    Ok(())
}

/// Collect the positional and keyword arguments of a call.
pub fn collect_call_args(pos: &[CallArg], kws: &[KwArg]) -> (r: Result<(Vec<Value>, Vec<(String, Value)>), EvalError>)
    ensures
        match spec_collect_args(pos@, kws@) {
            Ok((a, k)) => r matches Ok((va, vk)) && view_items(va@) == a && kw_pairs_view(vk@) == k,
            Err(m) => r matches Err(e) && is_type_error(e, m),
        },
{
    let mut args: Vec<Value> = Vec::new();
    let mut i: usize = 0;
    proof { assert(pos@.take(0) =~= Seq::<CallArg>::empty()); assert(view_items(args@) =~= Seq::<PyVal>::empty()); }
    while i < pos.len()
        invariant
            i <= pos@.len(),
            spec_positional(pos@.take(i as int)) == Ok::<Seq<PyVal>, Seq<char>>(view_items(args@)),
        decreases pos.len() - i,
    {
        proof { assert(pos@.take(i + 1).drop_last() =~= pos@.take(i as int)); }
        let ghost before = view_items(args@);
        match &pos[i] {
            CallArg::Positional(v) => {
                let ghost a0 = args@;
                let c = v.deep_copy();
                args.push(c);
                proof {
                    crate::value::lemma_view_items_push(a0, c);
                    assert(before.push(v@) =~= before + seq![v@]);
                }
            },
            CallArg::Starred(v) => {
                match iterate_value(v) {
                    Ok(mut items) => {
                        let ghost a0 = args@;
                        let ghost i0 = items@;
                        args.append(&mut items);
                        proof { crate::deque_methods::lemma_view_concat(a0, i0); }
                    },
                    Err(e) => {
                        proof { lemma_positional_err_stays(pos@, i + 1, not_iterable_msg(*v)); }
                        return Err(e);
                    },
                }
            },
        }
        i = i + 1;
    }
    proof { assert(pos@.take(i as int) =~= pos@); }
    let mut out: Vec<(String, Value)> = Vec::new();
    let mut j: usize = 0;
    proof { assert(kws@.take(0) =~= Seq::<KwArg>::empty()); assert(kw_pairs_view(out@) =~= Seq::<(Seq<char>, PyVal)>::empty()); }
    while j < kws.len()
        invariant
            j <= kws@.len(),
            spec_positional(pos@) == Ok::<Seq<PyVal>, Seq<char>>(view_items(args@)),
            spec_keywords(kws@.take(j as int)) == Ok::<Seq<(Seq<char>, PyVal)>, Seq<char>>(kw_pairs_view(out@)),
        decreases kws.len() - j,
    {
        proof { assert(kws@.take(j + 1).drop_last() =~= kws@.take(j as int)); }
        match &kws[j] {
            KwArg::Named(k, v) => {
                insert_kw(&mut out, k, v);
            },
            KwArg::Unpack(None) => {
                proof { lemma_keywords_err_stays(kws@, j + 1, "** operator requires a dictionary"@); }
                return Err(type_error(str_to_string("** operator requires a dictionary")));
            },
            KwArg::Unpack(Some(es)) => {
                match spread_dict(&mut out, es) {
                    Ok(()) => {},
                    Err(e) => {
                        proof {
                            let msg = kw_apply(spec_keywords(kws@.take(j as int))->Ok_0, kws@[j as int])->Err_0;
                            lemma_keywords_err_stays(kws@, j + 1, msg);
                        }
                        return Err(e);
                    },
                }
            },
        }
        j = j + 1;
    }
    proof { assert(kws@.take(j as int) =~= kws@); }
    Ok((args, out))
}

// ---------------------------------------------------------------------------
// Laws
// ---------------------------------------------------------------------------

/// A later keyword argument replaces an earlier one of the same name in its
/// place; a new name goes at the end.
pub proof fn law_later_keyword_wins(kws: Seq<KwArg>, k: String, v: Value)
    requires
        spec_keywords(kws) is Ok,
    ensures
        ({
            let m = spec_keywords(kws)->Ok_0;
            let after = spec_keywords(kws.push(KwArg::Named(k, v)));
            &&& after is Ok
            &&& match find_key(m, k@, 0) {
                Some(i) => after->Ok_0.len() == m.len() && after->Ok_0[i] == (k@, v@),
                None => after->Ok_0 == m.push((k@, v@)),
            }
        }),
{
    let x = KwArg::Named(k, v);
    assert(kws.push(x).drop_last() =~= kws);
    let m = spec_keywords(kws)->Ok_0;
    lemma_find_key_range(m, k@, 0);
}

proof fn lemma_find_key_range(m: Seq<(Seq<char>, PyVal)>, k: Seq<char>, j: int)
    ensures
        find_key(m, k, j) matches Some(i) ==> j <= i < m.len() && m[i].0 == k,
    decreases m.len() - j,
{
    if 0 <= j < m.len() && m[j].0 != k {
        lemma_find_key_range(m, k, j + 1);
    }
}

} // verus!
