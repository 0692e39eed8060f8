use indexmap::IndexMap;
use interpretthis::callables::{call_unbound_type_method, partial_args, UnboundCall};
use interpretthis::int_bytes::WideInt;
use interpretthis::call_args::{collect_call_args, CallArg, KwArg};
use interpretthis::error::{EvalError, InterpreterError};
use interpretthis::keys::ValueKey;
use interpretthis::list_methods::{dispatch_list_method, dispatch_tuple_method, ListError, ListOutcome};
use interpretthis::params::{bind_params, takes_fast_frame, Bound, FrameShape, FunctionParams};
use interpretthis::pure_builtins::{dispatch_pure_builtin, range_bounds, BuiltinReply};
use interpretthis::value::Value;

fn ints(xs: &[i64]) -> Vec<Value> {
    xs.iter().map(|x| Value::Int(*x)).collect()
}

fn st(s: &str) -> Value {
    Value::String(s.to_string())
}

fn type_msg(e: EvalError) -> String {
    match e {
        EvalError::Interpreter(InterpreterError::TypeError(m)) => m,
        other => panic!("expected TypeError, got {:?}", other),
    }
}

fn params(args: &[&str], defaults: usize, vararg: Option<&str>, kwonly: &[&str], kwarg: Option<&str>) -> FunctionParams {
    FunctionParams {
        args: args.iter().map(|s| s.to_string()).collect(),
        defaults: (0..defaults).map(|i| format!("d{}", i)).collect(),
        default_values: (0..defaults).map(|i| Value::Int(100 + i as i64)).collect(),
        vararg: vararg.map(|s| s.to_string()),
        kwonlyargs: kwonly.iter().map(|s| s.to_string()).collect(),
        kw_defaults: kwonly.iter().map(|_| None).collect(),
        kw_default_values: kwonly.iter().map(|_| None).collect(),
        kwarg: kwarg.map(|s| s.to_string()),
    }
}

fn value_of(b: &(String, Bound)) -> (&str, &Value) {
    match &b.1 {
        Bound::Value(v) => (b.0.as_str(), v),
        other => panic!("expected a value, got {:?}", std::mem::discriminant(other)),
    }
}

#[test]
fn bind_positional_keyword_and_defaults() {
    let p = params(&["a", "b", "c"], 1, None, &[], None);
    let mut kw = IndexMap::new();
    kw.insert("b".to_string(), Value::Int(20));
    let bound = bind_params(&p, &[Value::Int(1)], &kw).unwrap();
    assert_eq!(bound.len(), 3);
    assert_eq!(value_of(&bound[0]), ("a", &Value::Int(1)));
    assert_eq!(value_of(&bound[1]), ("b", &Value::Int(20)));
    assert_eq!(value_of(&bound[2]), ("c", &Value::Int(100)));
    let err = bind_params(&p, &[], &IndexMap::new()).err().unwrap();
    assert_eq!(type_msg(err), "missing required argument: 'a'");
}

#[test]
fn bind_source_default_varargs_and_kwargs() {
    let mut p = params(&["a", "b"], 1, Some("rest"), &["k", "opt"], Some("extra"));
    p.default_values = vec![];
    p.kw_defaults = vec![None, Some("7".to_string())];
    let mut kw = IndexMap::new();
    kw.insert("k".to_string(), Value::Int(5));
    kw.insert("zz".to_string(), Value::Int(9));
    let bound = bind_params(&p, &ints(&[1]), &kw).unwrap();
    let names: Vec<&str> = bound.iter().map(|b| b.0.as_str()).collect();
    assert_eq!(names, vec!["a", "b", "rest", "k", "opt", "extra"]);
    assert!(matches!(&bound[1].1, Bound::Source(s) if s == "d0"));
    assert_eq!(value_of(&bound[2]).1, &Value::Tuple(vec![]));
    assert_eq!(value_of(&bound[3]).1, &Value::Int(5));
    assert!(matches!(&bound[4].1, Bound::Source(s) if s == "7"));
    match &bound[5].1 {
        Bound::Kwargs(kv) => assert_eq!(kv, &vec![("zz".to_string(), Value::Int(9))]),
        _ => panic!("expected kwargs"),
    }
    let bound = bind_params(&p, &ints(&[1, 2, 3, 4]), &kw).unwrap();
    assert_eq!(value_of(&bound[2]).1, &Value::Tuple(ints(&[3, 4])));
    let p2 = params(&[], 0, None, &["k"], None);
    assert_eq!(type_msg(bind_params(&p2, &[], &IndexMap::new()).err().unwrap()), "missing required keyword argument: 'k'");
}

#[test]
fn collect_args_splices_and_replaces() {
    let pos = vec![
        CallArg::Positional(Value::Int(1)),
        CallArg::Starred(Value::List(ints(&[2, 3]))),
        CallArg::Starred(st("ab")),
    ];
    let kws = vec![
        KwArg::Named("x".to_string(), Value::Int(1)),
        KwArg::Unpack(Some(vec![
            (ValueKey::String("y".to_string()), Value::Int(2)),
            (ValueKey::String("x".to_string()), Value::Int(3)),
        ])),
    ];
    let (args, kw) = collect_call_args(&pos, &kws).unwrap();
    assert_eq!(args, vec![Value::Int(1), Value::Int(2), Value::Int(3), st("a"), st("b")]);
    assert_eq!(kw, vec![("x".to_string(), Value::Int(3)), ("y".to_string(), Value::Int(2))]);
    let bad = collect_call_args(&[CallArg::Starred(Value::Int(1))], &[]).err().unwrap();
    assert_eq!(type_msg(bad), "'int' object is not iterable");
    let bad = collect_call_args(&[], &[KwArg::Unpack(None)]).err().unwrap();
    assert_eq!(type_msg(bad), "** operator requires a dictionary");
    let bad = collect_call_args(&[], &[KwArg::Unpack(Some(vec![(ValueKey::Int(1), Value::Int(2))]))]).err().unwrap();
    assert_eq!(type_msg(bad), "keywords must be strings");
}

fn run(items: &mut Vec<Value>, method: &str, args: &[Value]) -> ListOutcome {
    dispatch_list_method(items, method, args, &IndexMap::new()).unwrap()
}

fn exc(items: &mut Vec<Value>, method: &str, args: &[Value]) -> (String, String) {
    match dispatch_list_method(items, method, args, &IndexMap::new()) {
        Err(ListError::Raised(EvalError::Exception(e))) => (e.class_name, e.message),
        other => panic!("expected an exception, got {:?}", other),
    }
}

#[test]
fn list_methods_change_in_place() {
    let mut l = ints(&[1, 2]);
    run(&mut l, "append", &[Value::Int(3)]);
    run(&mut l, "extend", &[Value::Tuple(ints(&[4, 5]))]);
    assert_eq!(l, ints(&[1, 2, 3, 4, 5]));
    run(&mut l, "insert", &[Value::Int(-1), Value::Int(9)]);
    run(&mut l, "insert", &[Value::Int(100), Value::Int(8)]);
    run(&mut l, "insert", &[Value::Int(-100), Value::Int(0)]);
    assert_eq!(l, ints(&[0, 1, 2, 3, 4, 9, 5, 8]));
    assert_eq!(run(&mut l, "pop", &[]).value, Value::Int(8));
    assert_eq!(run(&mut l, "pop", &[Value::Int(-2)]).value, Value::Int(9));
    assert_eq!(run(&mut l, "pop", &[Value::Int(0)]).value, Value::Int(0));
    assert_eq!(l, ints(&[1, 2, 3, 4, 5]));
    assert_eq!(exc(&mut l, "pop", &[Value::Int(5)]), ("IndexError".to_string(), "pop index out of range".to_string()));
    let o = run(&mut l, "remove", &[Value::Float(3.0f64.to_bits())]);
    assert_eq!(o.dropped, ints(&[3]));
    assert_eq!(exc(&mut l, "remove", &[Value::Int(7)]), ("ValueError".to_string(), "list.remove(x): x not in list".to_string()));
    run(&mut l, "reverse", &[]);
    assert_eq!(l, ints(&[5, 4, 2, 1]));
    assert_eq!(run(&mut l, "copy", &[]).value, Value::List(ints(&[5, 4, 2, 1])));
    let o = run(&mut l, "clear", &[]);
    assert_eq!(o.dropped, ints(&[5, 4, 2, 1]));
    assert_eq!(exc(&mut l, "pop", &[]), ("IndexError".to_string(), "pop from empty list".to_string()));
}

#[test]
fn list_count_index_and_errors() {
    let mut l = vec![Value::Int(1), Value::Bool(true), Value::Int(2), Value::Int(1)];
    assert_eq!(run(&mut l, "count", &[Value::Int(1)]).value, Value::Int(3));
    assert_eq!(run(&mut l, "index", &[Value::Int(1), Value::Int(2)]).value, Value::Int(3));
    assert_eq!(run(&mut l, "index", &[Value::Int(2)]).value, Value::Int(2));
    match dispatch_list_method(&mut l, "index", &[Value::Int(1), Value::Int(-1), Value::Int(-1)], &IndexMap::new()) {
        Err(ListError::NotInList(v)) => assert_eq!(v, Value::Int(1)),
        other => panic!("unexpected {:?}", other),
    }
    match dispatch_list_method(&mut l, "sortx", &[], &IndexMap::new()) {
        Err(ListError::Raised(EvalError::Interpreter(InterpreterError::AttributeError(m)))) => {
            assert_eq!(m, "'list' object has no attribute 'sortx'")
        }
        other => panic!("unexpected {:?}", other),
    }
    match dispatch_list_method(&mut l, "count", &[], &IndexMap::new()) {
        Err(ListError::Raised(e)) => assert_eq!(type_msg(e), "count() takes exactly one argument"),
        other => panic!("unexpected {:?}", other),
    }
    match dispatch_list_method(&mut l, "insert", &[st("a"), Value::Int(1)], &IndexMap::new()) {
        Err(ListError::Raised(e)) => assert_eq!(type_msg(e), "'str' object cannot be interpreted as an integer"),
        other => panic!("unexpected {:?}", other),
    }
}

#[test]
fn tuple_count_and_index() {
    let t = ints(&[3, 1, 3]);
    let none = IndexMap::new();
    assert_eq!(dispatch_tuple_method(&t, "count", &[Value::Int(3)], &none).unwrap(), Value::Int(2));
    assert_eq!(dispatch_tuple_method(&t, "index", &[Value::Int(3), Value::Int(1)], &none).unwrap(), Value::Int(2));
    match dispatch_tuple_method(&t, "index", &[Value::Int(7)], &none) {
        Err(EvalError::Exception(e)) => assert_eq!(e.message, "tuple.index(x): x not in tuple"),
        other => panic!("unexpected {:?}", other),
    }
    assert_eq!(type_msg(dispatch_tuple_method(&t, "index", &[], &none).err().unwrap()), "index() takes at least 1 argument");
}

#[test]
fn pow_builtin_three_arguments() {
    let none = IndexMap::new();
    assert_eq!(
        dispatch_pure_builtin("pow", &ints(&[3, 4, 5]), &none).unwrap(),
        Some(BuiltinReply::Value(Value::Int(1)))
    );
    assert_eq!(dispatch_pure_builtin("pow", &ints(&[3, 4]), &none).unwrap(), None);
    match dispatch_pure_builtin("pow", &ints(&[3]), &none) {
        Err(e) => assert_eq!(type_msg(e), "pow() takes 2 to 3 arguments (1 given)"),
        other => panic!("unexpected {:?}", other),
    }
}

#[test]
fn unbound_type_methods() {
    let none = IndexMap::new();
    match call_unbound_type_method("bytearray", "fromhex", &[st("0a ff")], &none).unwrap() {
        UnboundCall::Value(v) => assert_eq!(v, Value::ByteArray(vec![10, 255])),
        _ => panic!("expected a value"),
    }
    match call_unbound_type_method("bytes", "fromhex", &[st("0a")], &none).unwrap() {
        UnboundCall::Value(v) => assert_eq!(v, Value::Bytes(vec![10])),
        _ => panic!("expected a value"),
    }
    match call_unbound_type_method("int", "from_bytes", &[Value::Bytes(vec![1, 0]), st("big")], &none).unwrap() {
        UnboundCall::Int(w) => assert_eq!(w, WideInt::Small(256)),
        _ => panic!("expected an int"),
    }
    match call_unbound_type_method("bool", "from_bytes", &[Value::Bytes(vec![0, 0]), st("little")], &none).unwrap() {
        UnboundCall::Value(v) => assert_eq!(v, Value::Bool(false)),
        _ => panic!("expected a value"),
    }
    match call_unbound_type_method("str", "upper", &[st("ab"), Value::Int(1)], &none).unwrap() {
        UnboundCall::Method { receiver, rest } => {
            assert_eq!(receiver, st("ab"));
            assert_eq!(rest, vec![Value::Int(1)]);
        }
        _ => panic!("expected a method call"),
    }
    assert!(matches!(call_unbound_type_method("dict", "fromkeys", &[], &none).unwrap(), UnboundCall::DictFromkeys));
    assert!(matches!(call_unbound_type_method("object", "__setattr__", &[], &none).unwrap(), UnboundCall::ObjectDefault));
    let e = call_unbound_type_method("list", "append", &[], &none).err().unwrap();
    assert_eq!(type_msg(e), "unbound method list.append() needs a list as first argument");
}

#[test]
fn partial_objects_merge_arguments() {
    let mut kw = IndexMap::new();
    kw.insert("mode".to_string(), st("y"));
    kw.insert("n".to_string(), Value::Int(2));
    let bound_kws = vec![("mode".to_string(), st("x")), ("k".to_string(), Value::Int(0))];
    let (args, kws) = partial_args(&ints(&[1]), &bound_kws, &ints(&[2, 3]), &kw);
    assert_eq!(args, ints(&[1, 2, 3]));
    assert_eq!(
        kws,
        vec![("mode".to_string(), st("y")), ("k".to_string(), Value::Int(0)), ("n".to_string(), Value::Int(2))]
    );
    let (_, kws) = partial_args(&vec![], &vec![], &[], &kw);
    assert_eq!(kws, vec![("mode".to_string(), st("y")), ("n".to_string(), Value::Int(2))]);
}

#[test]
fn fast_frame_needs_an_empty_call_and_function() {
    use_fast_frame_cases();
}

fn use_fast_frame_cases() {
    let p = params(&[], 0, None, &[], None);
    let shape = FrameShape {
        nonlocal_names: vec![],
        assigned_names: vec![],
        global_names: vec![],
        is_generator: false,
        closure_is_empty: false,
        is_module_level: true,
    };
    assert!(takes_fast_frame(&p, &shape, &[], &IndexMap::new()));
    assert!(!takes_fast_frame(&p, &shape, &ints(&[1]), &IndexMap::new()));
    let nested = FrameShape { is_module_level: false, ..shape };
    assert!(!takes_fast_frame(&p, &nested, &[], &IndexMap::new()));
    let with_param = params(&["x"], 0, None, &[], None);
    let shape2 = FrameShape {
        nonlocal_names: vec![],
        assigned_names: vec!["y".to_string()],
        global_names: vec![],
        is_generator: false,
        closure_is_empty: true,
        is_module_level: false,
    };
    assert!(!takes_fast_frame(&with_param, &shape2, &[], &IndexMap::new()));
    assert!(!takes_fast_frame(&p, &shape2, &[], &IndexMap::new()));
}

#[test]
fn range_bounds_from_integers() {
    assert_eq!(range_bounds(&[5]).unwrap(), (0, 5, 1));
    assert_eq!(range_bounds(&[2, 5]).unwrap(), (2, 5, 1));
    assert_eq!(range_bounds(&[5, 0, -2]).unwrap(), (5, 0, -2));
    match range_bounds(&[1, 2, 0]) {
        Err(EvalError::Interpreter(InterpreterError::ValueError(m))) => assert_eq!(m, "range() arg 3 must not be zero"),
        other => panic!("unexpected {:?}", other),
    }
    assert_eq!(type_msg(range_bounds(&[1, 2, 3, 4]).err().unwrap()), "range expected at most 3 arguments");
    assert_eq!(type_msg(range_bounds(&[]).err().unwrap()), "range expected at most 3 arguments");
}
