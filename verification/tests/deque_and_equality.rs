use indexmap::IndexMap;
use interpretthis::deque_methods::{dispatch_deque_method, DequeError, DequeOutcome};
use interpretthis::equality::values_equal;
use interpretthis::error::{EvalError, InterpreterError};
use interpretthis::value::Value;

fn ints(xs: &[i64]) -> Vec<Value> {
    xs.iter().map(|x| Value::Int(*x)).collect()
}

fn run(items: &mut Vec<Value>, maxlen: Option<usize>, method: &str, args: &[Value]) -> DequeOutcome {
    dispatch_deque_method(items, maxlen, method, args, &IndexMap::new()).unwrap()
}

fn fail(items: &mut Vec<Value>, maxlen: Option<usize>, method: &str, args: &[Value]) -> EvalError {
    match dispatch_deque_method(items, maxlen, method, args, &IndexMap::new()) {
        Err(DequeError::Raised(e)) => e,
        other => panic!("expected an error, got {:?}", other),
    }
}

#[test]
fn equality_across_numeric_types() {
    assert!(values_equal(&Value::Int(1), &Value::Bool(true)));
    assert!(values_equal(&Value::Bool(false), &Value::Int(0)));
    assert!(values_equal(&Value::Float(2.0f64.to_bits()), &Value::Int(2)));
    assert!(!values_equal(&Value::Float(2.5f64.to_bits()), &Value::Int(2)));
    assert!(values_equal(&Value::Float(0.0f64.to_bits()), &Value::Float((-0.0f64).to_bits())));
    assert!(!values_equal(&Value::Float(f64::NAN.to_bits()), &Value::Float(f64::NAN.to_bits())));
    assert!(!values_equal(&Value::Int(1), &Value::String("1".to_string())));
}

#[test]
fn equality_of_containers() {
    assert!(values_equal(&Value::List(ints(&[1, 2])), &Value::List(ints(&[1, 2]))));
    assert!(!values_equal(&Value::List(ints(&[1, 2])), &Value::Tuple(ints(&[1, 2]))));
    assert!(!values_equal(&Value::List(ints(&[1, 2])), &Value::List(ints(&[2, 1]))));
    assert!(values_equal(&Value::PySet(ints(&[1, 2])), &Value::Frozenset(ints(&[2, 1]))));
    assert!(!values_equal(&Value::PySet(ints(&[1, 2])), &Value::PySet(ints(&[1, 3]))));
    assert!(values_equal(&Value::Bytes(b"a".to_vec()), &Value::ByteArray(b"a".to_vec())));
    assert!(values_equal(&Value::String("ab".to_string()), &Value::String("ab".to_string())));
    assert!(values_equal(&Value::Deque(ints(&[1]), None), &Value::Deque(ints(&[1]), Some(3))));
}

#[test]
fn deque_append_respects_maxlen() {
    let mut d = ints(&[1, 2, 3]);
    let o = run(&mut d, Some(3), "append", &[Value::Int(4)]);
    assert_eq!(d, ints(&[2, 3, 4]));
    assert_eq!(o.value, Value::PyNone);
    assert_eq!(o.added, ints(&[4]));
    assert_eq!(o.dropped, ints(&[1]));
    let o = run(&mut d, Some(3), "appendleft", &[Value::Int(0)]);
    assert_eq!(d, ints(&[0, 2, 3]));
    assert_eq!(o.dropped, ints(&[4]));
    let mut free = ints(&[1]);
    run(&mut free, None, "append", &[Value::Int(2)]);
    assert_eq!(free, ints(&[1, 2]));
}

#[test]
fn deque_pops_and_empty_error() {
    let mut d = ints(&[1, 2, 3]);
    assert_eq!(run(&mut d, None, "pop", &[]).value, Value::Int(3));
    assert_eq!(run(&mut d, None, "popleft", &[]).value, Value::Int(1));
    assert_eq!(d, ints(&[2]));
    run(&mut d, None, "pop", &[]);
    match fail(&mut d, None, "popleft", &[]) {
        EvalError::Exception(e) => {
            assert_eq!(e.class_name, "IndexError");
            assert_eq!(e.message, "pop from an empty deque");
        }
        other => panic!("unexpected {:?}", other),
    }
}

#[test]
fn deque_extend_both_ends() {
    let mut d = ints(&[1]);
    let o = run(&mut d, None, "extend", &[Value::List(ints(&[2, 3]))]);
    assert_eq!(d, ints(&[1, 2, 3]));
    assert_eq!(o.added, ints(&[2, 3]));
    run(&mut d, None, "extendleft", &[Value::Tuple(ints(&[8, 9]))]);
    assert_eq!(d, ints(&[9, 8, 1, 2, 3]));
    let mut b = ints(&[1, 2]);
    let o = run(&mut b, Some(3), "extend", &[Value::List(ints(&[3, 4, 5]))]);
    assert_eq!(b, ints(&[3, 4, 5]));
    assert_eq!(o.dropped, ints(&[1, 2]));
    match fail(&mut b, None, "extend", &[Value::Int(1)]) {
        EvalError::Interpreter(InterpreterError::TypeError(m)) => assert_eq!(m, "'int' object is not iterable"),
        other => panic!("unexpected {:?}", other),
    }
}

#[test]
fn deque_rotate_reverse_clear_copy() {
    let mut d = ints(&[1, 2, 3, 4]);
    run(&mut d, None, "rotate", &[]);
    assert_eq!(d, ints(&[4, 1, 2, 3]));
    run(&mut d, None, "rotate", &[Value::Int(-1)]);
    assert_eq!(d, ints(&[1, 2, 3, 4]));
    run(&mut d, None, "rotate", &[Value::Int(-6)]);
    assert_eq!(d, ints(&[3, 4, 1, 2]));
    run(&mut d, None, "reverse", &[]);
    assert_eq!(d, ints(&[2, 1, 4, 3]));
    assert_eq!(run(&mut d, Some(9), "copy", &[]).value, Value::Deque(ints(&[2, 1, 4, 3]), Some(9)));
    let o = run(&mut d, None, "clear", &[]);
    assert_eq!(d, vec![]);
    assert_eq!(o.dropped, ints(&[2, 1, 4, 3]));
    match fail(&mut d, None, "rotate", &[Value::String("x".to_string())]) {
        EvalError::Interpreter(InterpreterError::TypeError(m)) => assert_eq!(m, "rotate() expected an integer (got 'str')"),
        other => panic!("unexpected {:?}", other),
    }
}

#[test]
fn deque_index_count_remove() {
    let mut d = vec![Value::Int(1), Value::Bool(true), Value::Float(2.0f64.to_bits())];
    assert_eq!(run(&mut d, None, "count", &[Value::Int(1)]).value, Value::Int(2));
    assert_eq!(run(&mut d, None, "index", &[Value::Int(2)]).value, Value::Int(2));
    match dispatch_deque_method(&mut d, None, "index", &[Value::Int(7)], &IndexMap::new()) {
        Err(DequeError::NotInDeque(v)) => assert_eq!(v, Value::Int(7)),
        other => panic!("unexpected {:?}", other),
    }
    let o = run(&mut d, None, "remove", &[Value::Bool(true)]);
    assert_eq!(o.dropped, ints(&[1]));
    assert_eq!(d, vec![Value::Bool(true), Value::Float(2.0f64.to_bits())]);
    match fail(&mut d, None, "remove", &[Value::Int(5)]) {
        EvalError::Interpreter(InterpreterError::ValueError(m)) => assert_eq!(m, "deque.remove(x): x not in deque"),
        other => panic!("unexpected {:?}", other),
    }
}

#[test]
fn deque_insert_positions_and_full() {
    let mut d = ints(&[1, 2, 3]);
    run(&mut d, None, "insert", &[Value::Int(1), Value::Int(9)]);
    assert_eq!(d, ints(&[1, 9, 2, 3]));
    run(&mut d, None, "insert", &[Value::Int(-1), Value::Int(8)]);
    assert_eq!(d, ints(&[1, 9, 2, 8, 3]));
    run(&mut d, None, "insert", &[Value::Int(100), Value::Int(7)]);
    run(&mut d, None, "insert", &[Value::Int(-100), Value::Int(0)]);
    assert_eq!(d, ints(&[0, 1, 9, 2, 8, 3, 7]));
    match fail(&mut d, Some(7), "insert", &[Value::Int(0), Value::Int(5)]) {
        EvalError::Exception(e) => {
            assert_eq!(e.class_name, "IndexError");
            assert_eq!(e.message, "deque already at its maximum size");
        }
        other => panic!("unexpected {:?}", other),
    }
    match fail(&mut d, None, "insert", &[Value::String("a".to_string())]) {
        EvalError::Interpreter(InterpreterError::TypeError(m)) => assert_eq!(m, "insert() argument 1 must be an integer"),
        other => panic!("unexpected {:?}", other),
    }
}

#[test]
fn deque_unknown_method_and_keywords() {
    let mut d = ints(&[1]);
    match fail(&mut d, None, "push", &[]) {
        EvalError::Interpreter(InterpreterError::AttributeError(m)) => assert_eq!(m, "'deque' object has no attribute 'push'"),
        other => panic!("unexpected {:?}", other),
    }
    let mut kw = IndexMap::new();
    kw.insert("x".to_string(), Value::Int(1));
    assert!(matches!(
        dispatch_deque_method(&mut d, None, "append", &[Value::Int(2)], &kw),
        Err(DequeError::Raised(EvalError::Interpreter(InterpreterError::TypeError(_))))
    ));
    assert_eq!(d, ints(&[1]));
    match fail(&mut d, None, "append", &[]) {
        EvalError::Interpreter(InterpreterError::TypeError(m)) => assert_eq!(m, "append() takes exactly 1 argument"),
        other => panic!("unexpected {:?}", other),
    }
}

#[test]
fn deque_laws_on_concrete_values() {
    let mut d = ints(&[1, 2, 3, 4, 5]);
    run(&mut d, None, "rotate", &[Value::Int(7)]);
    assert_eq!(d, ints(&[4, 5, 1, 2, 3]));
    run(&mut d, None, "rotate", &[Value::Int(-7)]);
    assert_eq!(d, ints(&[1, 2, 3, 4, 5]));
    run(&mut d, Some(6), "append", &[Value::Int(6)]);
    assert_eq!(run(&mut d, Some(6), "pop", &[]).value, Value::Int(6));
    assert_eq!(d, ints(&[1, 2, 3, 4, 5]));
    run(&mut d, None, "appendleft", &[Value::Int(0)]);
    assert_eq!(run(&mut d, None, "popleft", &[]).value, Value::Int(0));
    assert_eq!(d, ints(&[1, 2, 3, 4, 5]));
    let mut bounded = ints(&[1, 2]);
    for method in ["append", "appendleft", "extend", "extendleft", "insert"] {
        let args = match method {
            "extend" | "extendleft" => vec![Value::List(ints(&[7, 8, 9]))],
            "insert" => vec![Value::Int(0), Value::Int(1)],
            _ => vec![Value::Int(9)],
        };
        let _ = dispatch_deque_method(&mut bounded, Some(3), method, &args, &IndexMap::new());
        assert!(bounded.len() <= 3);
    }
}
