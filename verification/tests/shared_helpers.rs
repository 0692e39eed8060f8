use indexmap::IndexMap;
use interpretthis::error::{stamp_line, EvalError, ExceptionValue, InterpreterError};
use interpretthis::kwargs::{arg1, bind_method_params, require_param};
use interpretthis::numeric::{check_arg_count, sequence_index_range, to_index, value_to_i64};
use interpretthis::value::Value;

#[test]
fn stamp_line_appends_once() {
    let e = EvalError::Interpreter(InterpreterError::TypeError("bad".to_string()));
    let once = stamp_line(e, 3);
    match &once {
        EvalError::Interpreter(InterpreterError::TypeError(m)) => assert_eq!(m, "bad (at line 3)"),
        other => panic!("unexpected {:?}", other),
    }
    match stamp_line(once, 9) {
        EvalError::Interpreter(InterpreterError::TypeError(m)) => assert_eq!(m, "bad (at line 3)"),
        other => panic!("unexpected {:?}", other),
    }
    let x = EvalError::Exception(ExceptionValue::new("KeyError", "k".to_string()));
    match stamp_line(stamp_line(x, 4), 7) {
        EvalError::Exception(v) => {
            assert_eq!(v.message, "k");
            assert_eq!(v.stamped_line, Some(4));
        }
        other => panic!("unexpected {:?}", other),
    }
    let syn = EvalError::Interpreter(InterpreterError::Syntax("oops".to_string()));
    match stamp_line(syn, 2) {
        EvalError::Interpreter(InterpreterError::Syntax(m)) => assert_eq!(m, "oops"),
        other => panic!("unexpected {:?}", other),
    }
}

#[test]
fn argument_helpers() {
    let args = [Value::Int(5), Value::Int(7)];
    assert_eq!(arg1("f", &args).unwrap(), &Value::Int(5));
    match arg1("f", &[]) {
        Err(EvalError::Interpreter(InterpreterError::TypeError(m))) => assert_eq!(m, "f() takes exactly 1 argument"),
        other => panic!("unexpected {:?}", other),
    }
    let mut kw: IndexMap<String, Value> = IndexMap::new();
    kw.insert("b".to_string(), Value::Int(2));
    let bound = bind_method_params("m", &[Value::Int(1)], &kw, &["a", "b", "c"]).unwrap();
    assert_eq!(bound, vec![Some(Value::Int(1)), Some(Value::Int(2)), None]);
    assert_eq!(require_param("m", &bound, 1, "b").unwrap(), &Value::Int(2));
    match require_param("m", &bound, 2, "c") {
        Err(EvalError::Interpreter(InterpreterError::TypeError(m))) => {
            assert_eq!(m, "m() missing required argument: 'c'")
        }
        other => panic!("unexpected {:?}", other),
    }
    kw.insert("a".to_string(), Value::Int(3));
    match bind_method_params("m", &[Value::Int(1)], &kw, &["a", "b"]) {
        Err(EvalError::Interpreter(InterpreterError::TypeError(m))) => {
            assert_eq!(m, "m() got multiple values for argument 'a'")
        }
        other => panic!("unexpected {:?}", other),
    }
}

#[test]
fn index_helpers() {
    assert_eq!(to_index(5).unwrap(), 5);
    assert!(to_index(-1).is_err());
    assert_eq!(value_to_i64(&Value::Bool(true)).unwrap(), 1);
    match value_to_i64(&Value::String("x".to_string())) {
        Err(EvalError::Interpreter(InterpreterError::TypeError(m))) => {
            assert_eq!(m, "'str' object cannot be interpreted as an integer")
        }
        other => panic!("unexpected {:?}", other),
    }
    assert_eq!(sequence_index_range("index", &[Value::Int(0), Value::Int(-3)], 10).unwrap(), (7, 10));
    assert_eq!(sequence_index_range("index", &[Value::Int(0), Value::Int(5), Value::Int(2)], 10).unwrap(), (5, 5));
    assert_eq!(sequence_index_range("index", &[Value::Int(0), Value::Int(2), Value::Int(100)], 10).unwrap(), (2, 10));
    assert!(check_arg_count("f", &[Value::Int(1)], 1, 2).is_ok());
    match check_arg_count("f", &[], 1, 2) {
        Err(EvalError::Interpreter(InterpreterError::TypeError(m))) => {
            assert_eq!(m, "f() takes 1 to 2 arguments (0 given)")
        }
        other => panic!("unexpected {:?}", other),
    }
}
