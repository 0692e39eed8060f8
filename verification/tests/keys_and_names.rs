use interpretthis::error::{EvalError, InterpreterError};
use interpretthis::keys::{float_to_key, is_exception_type_name, keys_equal, value_to_key, ValueKey};
use interpretthis::value::Value;

#[test]
fn value_to_key_of_hashable_values() {
    assert!(matches!(value_to_key(&Value::Int(7)), Ok(ValueKey::Int(7))));
    assert!(matches!(value_to_key(&Value::Bool(true)), Ok(ValueKey::Bool(true))));
    assert!(matches!(value_to_key(&Value::PyNone), Ok(ValueKey::PyNone)));
    match value_to_key(&Value::String("k".to_string())) {
        Ok(ValueKey::String(s)) => assert_eq!(s, "k"),
        other => panic!("unexpected {:?}", other),
    }
    match value_to_key(&Value::Tuple(vec![Value::Int(1), Value::String("a".to_string())])) {
        Ok(ValueKey::Tuple(ks)) => {
            assert_eq!(ks.len(), 2);
            assert!(matches!(ks[0], ValueKey::Int(1)));
        }
        other => panic!("unexpected {:?}", other),
    }
    let two = 2.0f64.to_bits();
    assert!(matches!(value_to_key(&Value::Float(two)), Ok(ValueKey::Float(b)) if b == two));
    assert!(matches!(float_to_key(two), ValueKey::Float(b) if b == two));
}

#[test]
fn value_to_key_complex_folds_and_normalises_zero() {
    let one = 1.0f64.to_bits();
    let neg_zero = (-0.0f64).to_bits();
    // A zero imaginary part keys as the real part's float.
    assert!(matches!(value_to_key(&Value::Complex(one, neg_zero)), Ok(ValueKey::Float(b)) if b == one));
    // Otherwise -0.0 parts become +0.0.
    assert!(matches!(value_to_key(&Value::Complex(neg_zero, one)), Ok(ValueKey::Complex(0, b)) if b == one));
}

#[test]
fn value_to_key_rejects_unhashable() {
    for (v, name) in [
        (Value::List(vec![]), "list"),
        (Value::Bytes(vec![1]), "bytes"),
        (Value::PySet(vec![]), "set"),
    ] {
        match value_to_key(&v) {
            Err(EvalError::Interpreter(InterpreterError::TypeError(m))) => {
                assert_eq!(m, format!("unhashable type: '{}'", name))
            }
            other => panic!("unexpected {:?}", other),
        }
    }
    match value_to_key(&Value::Tuple(vec![Value::Int(1), Value::List(vec![])])) {
        Err(EvalError::Interpreter(InterpreterError::TypeError(m))) => assert_eq!(m, "unhashable type: 'list'"),
        other => panic!("unexpected {:?}", other),
    }
}

#[test]
fn exception_type_names_are_known() {
    assert!(is_exception_type_name("ValueError"));
    assert!(is_exception_type_name("BaseException"));
    assert!(is_exception_type_name("UnicodeDecodeError"));
    assert!(!is_exception_type_name("valueerror"));
    assert!(!is_exception_type_name("Warning"));
    assert!(!is_exception_type_name(""));
}

#[test]
fn equal_values_are_the_same_key() {
    let k = |v: Value| value_to_key(&v).unwrap();
    assert!(keys_equal(&k(Value::Bool(true)), &k(Value::Int(1))));
    assert!(keys_equal(&k(Value::Bool(false)), &k(Value::Int(0))));
    assert!(keys_equal(&k(Value::Float(2.0f64.to_bits())), &k(Value::Int(2))));
    assert!(keys_equal(&k(Value::Int(2)), &k(Value::Float(2.0f64.to_bits()))));
    assert!(keys_equal(&k(Value::Float((-4096.0f64).to_bits())), &k(Value::Int(-4096))));
    assert!(keys_equal(&k(Value::Float((-0.0f64).to_bits())), &k(Value::Float(0.0f64.to_bits()))));
    assert!(keys_equal(&k(Value::Float((-0.0f64).to_bits())), &k(Value::Int(0))));
    assert!(keys_equal(&k(Value::Float(9223372036854775808.0f64.to_bits() | (1u64 << 63))), &k(Value::Int(i64::MIN))));
    assert!(!keys_equal(&k(Value::Float(0.5f64.to_bits())), &k(Value::Int(0))));
    assert!(!keys_equal(&k(Value::Float(1e300f64.to_bits())), &k(Value::Int(i64::MAX))));
    assert!(!keys_equal(&k(Value::Int(1)), &k(Value::String("1".to_string()))));
    let t1 = Value::Tuple(vec![Value::Bool(true), Value::Float(2.0f64.to_bits())]);
    let t2 = Value::Tuple(vec![Value::Int(1), Value::Int(2)]);
    assert!(keys_equal(&k(t1), &k(t2)));
    assert!(!keys_equal(&k(Value::Tuple(vec![Value::Int(1)])), &k(Value::Tuple(vec![Value::Int(1), Value::Int(2)]))));
}
