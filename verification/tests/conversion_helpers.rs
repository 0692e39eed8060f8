use interpretthis::error::{EvalError, InterpreterError};
use interpretthis::helpers::{
    bytes_from_int_items, bytes_maketrans, clean_numeric_underscores, clean_underscores, ord_single_byte,
    push_unique, single_or_tuple, strip_ci,
};
use interpretthis::value::Value;

#[test]
fn ord_single_byte_lengths() {
    assert_eq!(ord_single_byte(&[65]).unwrap(), Some(Value::Int(65)));
    match ord_single_byte(&[1, 2]) {
        Err(EvalError::Interpreter(InterpreterError::TypeError(m))) => {
            assert_eq!(m, "ord() expected a character, but string of length 2 found")
        }
        other => panic!("unexpected {:?}", other),
    }
}

#[test]
fn bytes_from_int_items_checks_range_and_type() {
    assert_eq!(bytes_from_int_items(&[Value::Int(104), Value::Bool(true), Value::Int(255)]).unwrap(), vec![104, 1, 255]);
    match bytes_from_int_items(&[Value::Int(300)]) {
        Err(EvalError::Interpreter(InterpreterError::ValueError(m))) => assert_eq!(m, "bytes must be in range(0, 256)"),
        other => panic!("unexpected {:?}", other),
    }
    match bytes_from_int_items(&[Value::Int(1), Value::String("x".to_string())]) {
        Err(EvalError::Interpreter(InterpreterError::TypeError(m))) => assert_eq!(m, "bytes() argument items must be ints"),
        other => panic!("unexpected {:?}", other),
    }
}

#[test]
fn underscore_cleaning() {
    assert_eq!(clean_numeric_underscores("1_000.5").as_deref(), Some("1000.5"));
    assert_eq!(clean_numeric_underscores("plain").as_deref(), Some("plain"));
    assert_eq!(clean_numeric_underscores("1__0"), None);
    assert_eq!(clean_numeric_underscores("_1"), None);
    assert_eq!(clean_numeric_underscores("1_.0"), None);
    assert_eq!(clean_underscores("ff_ff").as_deref(), Some("ffff"));
    assert_eq!(clean_underscores("").as_deref(), Some(""));
    assert_eq!(clean_underscores("1__2"), None);
    assert_eq!(clean_underscores("12_"), None);
}

#[test]
fn strip_ci_prefixes() {
    let s: Vec<char> = "0XfF".chars().collect();
    let p: Vec<char> = "0x".chars().collect();
    assert_eq!(strip_ci(&s, &p), Some(vec!['f', 'F']));
    let t: Vec<char> = "0b1".chars().collect();
    assert_eq!(strip_ci(&t, &p), None);
    assert_eq!(strip_ci(&['0'], &p), None);
}

#[test]
fn maketrans_table() {
    let table = bytes_maketrans(&[Value::Bytes(b"ab".to_vec()), Value::Bytes(b"xy".to_vec())]).unwrap();
    match table {
        Value::Bytes(t) => {
            assert_eq!(t.len(), 256);
            assert_eq!(t[b'a' as usize], b'x');
            assert_eq!(t[b'b' as usize], b'y');
            assert_eq!(t[b'c' as usize], b'c');
        }
        other => panic!("unexpected {:?}", other),
    }
    match bytes_maketrans(&[Value::Bytes(b"ab".to_vec()), Value::Bytes(b"x".to_vec())]) {
        Err(EvalError::Interpreter(InterpreterError::ValueError(m))) => {
            assert_eq!(m, "maketrans arguments must have same length")
        }
        other => panic!("unexpected {:?}", other),
    }
}

#[test]
fn single_or_tuple_and_push_unique() {
    assert_eq!(single_or_tuple(vec![Value::Int(1)]), Value::Int(1));
    assert_eq!(single_or_tuple(vec![Value::Int(1), Value::Int(2)]), Value::Tuple(vec![Value::Int(1), Value::Int(2)]));
    let mut names: Vec<String> = vec!["a".to_string()];
    push_unique(&mut names, "b");
    push_unique(&mut names, "a");
    assert_eq!(names, vec!["a".to_string(), "b".to_string()]);
}
