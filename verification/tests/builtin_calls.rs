use indexmap::IndexMap;
use interpretthis::builtins::{builtin_bytes, builtin_chr, builtin_int_radix, builtin_ord};
use interpretthis::error::{EvalError, InterpreterError};
use interpretthis::int_methods::{dispatch_int_method, IntReply};
use interpretthis::method_tables::{bytearray_methods, bytes_methods, str_methods};
use interpretthis::value::Value;

fn st(x: &str) -> Value {
    Value::String(x.to_string())
}

#[test]
fn chr_and_ord() {
    assert_eq!(builtin_chr(&[Value::Int(0x263A)]).unwrap(), st("☺"));
    assert_eq!(builtin_chr(&[Value::Int(65)]).unwrap(), st("A"));
    for bad in [-1i64, 0x110000, 0xD800] {
        match builtin_chr(&[Value::Int(bad)]) {
            Err(EvalError::Exception(x)) => assert_eq!(x.message, "chr() arg not in range(0x110000)"),
            other => panic!("unexpected {:?}", other),
        }
    }
    assert_eq!(builtin_ord(&[st("é")]).unwrap(), Value::Int(0xE9));
    assert_eq!(builtin_ord(&[Value::Bytes(vec![7])]).unwrap(), Value::Int(7));
    match builtin_ord(&[st("ab")]) {
        Err(EvalError::Exception(x)) => {
            assert_eq!(x.class_name, "TypeError");
            assert_eq!(x.message, "ord() expected a character, but string of length 2 found");
        }
        other => panic!("unexpected {:?}", other),
    }
    match builtin_ord(&[Value::Int(1)]) {
        Err(EvalError::Interpreter(InterpreterError::TypeError(m))) => {
            assert_eq!(m, "ord() expected string of length 1, but int found")
        }
        other => panic!("unexpected {:?}", other),
    }
    match builtin_chr(&[]) {
        Err(EvalError::Interpreter(InterpreterError::TypeError(m))) => {
            assert_eq!(m, "chr() takes exactly 1 argument(s) (0 given)")
        }
        other => panic!("unexpected {:?}", other),
    }
}

#[test]
fn bin_oct_hex_render() {
    assert_eq!(builtin_int_radix("bin", &[Value::Int(5)]).unwrap(), st("0b101"));
    assert_eq!(builtin_int_radix("oct", &[Value::Int(8)]).unwrap(), st("0o10"));
    assert_eq!(builtin_int_radix("hex", &[Value::Int(-255)]).unwrap(), st("-0xff"));
    assert_eq!(builtin_int_radix("hex", &[Value::Int(0)]).unwrap(), st("0x0"));
    assert_eq!(builtin_int_radix("bin", &[Value::Int(i64::MIN)]).unwrap(),
        st(&format!("-0b1{}", "0".repeat(63))));
}

#[test]
fn bytes_constructor_forms() {
    assert_eq!(builtin_bytes(&[], false).unwrap(), Value::Bytes(vec![]));
    assert_eq!(builtin_bytes(&[Value::Int(3)], false).unwrap(), Value::Bytes(vec![0, 0, 0]));
    assert_eq!(builtin_bytes(&[st("hé"), st("utf-8")], true).unwrap(), Value::ByteArray(vec![0x68, 0xC3, 0xA9]));
    assert_eq!(builtin_bytes(&[Value::List(vec![Value::Int(1), Value::Int(2)])], false).unwrap(), Value::Bytes(vec![1, 2]));
    match builtin_bytes(&[Value::Int(-1)], false) {
        Err(EvalError::Interpreter(InterpreterError::ValueError(m))) => assert_eq!(m, "negative count"),
        other => panic!("unexpected {:?}", other),
    }
    match builtin_bytes(&[st("x"), st("cp1252")], false) {
        Err(EvalError::Exception(x)) => {
            assert_eq!(x.class_name, "LookupError");
            assert_eq!(x.message, "unknown encoding: cp1252");
        }
        other => panic!("unexpected {:?}", other),
    }
    match builtin_bytes(&[st("x")], false) {
        Err(EvalError::Interpreter(InterpreterError::TypeError(m))) => assert_eq!(m, "string argument without an encoding"),
        other => panic!("unexpected {:?}", other),
    }
}

fn int_call(i: i64, method: &str, args: &[Value]) -> IntReply {
    dispatch_int_method(i, method, args, &IndexMap::new()).unwrap()
}

fn int_value(r: IntReply) -> Value {
    match r {
        IntReply::Value(v) => v,
        IntReply::Int(interpretthis::int_bytes::WideInt::Small(i)) => Value::Int(i),
        IntReply::Int(_) => panic!("past a machine word"),
        IntReply::MinMagnitude => panic!("needs arbitrary precision"),
        IntReply::ToFloat(_) => panic!("needs a float"),
    }
}

#[test]
fn int_methods_values() {
    assert_eq!(int_value(int_call(-42, "bit_length", &[])), Value::Int(6));
    assert_eq!(int_value(int_call(0, "bit_length", &[])), Value::Int(0));
    assert_eq!(int_value(int_call(i64::MIN, "bit_length", &[])), Value::Int(64));
    assert_eq!(int_value(int_call(-7, "bit_count", &[])), Value::Int(3));
    assert_eq!(int_value(int_call(5, "__invert__", &[])), Value::Int(-6));
    assert_eq!(int_value(int_call(-5, "__abs__", &[])), Value::Int(5));
    assert_eq!(int_value(int_call(1250, "__round__", &[Value::Int(-2)])), Value::Int(1200));
    match int_call(i64::MAX, "__round__", &[Value::Int(-1)]) {
        IntReply::Int(w) => assert_eq!(w, interpretthis::int_bytes::WideInt::Large(false, vec![0x80, 0, 0, 0, 0, 0, 0, 2])),
        _ => panic!("expected an integer"),
    }
    assert_eq!(int_value(int_call(3, "as_integer_ratio", &[])), Value::Tuple(vec![Value::Int(3), Value::Int(1)]));
    assert_eq!(int_value(int_call(0, "__bool__", &[])), Value::Bool(false));
    assert!(matches!(int_call(i64::MIN, "__neg__", &[]), IntReply::MinMagnitude));
    assert!(matches!(int_call(9, "__float__", &[]), IntReply::ToFloat(9)));
    match dispatch_int_method(1, "nope", &[], &IndexMap::new()) {
        Err(EvalError::Interpreter(InterpreterError::AttributeError(m))) => {
            assert_eq!(m, "'int' object has no attribute 'nope'")
        }
        other => panic!("unexpected {:?}", other.is_ok()),
    }
}

#[test]
fn method_tables_route_by_type() {
    let mut s = st("abc");
    assert_eq!(str_methods(&mut s, "upper", &[], &IndexMap::new()).unwrap().value, st("ABC"));
    let mut b = Value::Bytes(b"ab".to_vec());
    assert_eq!(bytes_methods(&mut b, "upper", &[], &IndexMap::new()).unwrap().value, Value::Bytes(b"AB".to_vec()));
    let mut ba = Value::ByteArray(b"ab".to_vec());
    let out = bytearray_methods(&mut ba, "append", &[Value::Int(99)], &IndexMap::new()).unwrap();
    assert_eq!(out.mem_delta, 1);
    assert_eq!(ba, Value::ByteArray(b"abc".to_vec()));
    match str_methods(&mut Value::Int(1), "upper", &[], &IndexMap::new()) {
        Err(EvalError::Interpreter(InterpreterError::TypeError(m))) => {
            assert_eq!(m, "internal: method table expected str")
        }
        other => panic!("unexpected {:?}", other.is_ok()),
    }
}
