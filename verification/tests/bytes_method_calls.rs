use indexmap::IndexMap;
use interpretthis::bytes_methods::{bytes_fromhex, dispatch_bytearray_method, dispatch_bytes_method, dispatch_memoryview_method};
use interpretthis::error::{EvalError, InterpreterError};
use interpretthis::value::Value;

fn b(x: &[u8]) -> Value {
    Value::Bytes(x.to_vec())
}

fn bcall(recv: &[u8], method: &str, args: &[Value]) -> Result<Value, EvalError> {
    dispatch_bytes_method(recv, method, args, &IndexMap::new())
}

#[test]
fn bytes_hex_and_fromhex_roundtrip() {
    let raw = [0x00u8, 0x1f, 0xab, 0xff];
    let hex = bcall(&raw, "hex", &[]).unwrap();
    assert_eq!(hex, Value::String("001fabff".to_string()));
    assert_eq!(bytes_fromhex(&[hex]).unwrap(), b(&raw));
    assert_eq!(bcall(&raw, "hex", &[Value::String(":".to_string()), Value::Int(2)]).unwrap(),
        Value::String("001f:abff".to_string()));
    assert_eq!(bytes_fromhex(&[Value::String("de AD\tbe".to_string())]).unwrap(), b(&[0xde, 0xad, 0xbe]));
    match bytes_fromhex(&[Value::String("abc".to_string())]) {
        Err(EvalError::Interpreter(InterpreterError::ValueError(m))) => {
            assert_eq!(m, "non-hexadecimal number found in fromhex() arg")
        }
        other => panic!("unexpected {:?}", other),
    }
    match bytes_fromhex(&[Value::String("zz".to_string())]) {
        Err(EvalError::Interpreter(InterpreterError::ValueError(m))) => {
            assert_eq!(m, "non-hexadecimal character 'z' in fromhex() arg")
        }
        other => panic!("unexpected {:?}", other),
    }
}

#[test]
fn bytes_search_split_and_replace() {
    assert_eq!(bcall(b"a,b,c", "split", &[b(b",")]).unwrap(), Value::List(vec![b(b"a"), b(b"b"), b(b"c")]));
    assert_eq!(bcall(b"a  b", "split", &[]).unwrap(), Value::List(vec![b(b"a"), b(b"b")]));
    assert_eq!(bcall(b" \tx\r\ny  z \x0c", "split", &[]).unwrap(), Value::List(vec![b(b"x"), b(b"y"), b(b"z")]));
    assert_eq!(bcall(b"   ", "split", &[]).unwrap(), Value::List(vec![]));
    assert_eq!(bcall(b"a  b", "split", &[b(b" ")]).unwrap(), Value::List(vec![b(b"a"), b(b""), b(b"b")]));
    assert_eq!(bcall(b"ab", "center", &[Value::Int(3)]).unwrap(), b(b" ab"));
    assert_eq!(bcall(b"aaa", "replace", &[b(b"a"), b(b"bb")]).unwrap(), b(b"bbbbbb"));
    assert_eq!(bcall(b"hello", "find", &[b(b"l")]).unwrap(), Value::Int(2));
    assert_eq!(bcall(b"hello", "rfind", &[b(b"l")]).unwrap(), Value::Int(3));
    assert_eq!(bcall(b"hello", "count", &[b(b"l")]).unwrap(), Value::Int(2));
    assert_eq!(bcall(b"Hello", "upper", &[]).unwrap(), b(b"HELLO"));
    assert_eq!(bcall(b"  x ", "strip", &[]).unwrap(), b(b"x"));
    assert_eq!(bcall(b"-", "join", &[Value::List(vec![b(b"a"), b(b"b")])]).unwrap(), b(b"a-b"));
}

#[test]
fn bytes_decode_and_errors() {
    assert_eq!(bcall(&[0x68, 0xC3, 0xA9], "decode", &[]).unwrap(), Value::String("hé".to_string()));
    assert_eq!(bcall(&[0xE9], "decode", &[Value::String("latin-1".to_string())]).unwrap(), Value::String("é".to_string()));
    match bcall(b"x", "nope", &[]) {
        Err(EvalError::Interpreter(InterpreterError::AttributeError(m))) => {
            assert_eq!(m, "'bytes' object has no attribute 'nope'")
        }
        other => panic!("unexpected {:?}", other),
    }
}

#[test]
fn bytearray_append_then_pop() {
    let mut ba: Vec<u8> = b"ab".to_vec();
    let out = dispatch_bytearray_method(&mut ba, "append", &[Value::Int(99)], &IndexMap::new()).unwrap();
    assert_eq!(out.value, Value::PyNone);
    assert_eq!(ba, b"abc".to_vec());
    let out = dispatch_bytearray_method(&mut ba, "pop", &[], &IndexMap::new()).unwrap();
    assert_eq!(out.value, Value::Int(99));
    assert_eq!(ba, b"ab".to_vec());
}

#[test]
fn memoryview_tobytes() {
    assert_eq!(dispatch_memoryview_method(b"xy", "tobytes").unwrap(), b(b"xy"));
}

#[test]
fn bytes_decode_utf16() {
    let le = [0xFFu8, 0xFE, 0x41, 0x00, 0x3A, 0x26];
    assert_eq!(bcall(&le, "decode", &[Value::String("utf-16".to_string())]).unwrap(), Value::String("A☺".to_string()));
    match bcall(&[0x00, 0xD8], "decode", &[Value::String("utf-16-le".to_string())]) {
        Err(EvalError::Interpreter(InterpreterError::ValueError(m))) => assert_eq!(m, "invalid utf-16 data"),
        other => panic!("unexpected {:?}", other),
    }
}

#[test]
fn fromhex_reads_capitalised_and_spaced_hex_text() {
    let raw = [0xabu8, 0xcd, 0x09, 0xef];
    let hex = match bcall(&raw, "hex", &[]).unwrap() {
        Value::String(h) => h,
        other => panic!("unexpected {:?}", other),
    };
    let upper: String = hex.chars().map(|c| c.to_ascii_uppercase()).collect();
    let mut spaced = String::new();
    for (i, c) in upper.chars().enumerate() {
        if i > 0 && i % 2 == 0 {
            spaced.push(' ');
        }
        spaced.push(c);
    }
    assert_eq!(spaced, "AB CD 09 EF");
    assert_eq!(bytes_fromhex(&[Value::String(spaced)]).unwrap(), b(&raw));
    assert_eq!(bytes_fromhex(&[Value::String("aB\ncD\r09 Ef".to_string())]).unwrap(), b(&raw));
}
