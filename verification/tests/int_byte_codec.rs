use indexmap::IndexMap;
use interpretthis::error::{EvalError, InterpreterError};
use interpretthis::int_bytes::{int_from_bytes, int_to_bytes, parse_byteorder, WideInt};
use interpretthis::int_methods::IntReply;
use interpretthis::method_tables::int_methods;
use interpretthis::value::Value;

fn st(s: &str) -> Value {
    Value::String(s.to_string())
}

fn kw(pairs: &[(&str, Value)]) -> IndexMap<String, Value> {
    let mut m = IndexMap::new();
    for (k, v) in pairs {
        m.insert(k.to_string(), v.deep_copy());
    }
    m
}

fn signed() -> IndexMap<String, Value> {
    kw(&[("signed", Value::Bool(true))])
}

fn to_bytes(v: WideInt, args: &[Value], kwargs: &IndexMap<String, Value>) -> Vec<u8> {
    match int_to_bytes(&v, args, kwargs).unwrap() {
        Value::Bytes(b) => b,
        other => panic!("not bytes: {:?}", other),
    }
}

fn overflow_message(r: Result<Value, EvalError>) -> String {
    match r {
        Err(EvalError::Exception(x)) => {
            assert_eq!(x.class_name, "OverflowError");
            x.message
        }
        other => panic!("expected OverflowError, got {:?}", other),
    }
}

#[test]
fn from_bytes_big_and_little_endian() {
    let none = IndexMap::new();
    let b = Value::Bytes(vec![0x01, 0x00]);
    assert_eq!(int_from_bytes(&[b.deep_copy()], &none).unwrap(), WideInt::Small(256));
    assert_eq!(int_from_bytes(&[b.deep_copy(), st("little")], &none).unwrap(), WideInt::Small(1));
    assert_eq!(
        int_from_bytes(&[b], &kw(&[("byteorder", st("little"))])).unwrap(),
        WideInt::Small(1)
    );
    assert_eq!(int_from_bytes(&[Value::Bytes(vec![])], &none).unwrap(), WideInt::Small(0));
}

#[test]
fn from_bytes_twos_complement() {
    let b = Value::Bytes(vec![0xff, 0xfe]);
    assert_eq!(int_from_bytes(&[b.deep_copy()], &signed()).unwrap(), WideInt::Small(-2));
    assert_eq!(int_from_bytes(&[b], &IndexMap::new()).unwrap(), WideInt::Small(65534));
    let min = Value::Bytes(vec![0x80, 0, 0, 0, 0, 0, 0, 0]);
    assert_eq!(int_from_bytes(&[min.deep_copy()], &signed()).unwrap(), WideInt::Small(i64::MIN));
    match int_from_bytes(&[min], &IndexMap::new()).unwrap() {
        WideInt::Large(false, bytes) => assert_eq!(bytes, vec![0x80, 0, 0, 0, 0, 0, 0, 0]),
        other => panic!("expected a large value, got {:?}", other),
    }
}

#[test]
fn from_bytes_of_integer_lists() {
    let items = Value::List(vec![Value::Int(1), Value::Bool(true)]);
    assert_eq!(int_from_bytes(&[items], &IndexMap::new()).unwrap(), WideInt::Small(257));
    let tuple = Value::Tuple(vec![Value::Int(255)]);
    assert_eq!(int_from_bytes(&[tuple], &signed()).unwrap(), WideInt::Small(-1));
    match int_from_bytes(&[Value::List(vec![Value::Int(256)])], &IndexMap::new()) {
        Err(EvalError::Interpreter(InterpreterError::ValueError(m))) => {
            assert_eq!(m, "bytes must be in range(0, 256)")
        }
        other => panic!("{:?}", other),
    }
    match int_from_bytes(&[Value::List(vec![st("a")])], &IndexMap::new()) {
        Err(EvalError::Interpreter(InterpreterError::TypeError(m))) => {
            assert_eq!(m, "'str' object cannot be interpreted as an integer")
        }
        other => panic!("{:?}", other),
    }
}

#[test]
fn from_bytes_argument_errors() {
    match int_from_bytes(&[], &IndexMap::new()) {
        Err(EvalError::Interpreter(InterpreterError::TypeError(m))) => {
            assert_eq!(m, "from_bytes() missing required argument 'bytes' (pos 1)")
        }
        other => panic!("{:?}", other),
    }
    match int_from_bytes(&[Value::Int(3)], &IndexMap::new()) {
        Err(EvalError::Interpreter(InterpreterError::TypeError(m))) => {
            assert_eq!(m, "cannot convert 'int' object to bytes")
        }
        other => panic!("{:?}", other),
    }
    match int_from_bytes(&[Value::Bytes(vec![1]), st("middle")], &IndexMap::new()) {
        Err(EvalError::Interpreter(InterpreterError::ValueError(m))) => {
            assert_eq!(m, "byteorder must be either 'little' or 'big'")
        }
        other => panic!("{:?}", other),
    }
    match parse_byteorder(Some(&Value::Int(1)), &IndexMap::new()) {
        Err(EvalError::Interpreter(InterpreterError::TypeError(m))) => {
            assert_eq!(m, "byteorder must be str, not int")
        }
        other => panic!("{:?}", other),
    }
}

#[test]
fn to_bytes_pads_and_orders() {
    let none = IndexMap::new();
    assert_eq!(to_bytes(WideInt::Small(1024), &[Value::Int(2)], &none), vec![0x04, 0x00]);
    assert_eq!(to_bytes(WideInt::Small(1024), &[Value::Int(4), st("little")], &none), vec![0, 0x04, 0, 0]);
    assert_eq!(to_bytes(WideInt::Small(5), &[], &none), vec![5]);
    assert_eq!(to_bytes(WideInt::Small(0), &[Value::Int(0)], &none), Vec::<u8>::new());
    assert_eq!(
        to_bytes(WideInt::Small(258), &[], &kw(&[("length", Value::Int(3)), ("byteorder", st("little"))])),
        vec![2, 1, 0]
    );
}

#[test]
fn to_bytes_twos_complement() {
    assert_eq!(to_bytes(WideInt::Small(-1), &[Value::Int(2)], &signed()), vec![0xff, 0xff]);
    assert_eq!(to_bytes(WideInt::Small(-128), &[Value::Int(1)], &signed()), vec![0x80]);
    assert_eq!(to_bytes(WideInt::Small(127), &[Value::Int(1)], &signed()), vec![0x7f]);
    assert_eq!(
        to_bytes(WideInt::Small(i64::MIN), &[Value::Int(9)], &signed()),
        vec![0xff, 0x80, 0, 0, 0, 0, 0, 0, 0]
    );
    let two_pow_64 = WideInt::Large(false, vec![1, 0, 0, 0, 0, 0, 0, 0, 0]);
    assert_eq!(
        to_bytes(two_pow_64, &[Value::Int(10)], &IndexMap::new()),
        vec![0, 1, 0, 0, 0, 0, 0, 0, 0, 0]
    );
    let big_negative = WideInt::Large(true, vec![1, 0, 0, 0, 0, 0, 0, 0, 1]);
    assert_eq!(
        to_bytes(big_negative, &[Value::Int(10), st("little")], &signed()),
        vec![0xff, 0xff, 0xff, 0xff, 0xff, 0xff, 0xff, 0xff, 0xfe, 0xff]
    );
}

#[test]
fn to_bytes_overflow_and_argument_errors() {
    let none = IndexMap::new();
    assert_eq!(
        overflow_message(int_to_bytes(&WideInt::Small(256), &[Value::Int(1)], &none)),
        "int too big to convert"
    );
    assert_eq!(
        overflow_message(int_to_bytes(&WideInt::Small(128), &[Value::Int(1)], &signed())),
        "int too big to convert"
    );
    assert_eq!(
        overflow_message(int_to_bytes(&WideInt::Small(-129), &[Value::Int(1)], &signed())),
        "int too big to convert"
    );
    assert_eq!(
        overflow_message(int_to_bytes(&WideInt::Small(1), &[Value::Int(0)], &none)),
        "int too big to convert"
    );
    assert_eq!(
        overflow_message(int_to_bytes(&WideInt::Small(-1), &[Value::Int(2)], &none)),
        "can't convert negative int to unsigned"
    );
    match int_to_bytes(&WideInt::Small(1), &[Value::Int(-1)], &none) {
        Err(EvalError::Interpreter(InterpreterError::ValueError(m))) => {
            assert_eq!(m, "length argument must be non-negative")
        }
        other => panic!("{:?}", other),
    }
    match int_to_bytes(&WideInt::Small(1), &[st("2")], &none) {
        Err(EvalError::Interpreter(InterpreterError::TypeError(m))) => {
            assert_eq!(m, "'str' object cannot be interpreted as an integer")
        }
        other => panic!("{:?}", other),
    }
}

#[test]
fn to_bytes_then_from_bytes_round_trips() {
    for &v in &[0i64, 1, -1, 127, -128, 255, 4096, -4096, i64::MAX, i64::MIN] {
        for little in [false, true] {
            let order = st(if little { "little" } else { "big" });
            let bytes = to_bytes(WideInt::Small(v), &[Value::Int(9), order.deep_copy()], &signed());
            assert_eq!(
                int_from_bytes(&[Value::Bytes(bytes), order], &signed()).unwrap(),
                WideInt::Small(v)
            );
        }
    }
}

#[test]
fn from_bytes_of_wide_negative_gives_sign_and_magnitude() {
    let mut b = vec![0xffu8; 9];
    b[0] = 0xfe;
    // 0xfe ff..ff (9 bytes) signed is -(2 ** 64) - 1.
    assert_eq!(
        int_from_bytes(&[Value::Bytes(b)], &signed()).unwrap(),
        WideInt::Large(true, vec![1, 0, 0, 0, 0, 0, 0, 0, 1])
    );
    let mut le = vec![0xffu8; 9];
    le[8] = 0x7f;
    assert_eq!(
        int_from_bytes(&[Value::Bytes(le), st("little")], &signed()).unwrap(),
        WideInt::Large(false, vec![0x7f, 0xff, 0xff, 0xff, 0xff, 0xff, 0xff, 0xff, 0xff])
    );
}

#[test]
fn wide_values_round_trip_through_bytes() {
    let v = WideInt::Large(true, vec![0x12, 0x34, 0x56, 0x78, 0x9a, 0xbc, 0xde, 0xf0, 0x11, 0x22]);
    let bytes = to_bytes(v, &[Value::Int(12)], &signed());
    match int_from_bytes(&[Value::Bytes(bytes)], &signed()).unwrap() {
        WideInt::Large(true, mag) => {
            let first = mag.iter().position(|b| *b != 0).unwrap();
            assert_eq!(mag[first..].to_vec(), vec![0x12, 0x34, 0x56, 0x78, 0x9a, 0xbc, 0xde, 0xf0, 0x11, 0x22]);
        }
        other => panic!("expected a large negative value, got {:?}", other),
    }
}

#[test]
fn int_table_routes_to_bytes_and_other_methods() {
    let none = IndexMap::new();
    let mut t = Value::Bool(true);
    match int_methods(&mut t, "to_bytes", &[Value::Int(2)], &none).unwrap() {
        IntReply::Value(v) => assert_eq!(v, Value::Bytes(vec![0, 1])),
        _ => panic!("expected bytes"),
    }
    let mut n = Value::Int(-6);
    match int_methods(&mut n, "bit_length", &[], &none).unwrap() {
        IntReply::Value(v) => assert_eq!(v, Value::Int(3)),
        _ => panic!("expected an int"),
    }
    let mut b = Value::Bool(false);
    match int_methods(&mut b, "bit_length", &[], &none) {
        Err(EvalError::Interpreter(InterpreterError::TypeError(m))) => {
            assert_eq!(m, "internal: method table expected int")
        }
        _ => panic!("expected a table mismatch"),
    }
}

#[test]
fn from_bytes_then_to_bytes_gives_the_bytes_back() {
    let samples: Vec<Vec<u8>> = vec![
        vec![],
        vec![0],
        vec![0x80],
        vec![0xff, 0xfe],
        vec![0x7f, 0xff, 0xff, 0xff, 0xff, 0xff, 0xff, 0xff],
        vec![0x80, 0, 0, 0, 0, 0, 0, 0],
        vec![0xfe, 0xff, 0xff, 0xff, 0xff, 0xff, 0xff, 0xff, 0xff, 0x01],
    ];
    for raw in samples {
        for little in [false, true] {
            for is_signed in [false, true] {
                let order = st(if little { "little" } else { "big" });
                let kwargs = kw(&[("signed", Value::Bool(is_signed))]);
                let w = int_from_bytes(&[Value::Bytes(raw.clone()), order.deep_copy()], &kwargs).unwrap();
                let back = to_bytes(w, &[Value::Int(raw.len() as i64), order], &kwargs);
                assert_eq!(back, raw);
            }
        }
    }
}
