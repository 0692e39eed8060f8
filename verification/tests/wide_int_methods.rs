use indexmap::IndexMap;
use interpretthis::error::{EvalError, InterpreterError};
use interpretthis::int_bytes::WideInt;
use interpretthis::value::Value;
use interpretthis::wide_methods::{dispatch_bigint_method, round_bigint, BigReply};

fn n_big() -> Vec<u8> {
    // 123456789012345678901234567890
    vec![1, 142, 233, 15, 246, 195, 115, 224, 238, 78, 63, 10, 210]
}

fn call(b: &WideInt, method: &str, args: &[Value]) -> BigReply {
    dispatch_bigint_method(b, method, args, &IndexMap::new()).unwrap()
}

#[test]
fn round_bigint_rounds_half_to_even_at_any_size() {
    let r = round_bigint(&WideInt::Large(false, n_big()), Some(-10));
    assert_eq!(r, WideInt::Large(false, vec![1, 142, 233, 15, 246, 195, 115, 224, 238, 4, 169, 8, 0]));
    let r = round_bigint(&WideInt::Large(true, n_big()), Some(-10));
    assert_eq!(r, WideInt::Large(true, vec![1, 142, 233, 15, 246, 195, 115, 224, 238, 4, 169, 8, 0]));
    assert_eq!(round_bigint(&WideInt::Small(25), Some(-1)), WideInt::Small(20));
    assert_eq!(round_bigint(&WideInt::Small(35), Some(-1)), WideInt::Small(40));
    assert_eq!(round_bigint(&WideInt::Small(-25), Some(-1)), WideInt::Small(-20));
    assert_eq!(round_bigint(&WideInt::Small(-26), Some(-1)), WideInt::Small(-30));
    assert_eq!(round_bigint(&WideInt::Small(1234), None), WideInt::Small(1234));
    assert_eq!(round_bigint(&WideInt::Small(1234), Some(2)), WideInt::Small(1234));
    // 15 * 10 ** 20 and 25 * 10 ** 20 both round to 2 * 10 ** 21.
    let two_e21 = WideInt::Large(false, vec![108, 107, 147, 91, 139, 189, 64, 0, 0]);
    let fifteen = WideInt::Large(false, vec![81, 80, 174, 132, 168, 205, 240, 0, 0]);
    assert_eq!(round_bigint(&fifteen, Some(-21)), two_e21);
    assert_eq!(round_bigint(&WideInt::Small(i64::MAX), Some(-19)), WideInt::Large(false, vec![138, 199, 35, 4, 137, 232, 0, 0]));
    assert_eq!(round_bigint(&WideInt::Small(i64::MAX), Some(-40)), WideInt::Small(0));
}

#[test]
fn bigint_bit_length_and_count() {
    let two_64 = WideInt::Large(false, vec![1, 0, 0, 0, 0, 0, 0, 0, 0]);
    assert_eq!(call(&two_64, "bit_length", &[]), BigReply::Value(Value::Int(65)));
    assert_eq!(call(&two_64, "bit_count", &[]), BigReply::Value(Value::Int(1)));
    let ones = WideInt::Large(true, vec![0, 0xff, 0xff, 0xff, 0xff, 0xff, 0xff, 0xff, 0xff, 0xff]);
    assert_eq!(call(&ones, "bit_length", &[]), BigReply::Value(Value::Int(72)));
    assert_eq!(call(&ones, "bit_count", &[]), BigReply::Value(Value::Int(72)));
}

#[test]
fn bigint_sign_methods() {
    let two_63 = WideInt::Large(false, vec![0x80, 0, 0, 0, 0, 0, 0, 0]);
    assert_eq!(call(&two_63, "__neg__", &[]), BigReply::Int(WideInt::Small(i64::MIN)));
    assert_eq!(call(&two_63, "__invert__", &[]), BigReply::Int(WideInt::Large(true, vec![0x80, 0, 0, 0, 0, 0, 0, 1])));
    let minus_two_63 = WideInt::Large(true, vec![0x80, 0, 0, 0, 0, 0, 0, 0]);
    assert_eq!(call(&minus_two_63, "__invert__", &[]), BigReply::Int(WideInt::Small(i64::MAX)));
    assert_eq!(call(&minus_two_63, "__abs__", &[]), BigReply::Int(WideInt::Large(false, vec![0x80, 0, 0, 0, 0, 0, 0, 0])));
    assert_eq!(call(&minus_two_63, "__index__", &[]), BigReply::Int(WideInt::Small(i64::MIN)));
    assert_eq!(call(&two_63, "__bool__", &[]), BigReply::Value(Value::Bool(true)));
    assert_eq!(call(&WideInt::Large(true, vec![0, 0]), "__bool__", &[]), BigReply::Value(Value::Bool(false)));
    assert_eq!(call(&two_63, "as_integer_ratio", &[]), BigReply::Ratio(WideInt::Large(false, vec![0x80, 0, 0, 0, 0, 0, 0, 0])));
    assert_eq!(call(&two_63, "__float__", &[]), BigReply::ToFloat);
    assert_eq!(call(&two_63, "imag", &[]), BigReply::Value(Value::Int(0)));
    assert_eq!(call(&two_63, "denominator", &[]), BigReply::Value(Value::Int(1)));
    assert_eq!(
        call(&WideInt::Large(false, n_big()), "__round__", &[Value::Int(-29)]),
        BigReply::Int(WideInt::Large(false, vec![1, 67, 30, 15, 174, 109, 114, 23, 202, 160, 0, 0, 0]))
    );
}

#[test]
fn bigint_method_errors() {
    let two_63 = WideInt::Large(false, vec![0x80, 0, 0, 0, 0, 0, 0, 0]);
    match dispatch_bigint_method(&two_63, "nope", &[], &IndexMap::new()) {
        Err(EvalError::Interpreter(InterpreterError::AttributeError(m))) => {
            assert_eq!(m, "'int' object has no attribute 'nope'")
        }
        other => panic!("{:?}", other),
    }
    let mut kw = IndexMap::new();
    kw.insert("ndigits".to_string(), Value::Int(1));
    match dispatch_bigint_method(&two_63, "__round__", &[], &kw) {
        Err(EvalError::Interpreter(InterpreterError::TypeError(m))) => {
            assert_eq!(m, "__round__() got an unexpected keyword argument 'ndigits'")
        }
        other => panic!("{:?}", other),
    }
    match dispatch_bigint_method(&two_63, "__round__", &[Value::String("x".to_string())], &IndexMap::new()) {
        Err(EvalError::Interpreter(InterpreterError::TypeError(m))) => {
            assert_eq!(m, "'str' object cannot be interpreted as an integer")
        }
        other => panic!("{:?}", other),
    }
}
