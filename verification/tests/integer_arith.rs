use interpretthis::arith::{mod_inverse, pow_three_arg, round_int};
use interpretthis::error::{EvalError, InterpreterError};
use interpretthis::value::Value;
use interpretthis::int_bytes::WideInt;

fn pow3(b: i64, e: i64, m: i64) -> Result<Value, EvalError> {
    pow_three_arg(&Value::Int(b), &Value::Int(e), &Value::Int(m))
}

#[test]
fn pow_three_arg_matches_python() {
    assert_eq!(pow3(2, 10, 1000).unwrap(), Value::Int(24));
    assert_eq!(pow3(2, 3, -5).unwrap(), Value::Int(-2));
    assert_eq!(pow3(-2, 3, 5).unwrap(), Value::Int(2));
    assert_eq!(pow3(3, -1, 7).unwrap(), Value::Int(5));
    assert_eq!(pow3(7, 0, 1).unwrap(), Value::Int(0));
    assert_eq!(pow3(i64::MAX, i64::MAX, i64::MIN).unwrap(), Value::Int(-1));
    assert_eq!(pow3(12345, 678901, 1_000_000_007).unwrap(), Value::Int(pow_reference(12345, 678901, 1_000_000_007)));
    assert_eq!(
        pow_three_arg(&Value::Bool(true), &Value::Int(5), &Value::Int(3)).unwrap(),
        Value::Int(1)
    );
}

fn pow_reference(b: u128, mut e: u128, m: u128) -> i64 {
    let mut r: u128 = 1;
    let mut x = b % m;
    while e > 0 {
        if e % 2 == 1 {
            r = r * x % m;
        }
        x = x * x % m;
        e /= 2;
    }
    r as i64
}

#[test]
fn pow_three_arg_errors() {
    match pow3(2, 3, 0) {
        Err(EvalError::Exception(x)) => {
            assert_eq!(x.class_name, "ValueError");
            assert_eq!(x.message, "pow() 3rd argument cannot be 0");
        }
        other => panic!("unexpected {:?}", other),
    }
    match pow3(2, -1, 4) {
        Err(EvalError::Exception(x)) => assert_eq!(x.message, "base is not invertible for the given modulus"),
        other => panic!("unexpected {:?}", other),
    }
    match pow_three_arg(&Value::Int(2), &Value::Float(1.0f64.to_bits()), &Value::Int(3)) {
        Err(EvalError::Interpreter(InterpreterError::TypeError(m))) => {
            assert_eq!(m, "pow() 3rd argument not allowed unless all arguments are integers")
        }
        other => panic!("unexpected {:?}", other),
    }
}

#[test]
fn mod_inverse_values() {
    assert_eq!(mod_inverse(3, 7), Some(5));
    assert_eq!(mod_inverse(-3, 7), Some(2));
    assert_eq!(mod_inverse(10, 17), Some(12));
    assert_eq!(mod_inverse(4, 8), None);
    assert_eq!(mod_inverse(5, 1), Some(0));
    assert_eq!(mod_inverse(3, -7), Some(5));
}

#[test]
fn round_int_half_to_even() {
    assert_eq!(round_int(1234, None), WideInt::Small(1234));
    assert_eq!(round_int(1234, Some(2)), WideInt::Small(1234));
    assert_eq!(round_int(1250, Some(-2)), WideInt::Small(1200));
    assert_eq!(round_int(1350, Some(-2)), WideInt::Small(1400));
    assert_eq!(round_int(1251, Some(-2)), WideInt::Small(1300));
    assert_eq!(round_int(-1250, Some(-2)), WideInt::Small(-1200));
    assert_eq!(round_int(-1350, Some(-2)), WideInt::Small(-1400));
    assert_eq!(round_int(-1249, Some(-2)), WideInt::Small(-1200));
    assert_eq!(round_int(15, Some(-1)), WideInt::Small(20));
    assert_eq!(round_int(5, Some(-1)), WideInt::Small(0));
    assert_eq!(round_int(123, Some(-19)), WideInt::Small(0));
    // 9223372036854775810 is past a machine word: 0x80000000_00000002.
    assert_eq!(round_int(i64::MAX, Some(-1)), WideInt::Large(false, vec![0x80, 0, 0, 0, 0, 0, 0, 2]));
    assert_eq!(round_int(i64::MAX, Some(-19)), WideInt::Large(false, vec![138, 199, 35, 4, 137, 232, 0, 0]));
}
