use indexmap::IndexMap;
use interpretthis::error::{EvalError, InterpreterError};
use interpretthis::int_bytes::WideInt;
use interpretthis::int_parse::{builtin_int, parse_int_str, IntConversion};
use interpretthis::value::Value;

fn st(s: &str) -> Value {
    Value::String(s.to_string())
}

fn small(s: &str, base: i64) -> i64 {
    match parse_int_str(s, base).unwrap() {
        WideInt::Small(i) => i,
        other => panic!("expected a machine integer, got {:?}", other),
    }
}

fn value_error_of(r: Result<WideInt, EvalError>) -> String {
    match r {
        Err(EvalError::Exception(x)) => {
            assert_eq!(x.class_name, "ValueError");
            x.message
        }
        other => panic!("expected ValueError, got {:?}", other),
    }
}

fn type_error_of(r: Result<IntConversion, EvalError>) -> String {
    match r {
        Err(EvalError::Interpreter(InterpreterError::TypeError(m))) => m,
        other => panic!("expected TypeError, got {:?}", other),
    }
}

#[test]
fn parse_int_str_decimal_and_signs() {
    assert_eq!(small("42", 10), 42);
    assert_eq!(small("  -17\n", 10), -17);
    assert_eq!(small("+8", 10), 8);
    assert_eq!(small("1_000_000", 10), 1_000_000);
    assert_eq!(small("-9223372036854775808", 10), i64::MIN);
    assert_eq!(small("9223372036854775807", 10), i64::MAX);
}

#[test]
fn parse_int_str_prefixes_and_radixes() {
    assert_eq!(small("  -0x1F  ", 0), -31);
    assert_eq!(small("0o17", 0), 15);
    assert_eq!(small("0B101", 0), 5);
    assert_eq!(small("ff", 16), 255);
    assert_eq!(small("0xff", 16), 255);
    assert_eq!(small("Zz", 36), 36 * 35 + 35);
    assert_eq!(small("000", 0), 0);
    assert_eq!(small("7", 8), 7);
}

#[test]
fn parse_int_str_promotes_past_a_machine_word() {
    assert_eq!(
        parse_int_str("9223372036854775808", 10).unwrap(),
        WideInt::Large(false, vec![0x80, 0, 0, 0, 0, 0, 0, 0])
    );
    assert_eq!(
        parse_int_str("-123456789012345678901234567890", 0).unwrap(),
        WideInt::Large(true, vec![1, 142, 233, 15, 246, 195, 115, 224, 238, 78, 63, 10, 210])
    );
}

#[test]
fn parse_int_str_rejects_invalid_literals() {
    assert_eq!(value_error_of(parse_int_str("010", 0)), "invalid literal for int() with base 0: \"010\"");
    assert_eq!(value_error_of(parse_int_str("12a", 10)), "invalid literal for int() with base 10: \"12a\"");
    assert_eq!(value_error_of(parse_int_str("1__0", 10)), "invalid literal for int() with base 10: \"1__0\"");
    assert_eq!(value_error_of(parse_int_str("_1", 10)), "invalid literal for int() with base 10: \"_1\"");
    assert_eq!(value_error_of(parse_int_str("", 10)), "invalid literal for int() with base 10: \"\"");
    assert_eq!(value_error_of(parse_int_str("0x", 16)), "invalid literal for int() with base 16: \"0x\"");
    assert_eq!(value_error_of(parse_int_str("8", 8)), "invalid literal for int() with base 8: \"8\"");
}

#[test]
fn parse_int_str_rejects_bad_bases() {
    for base in [1, 37, -2] {
        assert_eq!(value_error_of(parse_int_str("1", base)), "int() base must be >= 2 and <= 36, or 0");
    }
}

#[test]
fn builtin_int_conversions() {
    let none = IndexMap::new();
    assert_eq!(builtin_int(&[], &none).unwrap(), IntConversion::Exact(WideInt::Small(0)));
    assert_eq!(builtin_int(&[Value::Int(7)], &none).unwrap(), IntConversion::Exact(WideInt::Small(7)));
    assert_eq!(builtin_int(&[Value::Bool(true)], &none).unwrap(), IntConversion::Exact(WideInt::Small(1)));
    let bits = 2.5f64.to_bits();
    assert_eq!(builtin_int(&[Value::Float(bits)], &none).unwrap(), IntConversion::Float(bits));
    assert_eq!(builtin_int(&[st(" 12 ")], &none).unwrap(), IntConversion::Exact(WideInt::Small(12)));
    assert_eq!(builtin_int(&[st("ff"), Value::Int(16)], &none).unwrap(), IntConversion::Exact(WideInt::Small(255)));
    assert_eq!(
        builtin_int(&[Value::Bytes(b"0b11".to_vec()), Value::Int(0)], &none).unwrap(),
        IntConversion::Exact(WideInt::Small(3))
    );
    let mut kw = IndexMap::new();
    kw.insert("base".to_string(), Value::Int(2));
    assert_eq!(builtin_int(&[st("101")], &kw).unwrap(), IntConversion::Exact(WideInt::Small(5)));
}

#[test]
fn builtin_int_errors() {
    let none = IndexMap::new();
    let mut base_only = IndexMap::new();
    base_only.insert("base".to_string(), Value::Int(2));
    assert_eq!(type_error_of(builtin_int(&[], &base_only)), "int() missing string argument");
    let mut bad = IndexMap::new();
    bad.insert("x".to_string(), Value::Int(1));
    assert_eq!(type_error_of(builtin_int(&[st("1")], &bad)), "'x' is an invalid keyword argument for int()");
    assert_eq!(
        type_error_of(builtin_int(&[st("1"), Value::Int(10), Value::Int(3)], &none)),
        "int() takes 0 to 2 arguments (3 given)"
    );
    assert_eq!(
        type_error_of(builtin_int(&[Value::Int(255), Value::Int(16)], &none)),
        "int() can't convert non-string with explicit base"
    );
    assert_eq!(
        type_error_of(builtin_int(&[st("1"), st("2")], &none)),
        "'str' object cannot be interpreted as an integer"
    );
    assert_eq!(
        type_error_of(builtin_int(&[Value::PyNone], &none)),
        "int() argument must be a string or a number, not 'NoneType'"
    );
    match builtin_int(&[Value::Bytes(vec![0xff]), Value::Int(16)], &none) {
        Err(EvalError::Interpreter(InterpreterError::ValueError(m))) => {
            assert_eq!(m, "int() bytes argument is not valid UTF-8")
        }
        other => panic!("{:?}", other),
    }
    match builtin_int(&[st("abc")], &none) {
        Err(EvalError::Exception(x)) => {
            assert_eq!(x.message, "invalid literal for int() with base 10: \"abc\"")
        }
        other => panic!("{:?}", other),
    }
}

#[test]
fn radix_text_parses_back() {
    for &n in &[0i64, 1, -1, 255, -255, 4096, i64::MAX, i64::MIN] {
        for (name, base) in [("bin", 2i64), ("oct", 8), ("hex", 16)] {
            let text = match interpretthis::builtins::builtin_int_radix(name, &[Value::Int(n)]).unwrap() {
                Value::String(s) => s,
                other => panic!("{:?}", other),
            };
            assert_eq!(parse_int_str(&text, 0).unwrap(), WideInt::Small(n), "{} {}", name, text);
            assert_eq!(parse_int_str(&text, base).unwrap(), WideInt::Small(n), "{} {}", name, text);
        }
    }
}
