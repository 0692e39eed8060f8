use indexmap::IndexMap;
use interpretthis::error::{EvalError, InterpreterError};
use interpretthis::int_bytes::WideInt;
use interpretthis::pure_builtins::{dispatch_pure_builtin, BuiltinReply};
use interpretthis::value::Value;

fn st(s: &str) -> Value {
    Value::String(s.to_string())
}

fn call(name: &str, args: &[Value]) -> BuiltinReply {
    dispatch_pure_builtin(name, args, &IndexMap::new()).unwrap().unwrap()
}

fn type_error(name: &str, args: &[Value]) -> String {
    match dispatch_pure_builtin(name, args, &IndexMap::new()) {
        Err(EvalError::Interpreter(InterpreterError::TypeError(m))) => m,
        other => panic!("expected TypeError, got {:?}", other),
    }
}

#[test]
fn len_of_sized_values() {
    assert_eq!(call("len", &[st("héllo")]), BuiltinReply::Value(Value::Int(5)));
    assert_eq!(call("len", &[Value::Bytes(vec![1, 2])]), BuiltinReply::Value(Value::Int(2)));
    assert_eq!(call("len", &[Value::List(vec![Value::Int(1)])]), BuiltinReply::Value(Value::Int(1)));
    assert_eq!(type_error("len", &[Value::Int(3)]), "object of type 'int' has no len()");
    assert_eq!(type_error("len", &[]), "len() takes exactly 1 argument(s) (0 given)");
}

#[test]
fn bool_abs_all_any() {
    assert_eq!(call("bool", &[]), BuiltinReply::Value(Value::Bool(false)));
    assert_eq!(call("bool", &[st("x")]), BuiltinReply::Value(Value::Bool(true)));
    assert_eq!(call("bool", &[Value::Int(0)]), BuiltinReply::Value(Value::Bool(false)));
    assert_eq!(call("abs", &[Value::Int(-7)]), BuiltinReply::Int(WideInt::Small(7)));
    assert_eq!(
        call("abs", &[Value::Int(i64::MIN)]),
        BuiltinReply::Int(WideInt::Large(false, vec![0x80, 0, 0, 0, 0, 0, 0, 0]))
    );
    assert_eq!(call("abs", &[Value::Bool(true)]), BuiltinReply::Value(Value::Int(1)));
    assert_eq!(call("abs", &[Value::Float((-2.5f64).to_bits())]), BuiltinReply::Value(Value::Float(2.5f64.to_bits())));
    assert_eq!(type_error("abs", &[st("x")]), "bad operand type for abs(): 'str'");
    let items = Value::List(vec![Value::Int(1), Value::Int(0)]);
    assert_eq!(call("all", &[items.deep_copy()]), BuiltinReply::Value(Value::Bool(false)));
    assert_eq!(call("any", &[items]), BuiltinReply::Value(Value::Bool(true)));
    assert_eq!(call("all", &[Value::Tuple(vec![])]), BuiltinReply::Value(Value::Bool(true)));
    assert_eq!(call("any", &[st("")]), BuiltinReply::Value(Value::Bool(false)));
    assert_eq!(type_error("any", &[Value::Int(1)]), "'int' object is not iterable");
}

#[test]
fn sequence_constructors_and_round() {
    assert_eq!(call("list", &[st("ab")]), BuiltinReply::Value(Value::List(vec![st("a"), st("b")])));
    assert_eq!(call("tuple", &[]), BuiltinReply::Value(Value::Tuple(vec![])));
    assert_eq!(call("round", &[Value::Int(1250), Value::Int(-2)]), BuiltinReply::Int(WideInt::Small(1200)));
    assert_eq!(
        call("round", &[Value::Int(i64::MAX), Value::Int(-1)]),
        BuiltinReply::Int(WideInt::Large(false, vec![0x80, 0, 0, 0, 0, 0, 0, 2]))
    );
    let mut kw = IndexMap::new();
    kw.insert("ndigits".to_string(), Value::Int(-1));
    assert_eq!(
        dispatch_pure_builtin("round", &[Value::Int(15)], &kw).unwrap().unwrap(),
        BuiltinReply::Int(WideInt::Small(20))
    );
    assert_eq!(call("round", &[Value::Float(2.5f64.to_bits())]), BuiltinReply::RoundFloat(2.5f64.to_bits(), None));
    assert_eq!(type_error("round", &[st("x")]), "type 'str' doesn't define __round__");
}

#[test]
fn delegated_builtins_and_unknown_names() {
    assert_eq!(call("int", &[st("ff"), Value::Int(16)]), BuiltinReply::Int(WideInt::Small(255)));
    assert_eq!(call("int", &[Value::Float(2.5f64.to_bits())]), BuiltinReply::TruncFloat(2.5f64.to_bits()));
    assert_eq!(call("chr", &[Value::Int(65)]), BuiltinReply::Value(st("A")));
    assert_eq!(call("ord", &[st("A")]), BuiltinReply::Value(Value::Int(65)));
    assert_eq!(call("hex", &[Value::Int(255)]), BuiltinReply::Value(st("0xff")));
    assert_eq!(call("bytearray", &[Value::Int(2)]), BuiltinReply::Value(Value::ByteArray(vec![0, 0])));
    assert_eq!(dispatch_pure_builtin("print", &[], &IndexMap::new()).unwrap(), None);
}
