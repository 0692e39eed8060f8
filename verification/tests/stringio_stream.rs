use indexmap::IndexMap;
use interpretthis::error::{EvalError, InterpreterError};
use interpretthis::stringio::{dispatch_stringio_method, StreamReply, StringIo};
use interpretthis::value::Value;

fn sv(x: &str) -> Value {
    Value::String(x.to_string())
}

fn run(st: &mut StringIo, method: &str, args: &[Value]) -> Result<StreamReply, EvalError> {
    dispatch_stringio_method(st, method, args, &IndexMap::new())
}

fn value_of(r: Result<StreamReply, EvalError>) -> Value {
    match r {
        Ok(StreamReply::Value(o)) => o.value,
        Ok(StreamReply::Stream) => panic!("got the stream itself"),
        Err(e) => panic!("unexpected error {:?}", e),
    }
}

fn contents(st: &StringIo) -> String {
    st.buf.iter().collect()
}

#[test]
fn stringio_write_then_getvalue_and_read_back() {
    let mut st = StringIo::new();
    assert_eq!(value_of(run(&mut st, "write", &[sv("hello")])), Value::Int(5));
    assert_eq!(st.pos, 5);
    assert_eq!(value_of(run(&mut st, "seek", &[Value::Int(1)])), Value::Int(1));
    assert_eq!(value_of(run(&mut st, "write", &[sv("EY")])), Value::Int(2));
    assert_eq!(value_of(run(&mut st, "getvalue", &[])), sv("hEYlo"));
    assert_eq!(value_of(run(&mut st, "tell", &[])), Value::Int(3));
    assert_eq!(value_of(run(&mut st, "seek", &[Value::Int(1)])), Value::Int(1));
    assert_eq!(value_of(run(&mut st, "read", &[Value::Int(2)])), sv("EY"));
    assert_eq!(value_of(run(&mut st, "read", &[])), sv("lo"));
    assert_eq!(value_of(run(&mut st, "read", &[])), sv(""));
}

#[test]
fn stringio_write_reports_utf8_growth() {
    let mut st = StringIo::new();
    match run(&mut st, "write", &[sv("é!")]) {
        Ok(StreamReply::Value(o)) => {
            assert_eq!(o.value, Value::Int(2));
            assert_eq!(o.mem_delta, 3);
        }
        other => panic!("unexpected {:?}", other.is_ok()),
    }
}

#[test]
fn stringio_seek_past_end_then_write_pads_with_nul() {
    let mut st = StringIo::new();
    value_of(run(&mut st, "write", &[sv("ab")]));
    value_of(run(&mut st, "seek", &[Value::Int(5)]));
    assert_eq!(value_of(run(&mut st, "write", &[sv("c")])), Value::Int(1));
    assert_eq!(contents(&st), "ab\0\0\0c");
    assert_eq!(st.pos, 6);
    let mut empty = StringIo::new();
    value_of(run(&mut empty, "seek", &[Value::Int(3)]));
    value_of(run(&mut empty, "write", &[sv("a")]));
    assert_eq!(value_of(run(&mut empty, "getvalue", &[])), sv("\0\0\0a"));
    assert_eq!(value_of(run(&mut empty, "tell", &[])), Value::Int(4));
    let mut lines = StringIo::new();
    value_of(run(&mut lines, "seek", &[Value::Int(2)]));
    value_of(run(&mut lines, "writelines", &[Value::List(vec![sv("x"), sv("y")])]));
    assert_eq!(contents(&lines), "\0\0xy");
    assert_eq!(lines.pos, 4);
}

#[test]
fn stringio_readline_and_readlines() {
    let mut st = StringIo::new();
    value_of(run(&mut st, "write", &[sv("one\ntwo\nthree")]));
    value_of(run(&mut st, "seek", &[Value::Int(0)]));
    assert_eq!(value_of(run(&mut st, "readline", &[])), sv("one\n"));
    assert_eq!(value_of(run(&mut st, "readline", &[Value::Int(2)])), sv("tw"));
    assert_eq!(
        value_of(run(&mut st, "readlines", &[])),
        Value::List(vec![sv("o\n"), sv("three")])
    );
    assert_eq!(st.pos, 13);
    assert_eq!(value_of(run(&mut st, "readline", &[])), sv(""));
}

#[test]
fn stringio_writelines_and_errors() {
    let mut st = StringIo::new();
    let items = Value::List(vec![sv("a"), sv("b")]);
    assert_eq!(value_of(run(&mut st, "writelines", &[items])), Value::PyNone);
    assert_eq!(contents(&st), "ab");
    let bad = Value::List(vec![sv("c"), Value::Int(1)]);
    match run(&mut st, "writelines", &[bad]) {
        Err(EvalError::Interpreter(InterpreterError::TypeError(m))) => {
            assert_eq!(m, "writelines() argument must be an iterable of str")
        }
        other => panic!("unexpected {:?}", other.is_ok()),
    }
    // The buffer is left as it was, the cursor moved past the string written.
    assert_eq!(contents(&st), "ab");
    assert_eq!(st.pos, 3);
    match run(&mut st, "write", &[Value::Int(1)]) {
        Err(EvalError::Interpreter(InterpreterError::TypeError(m))) => {
            assert_eq!(m, "write() argument must be str, not int")
        }
        other => panic!("unexpected {:?}", other.is_ok()),
    }
    match run(&mut st, "seek", &[Value::Int(-1)]) {
        Err(EvalError::Interpreter(InterpreterError::ValueError(m))) => assert_eq!(m, "negative seek position"),
        other => panic!("unexpected {:?}", other.is_ok()),
    }
}

#[test]
fn stringio_truncate_and_protocol() {
    let mut st = StringIo::new();
    value_of(run(&mut st, "write", &[sv("abcdef")]));
    assert_eq!(value_of(run(&mut st, "truncate", &[Value::Int(3)])), Value::Int(3));
    assert_eq!(contents(&st), "abc");
    assert_eq!(st.pos, 6);
    assert_eq!(value_of(run(&mut st, "seekable", &[])), Value::Bool(true));
    assert_eq!(value_of(run(&mut st, "close", &[])), Value::PyNone);
    assert!(matches!(run(&mut st, "__enter__", &[]), Ok(StreamReply::Stream)));
    assert_eq!(value_of(run(&mut st, "__exit__", &[Value::PyNone])), Value::Bool(false));
    match run(&mut st, "nope", &[]) {
        Err(EvalError::Interpreter(InterpreterError::AttributeError(m))) => {
            assert_eq!(m, "'_io.StringIO' object has no attribute 'nope'")
        }
        other => panic!("unexpected {:?}", other.is_ok()),
    }
}

#[test]
fn stringio_rejects_keywords() {
    let mut st = StringIo::new();
    let mut kw: IndexMap<String, Value> = IndexMap::new();
    kw.insert("size".to_string(), Value::Int(1));
    match dispatch_stringio_method(&mut st, "read", &[], &kw) {
        Err(EvalError::Interpreter(InterpreterError::TypeError(m))) => {
            assert_eq!(m, "read() got an unexpected keyword argument 'size'")
        }
        other => panic!("unexpected {:?}", other.is_ok()),
    }
}
