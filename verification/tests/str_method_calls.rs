use indexmap::IndexMap;
use interpretthis::error::{EvalError, InterpreterError};
use interpretthis::str_methods::dispatch_string_method;
use interpretthis::value::Value;

fn s(x: &str) -> Value {
    Value::String(x.to_string())
}

fn strs(xs: &[&str]) -> Value {
    Value::List(xs.iter().map(|x| s(x)).collect())
}

fn call(recv: &str, method: &str, args: &[Value]) -> Result<Value, EvalError> {
    dispatch_string_method(recv, method, args, &IndexMap::new())
}

fn call_kw(recv: &str, method: &str, args: &[Value], kws: &[(&str, Value)]) -> Result<Value, EvalError> {
    let mut m: IndexMap<String, Value> = IndexMap::new();
    for (k, v) in kws {
        m.insert(k.to_string(), v.deep_copy());
    }
    dispatch_string_method(recv, method, args, &m)
}

fn type_msg(r: Result<Value, EvalError>) -> String {
    match r {
        Err(EvalError::Interpreter(InterpreterError::TypeError(m))) => m,
        other => panic!("expected TypeError, got {:?}", other),
    }
}

fn value_msg(r: Result<Value, EvalError>) -> String {
    match r {
        Err(EvalError::Interpreter(InterpreterError::ValueError(m))) => m,
        other => panic!("expected ValueError, got {:?}", other),
    }
}

#[test]
fn str_split_on_separator_and_whitespace() {
    assert_eq!(call("a,b,,c", "split", &[s(",")]).unwrap(), strs(&["a", "b", "", "c"]));
    assert_eq!(call("  a  b  c ", "split", &[]).unwrap(), strs(&["a", "b", "c"]));
    assert_eq!(call("a  b  c", "split", &[Value::PyNone, Value::Int(1)]).unwrap(), strs(&["a", "b  c"]));
    assert_eq!(call("a,b,c", "split", &[s(","), Value::Int(1)]).unwrap(), strs(&["a", "b,c"]));
    assert_eq!(call("   ", "split", &[]).unwrap(), strs(&[]));
    assert_eq!(call(" a b ", "split", &[Value::PyNone, Value::Int(0)]).unwrap(), strs(&[" a b "]));
}

#[test]
fn str_rsplit_keeps_left_remainder() {
    assert_eq!(call("a,b,c", "rsplit", &[s(","), Value::Int(1)]).unwrap(), strs(&["a,b", "c"]));
    assert_eq!(call("  a b  c", "rsplit", &[Value::PyNone, Value::Int(1)]).unwrap(), strs(&["  a b", "c"]));
    assert_eq!(call("a b c", "rsplit", &[]).unwrap(), strs(&["a", "b", "c"]));
    assert_eq!(call("a,b,c", "rsplit", &[s(",")]).unwrap(), strs(&["a", "b", "c"]));
}

#[test]
fn str_split_keyword_and_errors() {
    assert_eq!(
        call_kw("a-b-c", "split", &[], &[("sep", s("-")), ("maxsplit", Value::Int(1))]).unwrap(),
        strs(&["a", "b-c"])
    );
    assert_eq!(value_msg(call("abc", "split", &[s("")])), "empty separator");
    assert_eq!(type_msg(call("abc", "split", &[Value::Int(3)])), "must be str or None, not other type");
    assert_eq!(type_msg(call_kw("abc", "split", &[], &[("bogus", Value::Int(1))])),
        "split() got an unexpected keyword argument 'bogus'");
    assert_eq!(type_msg(call_kw("abc", "upper", &[], &[("x", Value::Int(1))])),
        "upper() got an unexpected keyword argument 'x'");
}

#[test]
fn str_split_then_join_roundtrip() {
    let parts = call("x--y----z", "split", &[s("--")]).unwrap();
    assert_eq!(call("--", "join", &[parts]).unwrap(), s("x--y----z"));
    assert_eq!(call(", ", "join", &[strs(&["a", "b"])]).unwrap(), s("a, b"));
    assert_eq!(call("", "join", &[s("xyz")]).unwrap(), s("xyz"));
    assert_eq!(type_msg(call(",", "join", &[Value::List(vec![s("a"), Value::Int(1)])])),
        "sequence item: expected str, found 'int'");
    assert_eq!(type_msg(call(",", "join", &[Value::Int(1)])), "'int' object is not iterable");
    assert_eq!(type_msg(call(",", "join", &[])), "join() takes exactly one argument");
}

#[test]
fn str_replace_with_and_without_count() {
    assert_eq!(call("aaaa", "replace", &[s("a"), s("b")]).unwrap(), s("bbbb"));
    assert_eq!(call("aaaa", "replace", &[s("a"), s("b"), Value::Int(2)]).unwrap(), s("bbaa"));
    assert_eq!(call("abc", "replace", &[s(""), s("-")]).unwrap(), s("-a-b-c-"));
    assert_eq!(call("abc", "replace", &[s(""), s("-"), Value::Int(2)]).unwrap(), s("-a-bc"));
    assert_eq!(type_msg(call("abc", "replace", &[s("a")])), "replace() takes 2 or 3 arguments");
    assert_eq!(type_msg(call("abc", "replace", &[s("a"), Value::Int(1)])), "replace() argument must be str");
}

#[test]
fn str_strip_family() {
    assert_eq!(call("  hi \t\n", "strip", &[]).unwrap(), s("hi"));
    assert_eq!(call("xxhixx", "lstrip", &[s("x")]).unwrap(), s("hixx"));
    assert_eq!(call("xxhixy", "rstrip", &[s("xy")]).unwrap(), s("xxhi"));
    assert_eq!(type_msg(call("x", "strip", &[Value::Int(1)])), "strip arg must be None or str");
}

#[test]
fn str_search_and_count() {
    assert_eq!(call("héllo héllo", "find", &[s("llo")]).unwrap(), Value::Int(2));
    assert_eq!(call("héllo héllo", "rfind", &[s("llo")]).unwrap(), Value::Int(8));
    assert_eq!(call("abc", "find", &[s("z")]).unwrap(), Value::Int(-1));
    assert_eq!(call("abcabc", "find", &[s("a"), Value::Int(1)]).unwrap(), Value::Int(3));
    assert_eq!(call("abcabc", "find", &[s("c"), Value::Int(-2)]).unwrap(), Value::Int(5));
    assert_eq!(call("aaaa", "count", &[s("aa")]).unwrap(), Value::Int(2));
    assert_eq!(call("abc", "count", &[s("")]).unwrap(), Value::Int(4));
    match call("abc", "index", &[s("z")]) {
        Err(EvalError::Exception(x)) => {
            assert_eq!(x.class_name, "ValueError");
            assert_eq!(x.message, "substring not found");
        }
        other => panic!("unexpected {:?}", other),
    }
    assert_eq!(type_msg(call("abc", "find", &[])), "find() takes at least 1 argument");
}

#[test]
fn str_affix_tests() {
    assert_eq!(call("hello", "startswith", &[s("he")]).unwrap(), Value::Bool(true));
    assert_eq!(call("hello", "endswith", &[Value::Tuple(vec![s("x"), s("lo")])]).unwrap(), Value::Bool(true));
    assert_eq!(call("hello", "startswith", &[s("ll"), Value::Int(2)]).unwrap(), Value::Bool(true));
    assert_eq!(type_msg(call("hello", "startswith", &[Value::Tuple(vec![Value::Int(1)])])),
        "tuple for startswith() must only contain str");
}

#[test]
fn str_partition_and_affix_removal() {
    assert_eq!(call("a=b=c", "partition", &[s("=")]).unwrap(), Value::Tuple(vec![s("a"), s("="), s("b=c")]));
    assert_eq!(call("a=b=c", "rpartition", &[s("=")]).unwrap(), Value::Tuple(vec![s("a=b"), s("="), s("c")]));
    assert_eq!(call("abc", "partition", &[s("x")]).unwrap(), Value::Tuple(vec![s("abc"), s(""), s("")]));
    assert_eq!(call("abc", "rpartition", &[s("x")]).unwrap(), Value::Tuple(vec![s(""), s(""), s("abc")]));
    assert_eq!(call("prefix_x", "removeprefix", &[s("prefix_")]).unwrap(), s("x"));
    assert_eq!(call("x.py", "removesuffix", &[s(".rs")]).unwrap(), s("x.py"));
    assert_eq!(type_msg(call("x", "partition", &[])), "partition() requires 1 argument");
}

#[test]
fn str_case_and_classes() {
    assert_eq!(call("Hello World", "upper", &[]).unwrap(), s("HELLO WORLD"));
    assert_eq!(call("Straße", "casefold", &[]).unwrap(), s("strasse"));
    assert_eq!(call("hello wORLD-x", "title", &[]).unwrap(), s("Hello World-X"));
    assert_eq!(call("hELLO", "capitalize", &[]).unwrap(), s("Hello"));
    assert_eq!(call("aBc", "swapcase", &[]).unwrap(), s("AbC"));
    assert_eq!(call("123", "isdigit", &[]).unwrap(), Value::Bool(true));
    assert_eq!(call("", "isdigit", &[]).unwrap(), Value::Bool(false));
    assert_eq!(call("ABC1", "isupper", &[]).unwrap(), Value::Bool(true));
    assert_eq!(call(" \t", "isspace", &[]).unwrap(), Value::Bool(true));
}

#[test]
fn str_padding() {
    assert_eq!(call("ab", "center", &[Value::Int(5), s("*")]).unwrap(), s("**ab*"));
    assert_eq!(call("ab", "center", &[Value::Int(3)]).unwrap(), s(" ab"));
    assert_eq!(call("abc", "center", &[Value::Int(6)]).unwrap(), s(" abc  "));
    assert_eq!(call("ab", "center", &[Value::Int(6), s("-")]).unwrap(), s("--ab--"));
    assert_eq!(call("ab", "ljust", &[Value::Int(4)]).unwrap(), s("ab  "));
    assert_eq!(call("ab", "rjust", &[Value::Int(4), s("0")]).unwrap(), s("00ab"));
    assert_eq!(call("-42", "zfill", &[Value::Int(6)]).unwrap(), s("-00042"));
    assert_eq!(call("abc", "zfill", &[Value::Int(2)]).unwrap(), s("abc"));
    match call("ab", "center", &[Value::Int(-1)]) {
        Err(EvalError::Interpreter(InterpreterError::Runtime(m))) => assert_eq!(m, "index overflow or negative"),
        other => panic!("unexpected {:?}", other),
    }
    assert_eq!(type_msg(call("ab", "zfill", &[])), "zfill() takes exactly 1 argument");
}

#[test]
fn str_encode_and_expandtabs() {
    assert_eq!(call("hé", "encode", &[]).unwrap(), Value::Bytes(vec![0x68, 0xC3, 0xA9]));
    assert_eq!(call("hé", "encode", &[s("latin-1")]).unwrap(), Value::Bytes(vec![0x68, 0xE9]));
    match call("hé", "encode", &[s("ASCII")]) {
        Err(EvalError::Exception(x)) => assert_eq!(x.class_name, "UnicodeEncodeError"),
        other => panic!("unexpected {:?}", other),
    }
    assert_eq!(value_msg(call("x", "encode", &[s("EBCDIC")])), "unknown encoding: ebcdic");
    assert_eq!(call("a\tbc\td", "expandtabs", &[Value::Int(4)]).unwrap(), s("a   bc  d"));
    assert_eq!(call("a\tb", "expandtabs", &[]).unwrap(), s("a       b"));
    assert_eq!(call_kw("x\ny\tz", "expandtabs", &[], &[("tabsize", Value::Int(2))]).unwrap(), s("x\ny z"));
}

#[test]
fn str_unknown_method() {
    match call("x", "frobnicate", &[]) {
        Err(EvalError::Interpreter(InterpreterError::AttributeError(m))) => {
            assert_eq!(m, "'str' object has no attribute 'frobnicate'")
        }
        other => panic!("unexpected {:?}", other),
    }
}

#[test]
fn str_encode_then_bytes_decode_roundtrip() {
    let enc = call("naïve ☺", "encode", &[]).unwrap();
    let raw = match enc {
        Value::Bytes(b) => b,
        other => panic!("unexpected {:?}", other),
    };
    let back = interpretthis::bytes_methods::dispatch_bytes_method(&raw, "decode", &[], &IndexMap::new()).unwrap();
    assert_eq!(back, s("naïve ☺"));
}

#[test]
fn str_unicode_classes_and_lower() {
    assert_eq!(call("ÀÉ", "lower", &[]).unwrap(), s("àé"));
    assert_eq!(call("Δx", "isalpha", &[]).unwrap(), Value::Bool(true));
    assert_eq!(call("a1", "isalpha", &[]).unwrap(), Value::Bool(false));
    assert_eq!(call("ab1", "isalnum", &[]).unwrap(), Value::Bool(true));
    assert_eq!(call("abc", "islower", &[]).unwrap(), Value::Bool(true));
    assert_eq!(call("aBc", "islower", &[]).unwrap(), Value::Bool(false));
}
