use interpretthis::error::{EvalError, InterpreterError};
use interpretthis::int_bytes::WideInt;
use interpretthis::unparse::{
    unparse_expr, BoolOp, CmpOp, CompareStep, Comprehension, Constant, Conversion, DictItem, Expr, Keyword,
    LambdaArgs, Operator, Param, UnaryOp,
};

fn name(n: &str) -> Expr {
    Expr::Name(n.to_string())
}

fn lit(i: i64) -> Expr {
    Expr::Constant(Constant::Int(WideInt::Small(i)))
}

fn text(e: &Expr) -> String {
    unparse_expr(e).unwrap()
}

fn type_error(e: &Expr) -> String {
    match unparse_expr(e) {
        Err(EvalError::Interpreter(InterpreterError::TypeError(m))) => m,
        other => panic!("expected TypeError, got {:?}", other.map(|_| ())),
    }
}

#[test]
fn unparse_constants() {
    assert_eq!(text(&Expr::Constant(Constant::PyNone)), "None");
    assert_eq!(text(&Expr::Constant(Constant::Bool(true))), "True");
    assert_eq!(text(&lit(42)), "42");
    assert_eq!(text(&lit(i64::MIN)), "-9223372036854775808");
    assert_eq!(
        text(&Expr::Constant(Constant::Int(WideInt::Large(false, vec![1, 0, 0, 0, 0, 0, 0, 0, 0])))),
        "18446744073709551616"
    );
    assert_eq!(text(&Expr::Constant(Constant::Int(WideInt::Large(true, vec![0, 0])))), "0");
    assert_eq!(text(&Expr::Constant(Constant::Float("2.0".to_string()))), "2.0");
    assert_eq!(text(&Expr::Constant(Constant::Str("it's a \\ b".to_string()))), "'it\\'s a \\\\ b'");
    assert_eq!(text(&Expr::Constant(Constant::Bytes(b"ab".to_vec()))), "b'ab'");
    assert_eq!(text(&Expr::Constant(Constant::Bytes(vec![0x61, 0xff, b'\'', b'\n', 0]))), "b'a\\xff\\'\\n\\x00'");
    assert_eq!(text(&Expr::Constant(Constant::Str("a\nb\t\r\u{1}\u{7f}\u{85}é".to_string()))), "'a\\nb\\t\\r\\x01\\x7f\\x85é'");
    assert_eq!(text(&Expr::Constant(Constant::Ellipsis)), "...");
    assert_eq!(
        text(&Expr::Constant(Constant::Tuple(vec![Constant::Int(WideInt::Small(1)), Constant::PyNone]))),
        "(1, None)"
    );
    assert_eq!(text(&Expr::Constant(Constant::Complex("0".to_string(), "1".to_string()))), "complex(0, 1)");
}

#[test]
fn unparse_containers_and_operators() {
    assert_eq!(text(&Expr::List(vec![lit(1), lit(2)])), "[1, 2]");
    assert_eq!(text(&Expr::Tuple(vec![lit(1)])), "(1,)");
    assert_eq!(text(&Expr::Tuple(vec![])), "()");
    assert_eq!(text(&Expr::SetDisplay(vec![lit(3)])), "{3}");
    assert_eq!(
        text(&Expr::Dict(vec![
            DictItem { key: Some(Expr::Constant(Constant::Str("a".to_string()))), value: lit(1) },
            DictItem { key: None, value: name("rest") },
        ])),
        "{'a': 1, **rest}"
    );
    assert_eq!(text(&Expr::UnaryOp(UnaryOp::USub, Box::new(lit(5)))), "-5");
    assert_eq!(text(&Expr::UnaryOp(UnaryOp::Not, Box::new(name("x")))), "not x");
    assert_eq!(text(&Expr::BinOp(Box::new(lit(1)), Operator::FloorDiv, Box::new(name("y")))), "(1 // y)");
    assert_eq!(text(&Expr::BoolOp(BoolOp::Or, vec![name("a"), name("b"), name("c")])), "(a or b or c)");
    assert_eq!(
        text(&Expr::Compare(
            Box::new(name("a")),
            vec![
                CompareStep { op: CmpOp::Lt, right: name("b") },
                CompareStep { op: CmpOp::NotIn, right: name("c") },
            ]
        )),
        "(a < b not in c)"
    );
    assert_eq!(
        text(&Expr::IfExp(Box::new(lit(1)), Box::new(name("t")), Box::new(lit(2)))),
        "(1 if t else 2)"
    );
    assert_eq!(text(&Expr::Attribute(Box::new(name("os")), "sep".to_string())), "os.sep");
    assert_eq!(
        text(&Expr::Subscript(
            Box::new(name("xs")),
            Box::new(Expr::Slice(Some(Box::new(lit(1))), None, Some(Box::new(lit(2)))))
        )),
        "xs[1::2]"
    );
    assert_eq!(text(&Expr::Slice(None, Some(Box::new(lit(3))), None)), ":3");
    assert_eq!(text(&Expr::Starred(Box::new(name("args")))), "*args");
}

#[test]
fn unparse_calls_lambdas_and_comprehensions() {
    assert_eq!(
        text(&Expr::Call(
            Box::new(name("f")),
            vec![lit(1)],
            vec![
                Keyword { arg: Some("k".to_string()), value: lit(2) },
                Keyword { arg: None, value: name("kw") },
            ]
        )),
        "f(1, k=2, **kw)"
    );
    assert_eq!(text(&Expr::Call(Box::new(name("g")), vec![], vec![])), "g()");
    let params = LambdaArgs {
        args: vec![Param { name: "x".to_string(), default: None }, Param { name: "y".to_string(), default: Some(lit(1)) }],
        vararg: Some("rest".to_string()),
        kwonly: vec![Param { name: "z".to_string(), default: None }],
        kwarg: Some("kw".to_string()),
    };
    assert_eq!(text(&Expr::Lambda(params, Box::new(name("x")))), "lambda x, y, *rest, z, **kw: x");
    let gen = Comprehension { target: name("i"), iter: name("xs"), ifs: vec![name("i"), name("ok")] };
    assert_eq!(text(&Expr::ListComp(Box::new(name("i")), vec![gen])), "[i for i in xs if i if ok]");
    let gen = Comprehension { target: name("k"), iter: name("d"), ifs: vec![] };
    assert_eq!(
        text(&Expr::DictComp(Box::new(name("k")), Box::new(lit(0)), vec![gen])),
        "{k: 0 for k in d}"
    );
}

#[test]
fn unparse_fstrings_and_failures() {
    let fs = Expr::JoinedStr(vec![
        Expr::Constant(Constant::Str("a{\"".to_string())),
        Expr::FormattedValue(
            Box::new(name("x")),
            Conversion::Repr,
            Some(Box::new(Expr::JoinedStr(vec![
                Expr::Constant(Constant::Str(">".to_string())),
                Expr::FormattedValue(Box::new(name("w")), Conversion::NoConversion, None),
            ]))),
        ),
    ]);
    assert_eq!(text(&fs), "f\"a{{\\\"{x!r:>{w}}\"");
    let fs = Expr::JoinedStr(vec![Expr::Constant(Constant::Str("x\\y\n".to_string()))]);
    assert_eq!(text(&fs), "f\"x\\\\y\\n\"");
    assert_eq!(
        type_error(&Expr::Other("Await".to_string())),
        "unsupported default argument expression (see CONFORMANCE.md#unsupported-language-features): Await"
    );
    assert_eq!(
        type_error(&Expr::JoinedStr(vec![Expr::Other("Yield".to_string())])),
        "unsupported f-string default component (see CONFORMANCE.md#unsupported-language-features): Yield"
    );
    assert_eq!(
        type_error(&Expr::List(vec![lit(1), Expr::Other("Await".to_string()), Expr::Other("Yield".to_string())])),
        "unsupported default argument expression (see CONFORMANCE.md#unsupported-language-features): Await"
    );
    let params = LambdaArgs {
        args: vec![Param { name: "x".to_string(), default: Some(Expr::Other("NamedExpr".to_string())) }],
        vararg: None,
        kwonly: vec![],
        kwarg: None,
    };
    assert!(unparse_expr(&Expr::Lambda(params, Box::new(lit(1)))).is_err());
}
