//! Turning a default-value expression back into Python source text, so that
//! a function's defaults can be stored as text and evaluated afresh at each
//! call. Expressions that cannot be written back fail with `TypeError`.

use vstd::prelude::*;
use crate::error::{EvalError, is_type_error, type_error, decimal, decimal_chars, digit_char, digit_to_char};
use crate::int_bytes::{WideInt, wide_value, be_value, lemma_be_value_zeros};
use crate::wide_methods::divmod10;
use crate::text::{str_to_string, push_char};

verus! {

// ---------------------------------------------------------------------------
// The expression tree
// ---------------------------------------------------------------------------

/// A literal constant.
pub enum Constant {
    PyNone,
    Bool(bool),
    Int(WideInt),
    /// A float literal, held as the text its value renders to (one decimal
    /// place when it is integral, else its shortest round-trip form).
    Float(String),
    Str(String),
    Bytes(Vec<u8>),
    Ellipsis,
    Tuple(Vec<Constant>),
    /// A complex literal, held as the texts of its real and imaginary parts.
    Complex(String, String),
}

pub enum UnaryOp {
    USub,
    UAdd,
    Not,
    Invert,
}

pub enum Operator {
    Add,
    Sub,
    Mult,
    Div,
    FloorDiv,
    Mod,
    Pow,
    LShift,
    RShift,
    BitOr,
    BitXor,
    BitAnd,
    MatMult,
}

pub enum BoolOp {
    And,
    Or,
}

pub enum CmpOp {
    Eq,
    NotEq,
    Lt,
    LtE,
    Gt,
    GtE,
    Is,
    IsNot,
    In,
    NotIn,
}

/// The conversion flag of an f-string field (`!s`, `!r`, `!a`).
pub enum Conversion {
    NoConversion,
    Str,
    Repr,
    Ascii,
}

/// One `for target in iter if cond ...` clause of a comprehension.
pub struct Comprehension {
    pub target: Expr,
    pub iter: Expr,
    pub ifs: Vec<Expr>,
}

/// One entry of a dict display: `key: value`, or `**value` without a key.
pub struct DictItem {
    pub key: Option<Expr>,
    pub value: Expr,
}

/// One keyword argument of a call: `name=value`, or `**value` without a name.
pub struct Keyword {
    pub arg: Option<String>,
    pub value: Expr,
}

/// One comparison after the first operand: the operator and its right side.
pub struct CompareStep {
    pub op: CmpOp,
    pub right: Expr,
}

/// A parameter of a lambda, with its default where it has one.
pub struct Param {
    pub name: String,
    pub default: Option<Expr>,
}

/// The parameters of a lambda: the positional ones (positional-only first),
/// `*args`, the keyword-only ones and `**kwargs`.
pub struct LambdaArgs {
    pub args: Vec<Param>,
    pub vararg: Option<String>,
    pub kwonly: Vec<Param>,
    pub kwarg: Option<String>,
}

/// An expression.
pub enum Expr {
    Constant(Constant),
    Name(String),
    /// An f-string: literal text (string constants) and fields.
    JoinedStr(Vec<Expr>),
    /// A field of an f-string: its expression, conversion and format spec.
    FormattedValue(Box<Expr>, Conversion, Option<Box<Expr>>),
    List(Vec<Expr>),
    ListComp(Box<Expr>, Vec<Comprehension>),
    SetComp(Box<Expr>, Vec<Comprehension>),
    GeneratorExp(Box<Expr>, Vec<Comprehension>),
    DictComp(Box<Expr>, Box<Expr>, Vec<Comprehension>),
    SetDisplay(Vec<Expr>),
    Tuple(Vec<Expr>),
    Dict(Vec<DictItem>),
    UnaryOp(UnaryOp, Box<Expr>),
    BinOp(Box<Expr>, Operator, Box<Expr>),
    BoolOp(BoolOp, Vec<Expr>),
    Compare(Box<Expr>, Vec<CompareStep>),
    /// `body if test else orelse`, held as body, test, orelse.
    IfExp(Box<Expr>, Box<Expr>, Box<Expr>),
    Attribute(Box<Expr>, String),
    Subscript(Box<Expr>, Box<Expr>),
    /// `lower:upper` or `lower:upper:step`.
    Slice(Option<Box<Expr>>, Option<Box<Expr>>, Option<Box<Expr>>),
    Starred(Box<Expr>),
    Lambda(LambdaArgs, Box<Expr>),
    Call(Box<Expr>, Vec<Expr>, Vec<Keyword>),
    /// Any other kind of expression (a walrus, `yield`, `await`, ...), held
    /// as the name that the error message gives its kind.
    Other(String),
}

// ---------------------------------------------------------------------------
// Text helpers
// ---------------------------------------------------------------------------

/// The views of a sequence of strings.
pub open spec fn texts(v: Seq<String>) -> Seq<Seq<char>> {
    Seq::new(v.len(), |i: int| v[i]@)
}

/// The parts joined by `sep`.
pub open spec fn joined(parts: Seq<Seq<char>>, sep: Seq<char>) -> Seq<char>
    decreases parts.len(),
{
    if parts.len() == 0 {
        Seq::empty()
    } else if parts.len() == 1 {
        parts[0]
    } else {
        joined(parts.drop_last(), sep) + sep + parts.last()
    }
}

/// `p` put before the parts of a successful result.
pub open spec fn after_prefix(p: Seq<Seq<char>>, r: Result<Seq<Seq<char>>, Seq<char>>) -> Result<Seq<Seq<char>>, Seq<char>> {
    match r {
        Ok(q) => Ok(p + q),
        Err(m) => Err(m),
    }
}

/// The text of an integer in decimal.
pub open spec fn int_text(n: int) -> Seq<char> {
    if n < 0 { "-"@ + decimal((-n) as nat) } else { decimal(n as nat) }
}

/// Two lower-case hex digits of a value below 256.
pub open spec fn hex2(n: nat) -> Seq<char> {
    seq![digit_char(n / 16), digit_char(n % 16)]
}

/// The C0 and C1 control characters and DEL, which a literal writes as
/// escapes.
pub open spec fn is_control(c: char) -> bool {
    (c as u32) < 32 || (127 <= (c as u32) && (c as u32) <= 159)
}

/// A character as it stands inside a quoted literal: backslash doubled,
/// tab, newline and carriage return by their letters, other control
/// characters as `\xhh`.
pub open spec fn char_escape(c: char) -> Seq<char> {
    if c == '\\' {
        "\\\\"@
    } else if c == '\t' {
        "\\t"@
    } else if c == '\n' {
        "\\n"@
    } else if c == '\r' {
        "\\r"@
    } else if is_control(c) {
        "\\x"@ + hex2((c as u32) as nat)
    } else {
        seq![c]
    }
}

/// A character escaped for a single-quoted literal.
pub open spec fn quote_escape(c: char) -> Seq<char> {
    if c == '\'' { "\\'"@ } else { char_escape(c) }
}

/// Text escaped for a single-quoted literal, as Python's `repr` writes it
/// for its ASCII and control characters.
pub open spec fn quote_escaped(s: Seq<char>) -> Seq<char>
    decreases s.len(),
{
    if s.len() == 0 { Seq::empty() } else { quote_escaped(s.drop_last()) + quote_escape(s.last()) }
}

/// A character escaped for the literal text of a double-quoted f-string.
pub open spec fn fstring_escape(c: char) -> Seq<char> {
    if c == '{' { "{{"@ } else if c == '}' { "}}"@ } else if c == '"' { "\\\""@ } else { char_escape(c) }
}

/// Literal f-string text escaped: braces doubled, double quotes and
/// backslashes escaped, control characters written as escapes.
pub open spec fn fstring_escaped(s: Seq<char>) -> Seq<char>
    decreases s.len(),
{
    if s.len() == 0 { Seq::empty() } else { fstring_escaped(s.drop_last()) + fstring_escape(s.last()) }
}

/// A byte as it stands inside a single-quoted bytes literal, as Python's
/// `repr` writes it: printable ASCII as itself, backslash and quote
/// escaped, tab, newline and carriage return by their letters, every other
/// byte as `\xhh`.
pub open spec fn byte_escape(b: u8) -> Seq<char> {
    if b == 92 {
        "\\\\"@
    } else if b == 39 {
        "\\'"@
    } else if b == 9 {
        "\\t"@
    } else if b == 10 {
        "\\n"@
    } else if b == 13 {
        "\\r"@
    } else if 32 <= b < 127 {
        seq![b as char]
    } else {
        "\\x"@ + hex2(b as nat)
    }
}

/// Bytes written as the inside of a single-quoted bytes literal.
pub open spec fn bytes_escaped(b: Seq<u8>) -> Seq<char>
    decreases b.len(),
{
    if b.len() == 0 { Seq::empty() } else { bytes_escaped(b.drop_last()) + byte_escape(b.last()) }
}

pub open spec fn unsupported_msg(kind: Seq<char>) -> Seq<char> {
    "unsupported default argument expression (see CONFORMANCE.md#unsupported-language-features): "@ + kind
}

pub open spec fn unsupported_fstring_msg(kind: Seq<char>) -> Seq<char> {
    "unsupported f-string default component (see CONFORMANCE.md#unsupported-language-features): "@ + kind
}

/// The name that an error message gives the kind of `e`.
pub open spec fn kind_name(e: Expr) -> Seq<char> {
    match e {
        Expr::Other(t) => t@,
        Expr::Constant(_) => "Constant"@,
        Expr::Name(_) => "Name"@,
        Expr::JoinedStr(_) => "JoinedStr"@,
        Expr::FormattedValue(..) => "FormattedValue"@,
        Expr::List(_) => "List"@,
        Expr::ListComp(..) => "ListComp"@,
        Expr::SetComp(..) => "SetComp"@,
        Expr::GeneratorExp(..) => "GeneratorExp"@,
        Expr::DictComp(..) => "DictComp"@,
        Expr::SetDisplay(_) => "Set"@,
        Expr::Tuple(_) => "Tuple"@,
        Expr::Dict(_) => "Dict"@,
        Expr::UnaryOp(..) => "UnaryOp"@,
        Expr::BinOp(..) => "BinOp"@,
        Expr::BoolOp(..) => "BoolOp"@,
        Expr::Compare(..) => "Compare"@,
        Expr::IfExp(..) => "IfExp"@,
        Expr::Attribute(..) => "Attribute"@,
        Expr::Subscript(..) => "Subscript"@,
        Expr::Slice(..) => "Slice"@,
        Expr::Starred(_) => "Starred"@,
        Expr::Lambda(..) => "Lambda"@,
        Expr::Call(..) => "Call"@,
    }
}

pub open spec fn unary_text(op: UnaryOp) -> Seq<char> {
    match op {
        UnaryOp::USub => "-"@,
        UnaryOp::UAdd => "+"@,
        UnaryOp::Not => "not "@,
        UnaryOp::Invert => "~"@,
    }
}

pub open spec fn operator_text(op: Operator) -> Seq<char> {
    match op {
        Operator::Add => "+"@,
        Operator::Sub => "-"@,
        Operator::Mult => "*"@,
        Operator::Div => "/"@,
        Operator::FloorDiv => "//"@,
        Operator::Mod => "%"@,
        Operator::Pow => "**"@,
        Operator::LShift => "<<"@,
        Operator::RShift => ">>"@,
        Operator::BitOr => "|"@,
        Operator::BitXor => "^"@,
        Operator::BitAnd => "&"@,
        Operator::MatMult => "@"@,
    }
}

pub open spec fn bool_op_text(op: BoolOp) -> Seq<char> {
    match op {
        BoolOp::And => " and "@,
        BoolOp::Or => " or "@,
    }
}

pub open spec fn cmp_text(op: CmpOp) -> Seq<char> {
    match op {
        CmpOp::Eq => "=="@,
        CmpOp::NotEq => "!="@,
        CmpOp::Lt => "<"@,
        CmpOp::LtE => "<="@,
        CmpOp::Gt => ">"@,
        CmpOp::GtE => ">="@,
        CmpOp::Is => "is"@,
        CmpOp::IsNot => "is not"@,
        CmpOp::In => "in"@,
        CmpOp::NotIn => "not in"@,
    }
}

pub open spec fn conversion_text(c: Conversion) -> Seq<char> {
    match c {
        Conversion::NoConversion => Seq::empty(),
        Conversion::Str => "!s"@,
        Conversion::Repr => "!r"@,
        Conversion::Ascii => "!a"@,
    }
}

// ---------------------------------------------------------------------------
// What unparsing gives
// ---------------------------------------------------------------------------

/// The source text of a constant.
pub open spec fn spec_constant(c: Constant) -> Seq<char>
    decreases c, 0int,
{
    match c {
        Constant::PyNone => "None"@,
        Constant::Bool(b) => if b { "True"@ } else { "False"@ },
        Constant::Int(w) => int_text(wide_value(w)),
        Constant::Float(t) => t@,
        Constant::Str(s) => "'"@ + quote_escaped(s@) + "'"@,
        Constant::Bytes(b) => "b'"@ + bytes_escaped(b@) + "'"@,
        Constant::Ellipsis => "..."@,
        Constant::Tuple(items) => "("@ + joined(spec_constants(items@), ", "@) + ")"@,
        Constant::Complex(re, im) => "complex("@ + re@ + ", "@ + im@ + ")"@,
    }
}

pub open spec fn spec_constants(cs: Seq<Constant>) -> Seq<Seq<char>>
    decreases cs, 1int,
{
    if cs.len() == 0 { Seq::empty() } else { seq![spec_constant(cs[0])] + spec_constants(cs.drop_first()) }
}

/// `s` put between `open` and `close`, where it succeeded.
pub open spec fn wrap(open: Seq<char>, s: Result<Seq<char>, Seq<char>>, close: Seq<char>) -> Result<Seq<char>, Seq<char>> {
    match s {
        Ok(t) => Ok(open + t + close),
        Err(m) => Err(m),
    }
}

/// The parts joined by `sep`, where they all succeeded.
pub open spec fn join_ok(r: Result<Seq<Seq<char>>, Seq<char>>, sep: Seq<char>) -> Result<Seq<char>, Seq<char>> {
    match r {
        Ok(p) => Ok(joined(p, sep)),
        Err(m) => Err(m),
    }
}

/// Two results in order: the first failure, or both texts.
pub open spec fn both(a: Result<Seq<char>, Seq<char>>, b: Result<Seq<char>, Seq<char>>) -> Result<(Seq<char>, Seq<char>), Seq<char>> {
    match a {
        Err(m) => Err(m),
        Ok(x) => match b {
            Err(m) => Err(m),
            Ok(y) => Ok((x, y)),
        },
    }
}

/// The source text of an expression, or the message of the `TypeError`.
pub open spec fn spec_unparse(e: Expr) -> Result<Seq<char>, Seq<char>>
    decreases e, 0int,
{
    match e {
        Expr::Constant(c) => Ok(spec_constant(c)),
        Expr::Name(n) => Ok(n@),
        Expr::JoinedStr(vs) => wrap("f\""@, join_ok(spec_fparts(vs@), Seq::empty()), "\""@),
        Expr::List(es) => wrap("["@, join_ok(spec_parts(es@), ", "@), "]"@),
        Expr::ListComp(elt, gs) => match both(spec_unparse(*elt), join_ok(spec_clauses(gs@), " "@)) {
            Ok((x, g)) => Ok("["@ + x + " "@ + g + "]"@),
            Err(m) => Err(m),
        },
        Expr::SetComp(elt, gs) => match both(spec_unparse(*elt), join_ok(spec_clauses(gs@), " "@)) {
            Ok((x, g)) => Ok("{"@ + x + " "@ + g + "}"@),
            Err(m) => Err(m),
        },
        Expr::GeneratorExp(elt, gs) => match both(spec_unparse(*elt), join_ok(spec_clauses(gs@), " "@)) {
            Ok((x, g)) => Ok("("@ + x + " "@ + g + ")"@),
            Err(m) => Err(m),
        },
        Expr::DictComp(k, v, gs) => match both(spec_unparse(*k), spec_unparse(*v)) {
            Err(m) => Err(m),
            Ok((ks, vs)) => match join_ok(spec_clauses(gs@), " "@) {
                Err(m) => Err(m),
                Ok(g) => Ok("{"@ + ks + ": "@ + vs + " "@ + g + "}"@),
            },
        },
        Expr::SetDisplay(es) => wrap("{"@, join_ok(spec_parts(es@), ", "@), "}"@),
        Expr::Tuple(es) => match spec_parts(es@) {
            Err(m) => Err(m),
            Ok(p) => if p.len() == 1 { Ok("("@ + p[0] + ",)"@) } else { Ok("("@ + joined(p, ", "@) + ")"@) },
        },
        Expr::Dict(items) => wrap("{"@, join_ok(spec_dict_parts(items@), ", "@), "}"@),
        Expr::UnaryOp(op, x) => wrap(unary_text(op), spec_unparse(*x), Seq::empty()),
        Expr::BinOp(l, op, r) => match both(spec_unparse(*l), spec_unparse(*r)) {
            Ok((a, b)) => Ok("("@ + a + " "@ + operator_text(op) + " "@ + b + ")"@),
            Err(m) => Err(m),
        },
        Expr::BoolOp(op, vs) => wrap("("@, join_ok(spec_parts(vs@), bool_op_text(op)), ")"@),
        Expr::Compare(l, steps) => match both(spec_unparse(*l), join_ok(spec_compare_parts(steps@), Seq::empty())) {
            Ok((a, t)) => Ok("("@ + a + t + ")"@),
            Err(m) => Err(m),
        },
        Expr::IfExp(body, test, orelse) => match both(spec_unparse(*body), spec_unparse(*test)) {
            Err(m) => Err(m),
            Ok((b, t)) => wrap("("@ + b + " if "@ + t + " else "@, spec_unparse(*orelse), ")"@),
        },
        Expr::Attribute(v, attr) => wrap(Seq::empty(), spec_unparse(*v), "."@ + attr@),
        Expr::Subscript(v, s) => match both(spec_unparse(*v), spec_unparse(*s)) {
            Ok((a, b)) => Ok(a + "["@ + b + "]"@),
            Err(m) => Err(m),
        },
        Expr::Slice(lo, hi, step) => match both(spec_part(lo), spec_part(hi)) {
            Err(m) => Err(m),
            Ok((a, b)) => match step {
                Some(st) => wrap(a + ":"@ + b + ":"@, spec_unparse(*st), Seq::empty()),
                None => Ok(a + ":"@ + b),
            },
        },
        Expr::Starred(v) => wrap("*"@, spec_unparse(*v), Seq::empty()),
        Expr::Lambda(params, body) => match spec_lambda_names(params) {
            Err(m) => Err(m),
            Ok(names) => wrap("lambda "@ + joined(names, ", "@) + ": "@, spec_unparse(*body), Seq::empty()),
        },
        Expr::Call(f, args, kws) => match spec_unparse(*f) {
            Err(m) => Err(m),
            Ok(ft) => match spec_parts(args@) {
                Err(m) => Err(m),
                Ok(a) => match spec_keyword_parts(kws@) {
                    Err(m) => Err(m),
                    Ok(k) => Ok(ft + "("@ + joined(a + k, ", "@) + ")"@),
                },
            },
        },
        Expr::FormattedValue(..) => Err(unsupported_msg(kind_name(e))),
        Expr::Other(t) => Err(unsupported_msg(t@)),
    }
}

/// An optional part of a slice: its text, or nothing.
pub open spec fn spec_part(o: Option<Box<Expr>>) -> Result<Seq<char>, Seq<char>>
    decreases o, 0int,
{
    match o {
        Some(x) => spec_unparse(*x),
        None => Ok(Seq::empty()),
    }
}

/// Each expression's text in order, or the first failure.
pub open spec fn spec_parts(es: Seq<Expr>) -> Result<Seq<Seq<char>>, Seq<char>>
    decreases es, 1int,
{
    if es.len() == 0 {
        Ok(Seq::empty())
    } else {
        match spec_unparse(es[0]) {
            Err(m) => Err(m),
            Ok(s) => after_prefix(seq![s], spec_parts(es.drop_first())),
        }
    }
}

/// One comprehension clause: `for t in i`, then ` if c` for each condition.
pub open spec fn spec_clause(g: Comprehension) -> Result<Seq<char>, Seq<char>>
    decreases g, 0int,
{
    match both(spec_unparse(g.target), spec_unparse(g.iter)) {
        Err(m) => Err(m),
        Ok((t, i)) => match spec_parts(g.ifs@) {
            Err(m) => Err(m),
            Ok(cs) => Ok("for "@ + t + " in "@ + i + prefixed(cs, " if "@)),
        },
    }
}

/// Each part with `pre` before it, run together.
pub open spec fn prefixed(parts: Seq<Seq<char>>, pre: Seq<char>) -> Seq<char>
    decreases parts.len(),
{
    if parts.len() == 0 { Seq::empty() } else { prefixed(parts.drop_last(), pre) + pre + parts.last() }
}

pub open spec fn spec_clauses(gs: Seq<Comprehension>) -> Result<Seq<Seq<char>>, Seq<char>>
    decreases gs, 1int,
{
    if gs.len() == 0 {
        Ok(Seq::empty())
    } else {
        match spec_clause(gs[0]) {
            Err(m) => Err(m),
            Ok(s) => after_prefix(seq![s], spec_clauses(gs.drop_first())),
        }
    }
}

pub open spec fn spec_dict_item(d: DictItem) -> Result<Seq<char>, Seq<char>>
    decreases d, 0int,
{
    match d.key {
        None => wrap("**"@, spec_unparse(d.value), Seq::empty()),
        Some(k) => match both(spec_unparse(k), spec_unparse(d.value)) {
            Ok((a, b)) => Ok(a + ": "@ + b),
            Err(m) => Err(m),
        },
    }
}

pub open spec fn spec_dict_parts(ds: Seq<DictItem>) -> Result<Seq<Seq<char>>, Seq<char>>
    decreases ds, 1int,
{
    if ds.len() == 0 {
        Ok(Seq::empty())
    } else {
        match spec_dict_item(ds[0]) {
            Err(m) => Err(m),
            Ok(s) => after_prefix(seq![s], spec_dict_parts(ds.drop_first())),
        }
    }
}

pub open spec fn spec_keyword(k: Keyword) -> Result<Seq<char>, Seq<char>>
    decreases k, 0int,
{
    match k.arg {
        Some(name) => wrap(name@ + "="@, spec_unparse(k.value), Seq::empty()),
        None => wrap("**"@, spec_unparse(k.value), Seq::empty()),
    }
}

pub open spec fn spec_keyword_parts(ks: Seq<Keyword>) -> Result<Seq<Seq<char>>, Seq<char>>
    decreases ks, 1int,
{
    if ks.len() == 0 {
        Ok(Seq::empty())
    } else {
        match spec_keyword(ks[0]) {
            Err(m) => Err(m),
            Ok(s) => after_prefix(seq![s], spec_keyword_parts(ks.drop_first())),
        }
    }
}

pub open spec fn spec_compare_step(c: CompareStep) -> Result<Seq<char>, Seq<char>>
    decreases c, 0int,
{
    wrap(" "@ + cmp_text(c.op) + " "@, spec_unparse(c.right), Seq::empty())
}

pub open spec fn spec_compare_parts(cs: Seq<CompareStep>) -> Result<Seq<Seq<char>>, Seq<char>>
    decreases cs, 1int,
{
    if cs.len() == 0 {
        Ok(Seq::empty())
    } else {
        match spec_compare_step(cs[0]) {
            Err(m) => Err(m),
            Ok(s) => after_prefix(seq![s], spec_compare_parts(cs.drop_first())),
        }
    }
}

/// One component of an f-string: escaped literal text, or a field with its
/// conversion and format spec.
pub open spec fn spec_fpart(v: Expr) -> Result<Seq<char>, Seq<char>>
    decreases v, 0int,
{
    match v {
        Expr::Constant(Constant::Str(s)) => Ok(fstring_escaped(s@)),
        Expr::FormattedValue(x, conv, spec) => match spec_unparse(*x) {
            Err(m) => Err(m),
            Ok(t) => match spec {
                None => Ok("{"@ + t + conversion_text(conv) + "}"@),
                Some(sp) => wrap("{"@ + t + conversion_text(conv) + ":"@, spec_format_spec(*sp), "}"@),
            },
        },
        _ => Err(unsupported_fstring_msg(kind_name(v))),
    }
}

pub open spec fn spec_fparts(vs: Seq<Expr>) -> Result<Seq<Seq<char>>, Seq<char>>
    decreases vs, 1int,
{
    if vs.len() == 0 {
        Ok(Seq::empty())
    } else {
        match spec_fpart(vs[0]) {
            Err(m) => Err(m),
            Ok(s) => after_prefix(seq![s], spec_fparts(vs.drop_first())),
        }
    }
}

/// A format spec: an f-string's literal text and `{expr}` fields, without
/// the colon; any other expression is unparsed as it is.
pub open spec fn spec_format_spec(sp: Expr) -> Result<Seq<char>, Seq<char>>
    decreases sp, 1int,
{
    if let Expr::JoinedStr(vs) = sp {
        join_ok(spec_spec_parts(vs@), Seq::empty())
    } else {
        spec_unparse(sp)
    }
}

/// One component of a format spec; components of other kinds give nothing.
pub open spec fn spec_spec_part(v: Expr) -> Result<Seq<char>, Seq<char>>
    decreases v, 0int,
{
    match v {
        Expr::Constant(Constant::Str(s)) => Ok(s@),
        Expr::FormattedValue(x, _, _) => wrap("{"@, spec_unparse(*x), "}"@),
        _ => Ok(Seq::empty()),
    }
}

pub open spec fn spec_spec_parts(vs: Seq<Expr>) -> Result<Seq<Seq<char>>, Seq<char>>
    decreases vs, 1int,
{
    if vs.len() == 0 {
        Ok(Seq::empty())
    } else {
        match spec_spec_part(vs[0]) {
            Err(m) => Err(m),
            Ok(s) => after_prefix(seq![s], spec_spec_parts(vs.drop_first())),
        }
    }
}

/// The defaults of the parameters that have one, unparsed in order.
pub open spec fn spec_defaults(ps: Seq<Param>) -> Result<Seq<Seq<char>>, Seq<char>>
    decreases ps, 1int,
{
    if ps.len() == 0 {
        Ok(Seq::empty())
    } else {
        match ps[0].default {
            None => spec_defaults(ps.drop_first()),
            Some(d) => match spec_unparse(d) {
                Err(m) => Err(m),
                Ok(s) => after_prefix(seq![s], spec_defaults(ps.drop_first())),
            },
        }
    }
}

pub open spec fn param_names(ps: Seq<Param>) -> Seq<Seq<char>> {
    Seq::new(ps.len(), |i: int| ps[i].name@)
}

/// The parameter list of a lambda as written: positional names, `*args`,
/// keyword-only names, `**kwargs`; the defaults must unparse, positional
/// ones first, though they are not written.
pub open spec fn spec_lambda_names(a: LambdaArgs) -> Result<Seq<Seq<char>>, Seq<char>>
    decreases a, 0int,
{
    match spec_defaults(a.args@) {
        Err(m) => Err(m),
        Ok(_) => match spec_defaults(a.kwonly@) {
            Err(m) => Err(m),
            Ok(_) => Ok(param_names(a.args@)
                + (match a.vararg { Some(v) => seq!["*"@ + v@], None => Seq::empty() })
                + param_names(a.kwonly@)
                + (match a.kwarg { Some(k) => seq!["**"@ + k@], None => Seq::empty() })),
        },
    }
}

// ---------------------------------------------------------------------------
// Implementation: text helpers
// ---------------------------------------------------------------------------

/// `r` is the text `s` describes, or the `TypeError` it names.
pub open spec fn text_matches(r: Result<String, EvalError>, s: Result<Seq<char>, Seq<char>>) -> bool {
    match s {
        Ok(t) => r matches Ok(x) && x@ == t,
        Err(m) => r matches Err(e) && is_type_error(e, m),
    }
}

/// `r` holds the parts `s` describes, or the `TypeError` it names.
pub open spec fn parts_match(r: Result<Vec<String>, EvalError>, s: Result<Seq<Seq<char>>, Seq<char>>) -> bool {
    match s {
        Ok(p) => r matches Ok(v) && texts(v@) == p,
        Err(m) => r matches Err(e) && is_type_error(e, m),
    }
}

fn join_texts(parts: &Vec<String>, sep: &str) -> (r: String)
    ensures
        r@ == joined(texts(parts@), sep@),
{
    let mut out = String::new();
    let mut i: usize = 0;
    while i < parts.len()
        invariant
            i <= parts@.len(),
            out@ == joined(texts(parts@).take(i as int), sep@),
        decreases parts.len() - i,
    {
        proof { assert(texts(parts@).take(i + 1).drop_last() =~= texts(parts@).take(i as int)); }
        if i > 0 {
            out.append(sep);
        }
        out.append(parts[i].as_str());
        i = i + 1;
    }
    proof { assert(texts(parts@).take(i as int) =~= texts(parts@)); }
    out
}

fn prefixed_texts(parts: &Vec<String>, pre: &str) -> (r: String)
    ensures
        r@ == prefixed(texts(parts@), pre@),
{
    let mut out = String::new();
    let mut i: usize = 0;
    while i < parts.len()
        invariant
            i <= parts@.len(),
            out@ == prefixed(texts(parts@).take(i as int), pre@),
        decreases parts.len() - i,
    {
        proof { assert(texts(parts@).take(i + 1).drop_last() =~= texts(parts@).take(i as int)); }
        out.append(pre);
        out.append(parts[i].as_str());
        i = i + 1;
    }
    proof { assert(texts(parts@).take(i as int) =~= texts(parts@)); }
    out
}

fn push_hex2(out: &mut String, n: u32)
    requires
        n < 256,
    ensures
        final(out)@ == old(out)@ + "\\x"@ + hex2(n as nat),
{
    out.append("\\x");
    push_char(out, digit_to_char((n / 16) as u64));
    push_char(out, digit_to_char((n % 16) as u64));
    proof { assert(final(out)@ =~= old(out)@ + "\\x"@ + hex2(n as nat)); }
}

fn push_char_escape(out: &mut String, c: char)
    ensures
        final(out)@ == old(out)@ + char_escape(c),
{
    if c == '\\' {
        out.append("\\\\");
    } else if c == '\t' {
        out.append("\\t");
    } else if c == '\n' {
        out.append("\\n");
    } else if c == '\r' {
        out.append("\\r");
    } else if (c as u32) < 32 || (127 <= (c as u32) && (c as u32) <= 159) {
        push_hex2(out, c as u32);
    } else {
        push_char(out, c);
        proof { assert(final(out)@ =~= old(out)@ + seq![c]); }
    }
}

fn escape_quoted(s: &str) -> (r: String)
    ensures
        r@ == quote_escaped(s@),
{
    let cs = crate::text::chars_of(s);
    let mut out = String::new();
    let mut i: usize = 0;
    while i < cs.len()
        invariant
            cs@ == s@,
            i <= cs@.len(),
            out@ == quote_escaped(s@.take(i as int)),
        decreases cs.len() - i,
    {
        proof { assert(s@.take(i + 1).drop_last() =~= s@.take(i as int)); }
        let c = cs[i];
        if c == '\'' {
            out.append("\\'");
        } else {
            push_char_escape(&mut out, c);
        }
        i = i + 1;
    }
    proof { assert(s@.take(i as int) =~= s@); }
    out
}

fn escape_fstring(s: &str) -> (r: String)
    ensures
        r@ == fstring_escaped(s@),
{
    let cs = crate::text::chars_of(s);
    let mut out = String::new();
    let mut i: usize = 0;
    while i < cs.len()
        invariant
            cs@ == s@,
            i <= cs@.len(),
            out@ == fstring_escaped(s@.take(i as int)),
        decreases cs.len() - i,
    {
        proof { assert(s@.take(i + 1).drop_last() =~= s@.take(i as int)); }
        let c = cs[i];
        if c == '{' {
            out.append("{{");
        } else if c == '}' {
            out.append("}}");
        } else if c == '"' {
            out.append("\\\"");
        } else {
            push_char_escape(&mut out, c);
        }
        i = i + 1;
    }
    proof { assert(s@.take(i as int) =~= s@); }
    out
}

fn escape_bytes(b: &[u8]) -> (r: String)
    ensures
        r@ == bytes_escaped(b@),
{
    let mut out = String::new();
    let mut i: usize = 0;
    while i < b.len()
        invariant
            i <= b@.len(),
            out@ == bytes_escaped(b@.take(i as int)),
        decreases b.len() - i,
    {
        proof { assert(b@.take(i + 1).drop_last() =~= b@.take(i as int)); }
        let c = b[i];
        if c == 92 {
            out.append("\\\\");
        } else if c == 39 {
            out.append("\\'");
        } else if c == 9 {
            out.append("\\t");
        } else if c == 10 {
            out.append("\\n");
        } else if c == 13 {
            out.append("\\r");
        } else if 32 <= c && c < 127 {
            let ghost before = out@;
            push_char(&mut out, c as char);
            proof { assert(out@ =~= before + seq![c as char]); }
        } else {
            push_hex2(&mut out, c as u32);
        }
        i = i + 1;
    }
    proof { assert(b@.take(i as int) =~= b@); }
    out
}

proof fn lemma_be_value_zero_all(b: Seq<u8>, i: int)
    requires
        be_value(b) == 0,
        0 <= i < b.len(),
    ensures
        b[i] == 0,
    decreases b.len(),
{
    if i < b.len() - 1 {
        assert(b.drop_last()[i] == b[i]);
        lemma_be_value_zero_all(b.drop_last(), i);
    }
}

pub(crate) fn is_zero_magnitude(b: &Vec<u8>) -> (r: bool)
    ensures
        r == (be_value(b@) == 0),
{
    let mut i: usize = 0;
    while i < b.len()
        invariant
            i <= b@.len(),
            forall|j: int| 0 <= j < i ==> b@[j] == 0,
        decreases b.len() - i,
    {
        if b[i] != 0 {
            proof {
                if be_value(b@) == 0 {
                    lemma_be_value_zero_all(b@, i as int);
                }
            }
            return false;
        }
        i = i + 1;
    }
    proof { lemma_be_value_zeros(b@); }
    true
}

/// The decimal digits of a big-endian magnitude.
fn magnitude_decimal(m: &Vec<u8>) -> (r: Vec<char>)
    ensures
        r@ == decimal(be_value(m@)),
{
    let ghost n0 = be_value(m@);
    let mut cur = m.clone();
    let mut acc: Vec<char> = Vec::new();
    proof { assert(decimal(n0) =~= decimal(be_value(cur@)) + acc@); }
    loop
        invariant
            n0 == be_value(m@),
            decimal(n0) == decimal(be_value(cur@)) + acc@,
        decreases be_value(cur@),
    {
        let (q, d) = divmod10(&cur);
        let c = digit_to_char(d as u64);
        let ghost before = acc@;
        let ghost v = be_value(cur@);
        let ghost qv = be_value(q@);
        acc.insert(0, c);
        proof {
            assert(acc@ =~= seq![c] + before);
            vstd::arithmetic::div_mod::lemma_fundamental_div_mod_converse(v as int, 10, qv as int, d as int);
        }
        if is_zero_magnitude(&q) {
            proof {
                assert(decimal(v) == seq![digit_char(d as nat)]);
                assert(decimal(n0) =~= acc@);
                assert(acc@ == decimal(be_value(m@)));
            }
            return acc;
        }
        proof {
            assert(v >= 10);
            assert(decimal(v) == decimal(qv).push(digit_char(d as nat)));
            assert(decimal(n0) =~= decimal(qv) + acc@);
        }
        cur = q;
    }
}

fn chars_to_string(v: &Vec<char>) -> (r: String)
    ensures
        r@ == v@,
{
    crate::text::string_from_chars(v.as_slice())
}

/// The decimal text of an integer literal.
fn int_literal_text(w: &WideInt) -> (r: String)
    ensures
        r@ == int_text(wide_value(*w)),
{
    match w {
        WideInt::Small(i) => {
            if *i < 0 {
                let mag: u64 = if *i == i64::MIN { 0x8000_0000_0000_0000u64 } else { (-*i) as u64 };
                let digits = decimal_chars(mag);
                let mut out = str_to_string("-");
                out.append(chars_to_string(&digits).as_str());
                out
            } else {
                chars_to_string(&decimal_chars(*i as u64))
            }
        },
        WideInt::Large(neg, m) => {
            let digits = magnitude_decimal(m);
            if *neg && !is_zero_magnitude(m) {
                let mut out = str_to_string("-");
                out.append(chars_to_string(&digits).as_str());
                out
            } else {
                proof {
                    if *neg {
                        assert(be_value(m@) == 0);
                        assert(decimal(0) == decimal((-(0int)) as nat));
                    }
                }
                chars_to_string(&digits)
            }
        },
    }
}

fn unary_str(op: &UnaryOp) -> (r: &'static str)
    ensures
        r@ == unary_text(*op),
{
    match op {
        UnaryOp::USub => "-",
        UnaryOp::UAdd => "+",
        UnaryOp::Not => "not ",
        UnaryOp::Invert => "~",
    }
}

fn operator_str(op: &Operator) -> (r: &'static str)
    ensures
        r@ == operator_text(*op),
{
    match op {
        Operator::Add => "+",
        Operator::Sub => "-",
        Operator::Mult => "*",
        Operator::Div => "/",
        Operator::FloorDiv => "//",
        Operator::Mod => "%",
        Operator::Pow => "**",
        Operator::LShift => "<<",
        Operator::RShift => ">>",
        Operator::BitOr => "|",
        Operator::BitXor => "^",
        Operator::BitAnd => "&",
        Operator::MatMult => "@",
    }
}

fn bool_op_str(op: &BoolOp) -> (r: &'static str)
    ensures
        r@ == bool_op_text(*op),
{
    match op {
        BoolOp::And => " and ",
        BoolOp::Or => " or ",
    }
}

fn cmp_str(op: &CmpOp) -> (r: &'static str)
    ensures
        r@ == cmp_text(*op),
{
    match op {
        CmpOp::Eq => "==",
        CmpOp::NotEq => "!=",
        CmpOp::Lt => "<",
        CmpOp::LtE => "<=",
        CmpOp::Gt => ">",
        CmpOp::GtE => ">=",
        CmpOp::Is => "is",
        CmpOp::IsNot => "is not",
        CmpOp::In => "in",
        CmpOp::NotIn => "not in",
    }
}

fn conversion_str(c: &Conversion) -> (r: &'static str)
    ensures
        r@ == conversion_text(*c),
{
    match c {
        Conversion::NoConversion => {
            proof { reveal_strlit(""); }
            ""
        },
        Conversion::Str => "!s",
        Conversion::Repr => "!r",
        Conversion::Ascii => "!a",
    }
}

// ---------------------------------------------------------------------------
// Implementation: unparsing
// ---------------------------------------------------------------------------

fn wrap_text(open: &str, mid: &str, close: &str) -> (r: String)
    ensures
        r@ == open@ + mid@ + close@,
{
    let mut out = str_to_string(open);
    out.append(mid);
    out.append(close);
    out
}

fn wrap_open(open: &str, mid: &str) -> (r: String)
    ensures
        r@ == open@ + mid@ + Seq::<char>::empty(),
{
    let mut out = str_to_string(open);
    out.append(mid);
    proof { assert(out@ =~= open@ + mid@ + Seq::<char>::empty()); }
    out
}

fn kind_name_text(e: &Expr) -> (r: String)
    ensures
        r@ == kind_name(*e),
{
    match e {
        Expr::Other(t) => t.clone(),
        Expr::Constant(_) => str_to_string("Constant"),
        Expr::Name(_) => str_to_string("Name"),
        Expr::JoinedStr(_) => str_to_string("JoinedStr"),
        Expr::FormattedValue(..) => str_to_string("FormattedValue"),
        Expr::List(_) => str_to_string("List"),
        Expr::ListComp(..) => str_to_string("ListComp"),
        Expr::SetComp(..) => str_to_string("SetComp"),
        Expr::GeneratorExp(..) => str_to_string("GeneratorExp"),
        Expr::DictComp(..) => str_to_string("DictComp"),
        Expr::SetDisplay(_) => str_to_string("Set"),
        Expr::Tuple(_) => str_to_string("Tuple"),
        Expr::Dict(_) => str_to_string("Dict"),
        Expr::UnaryOp(..) => str_to_string("UnaryOp"),
        Expr::BinOp(..) => str_to_string("BinOp"),
        Expr::BoolOp(..) => str_to_string("BoolOp"),
        Expr::Compare(..) => str_to_string("Compare"),
        Expr::IfExp(..) => str_to_string("IfExp"),
        Expr::Attribute(..) => str_to_string("Attribute"),
        Expr::Subscript(..) => str_to_string("Subscript"),
        Expr::Slice(..) => str_to_string("Slice"),
        Expr::Starred(_) => str_to_string("Starred"),
        Expr::Lambda(..) => str_to_string("Lambda"),
        Expr::Call(..) => str_to_string("Call"),
    }
}

/// The source text of a constant.
pub fn unparse_constant(c: &Constant) -> (r: String)
    ensures
        r@ == spec_constant(*c),
    decreases c, 0int,
{
    match c {
        Constant::PyNone => str_to_string("None"),
        Constant::Bool(b) => if *b { str_to_string("True") } else { str_to_string("False") },
        Constant::Int(w) => int_literal_text(w),
        Constant::Float(t) => t.clone(),
        Constant::Str(s) => wrap_text("'", escape_quoted(s.as_str()).as_str(), "'"),
        Constant::Bytes(b) => wrap_text("b'", escape_bytes(b.as_slice()).as_str(), "'"),
        Constant::Ellipsis => str_to_string("..."),
        Constant::Tuple(items) => {
            let parts = unparse_constants(items);
            wrap_text("(", join_texts(&parts, ", ").as_str(), ")")
        },
        Constant::Complex(re, im) => {
            let mut out = str_to_string("complex(");
            out.append(re.as_str());
            out.append(", ");
            out.append(im.as_str());
            out.append(")");
            out
        },
    }
}

fn unparse_constants(cs: &Vec<Constant>) -> (r: Vec<String>)
    ensures
        texts(r@) == spec_constants(cs@),
    decreases cs, 1int,
{
    let mut out: Vec<String> = Vec::new();
    let mut i: usize = 0;
    proof {
        assert(cs@.skip(0) =~= cs@);
        assert(texts(out@) =~= Seq::<Seq<char>>::empty());
        assert(Seq::<Seq<char>>::empty() + spec_constants(cs@) =~= spec_constants(cs@));
    }
    while i < cs.len()
        invariant
            i <= cs@.len(),
            spec_constants(cs@) == texts(out@) + spec_constants(cs@.skip(i as int)),
        decreases cs.len() - i,
    {
        proof { assert(cs@.skip(i as int).drop_first() =~= cs@.skip(i + 1)); }
        let ghost before = texts(out@);
        let t = unparse_constant(&cs[i]);
        out.push(t);
        proof {
            assert(texts(out@) =~= before + seq![t@]);
            assert(before + (seq![t@] + spec_constants(cs@.skip(i + 1))) =~= (before + seq![t@]) + spec_constants(cs@.skip(i + 1)));
        }
        i = i + 1;
    }
    proof {
        assert(cs@.skip(i as int) =~= Seq::<Constant>::empty());
        assert(texts(out@) + Seq::<Seq<char>>::empty() =~= texts(out@));
    }
    out
}

fn unparse_each(xs: &Vec<Expr>) -> (r: Result<Vec<String>, EvalError>)
    ensures
        parts_match(r, spec_parts(xs@)),
    decreases xs, 1int,
{
    let mut out: Vec<String> = Vec::new();
    let mut i: usize = 0;
    proof {
        assert(xs@.skip(0) =~= xs@);
        assert(texts(out@) =~= Seq::<Seq<char>>::empty());
        match spec_parts(xs@) {
            Ok(q) => { assert(Seq::<Seq<char>>::empty() + q =~= q); },
            Err(_) => {},
        }
    }
    while i < xs.len()
        invariant
            i <= xs@.len(),
            spec_parts(xs@) == after_prefix(texts(out@), spec_parts(xs@.skip(i as int))),
        decreases xs.len() - i,
    {
        proof { assert(xs@.skip(i as int).drop_first() =~= xs@.skip(i + 1)); }
        let ghost before = texts(out@);
        match unparse_expr(&xs[i]) {
            Err(e) => { return Err(e); },
            Ok(t) => {
                out.push(t);
                proof {
                    assert(texts(out@) =~= before + seq![t@]);
                    match spec_parts(xs@.skip(i + 1)) {
                        Ok(q) => { assert(before + (seq![t@] + q) =~= (before + seq![t@]) + q); },
                        Err(_) => {},
                    }
                }
            },
        }
        i = i + 1;
    }
    proof {
        assert(xs@.skip(i as int) =~= Seq::<Expr>::empty());
        assert(texts(out@) + Seq::<Seq<char>>::empty() =~= texts(out@));
    }
    Ok(out)
}

fn unparse_clauses(xs: &Vec<Comprehension>) -> (r: Result<Vec<String>, EvalError>)
    ensures
        parts_match(r, spec_clauses(xs@)),
    decreases xs, 1int,
{
    let mut out: Vec<String> = Vec::new();
    let mut i: usize = 0;
    proof {
        assert(xs@.skip(0) =~= xs@);
        assert(texts(out@) =~= Seq::<Seq<char>>::empty());
        match spec_clauses(xs@) {
            Ok(q) => { assert(Seq::<Seq<char>>::empty() + q =~= q); },
            Err(_) => {},
        }
    }
    while i < xs.len()
        invariant
            i <= xs@.len(),
            spec_clauses(xs@) == after_prefix(texts(out@), spec_clauses(xs@.skip(i as int))),
        decreases xs.len() - i,
    {
        proof { assert(xs@.skip(i as int).drop_first() =~= xs@.skip(i + 1)); }
        let ghost before = texts(out@);
        match unparse_clause(&xs[i]) {
            Err(e) => { return Err(e); },
            Ok(t) => {
                out.push(t);
                proof {
                    assert(texts(out@) =~= before + seq![t@]);
                    match spec_clauses(xs@.skip(i + 1)) {
                        Ok(q) => { assert(before + (seq![t@] + q) =~= (before + seq![t@]) + q); },
                        Err(_) => {},
                    }
                }
            },
        }
        i = i + 1;
    }
    proof {
        assert(xs@.skip(i as int) =~= Seq::<Comprehension>::empty());
        assert(texts(out@) + Seq::<Seq<char>>::empty() =~= texts(out@));
    }
    Ok(out)
}

fn unparse_dict_items(xs: &Vec<DictItem>) -> (r: Result<Vec<String>, EvalError>)
    ensures
        parts_match(r, spec_dict_parts(xs@)),
    decreases xs, 1int,
{
    let mut out: Vec<String> = Vec::new();
    let mut i: usize = 0;
    proof {
        assert(xs@.skip(0) =~= xs@);
        assert(texts(out@) =~= Seq::<Seq<char>>::empty());
        match spec_dict_parts(xs@) {
            Ok(q) => { assert(Seq::<Seq<char>>::empty() + q =~= q); },
            Err(_) => {},
        }
    }
    while i < xs.len()
        invariant
            i <= xs@.len(),
            spec_dict_parts(xs@) == after_prefix(texts(out@), spec_dict_parts(xs@.skip(i as int))),
        decreases xs.len() - i,
    {
        proof { assert(xs@.skip(i as int).drop_first() =~= xs@.skip(i + 1)); }
        let ghost before = texts(out@);
        match unparse_dict_item(&xs[i]) {
            Err(e) => { return Err(e); },
            Ok(t) => {
                out.push(t);
                proof {
                    assert(texts(out@) =~= before + seq![t@]);
                    match spec_dict_parts(xs@.skip(i + 1)) {
                        Ok(q) => { assert(before + (seq![t@] + q) =~= (before + seq![t@]) + q); },
                        Err(_) => {},
                    }
                }
            },
        }
        i = i + 1;
    }
    proof {
        assert(xs@.skip(i as int) =~= Seq::<DictItem>::empty());
        assert(texts(out@) + Seq::<Seq<char>>::empty() =~= texts(out@));
    }
    Ok(out)
}

fn unparse_keywords(xs: &Vec<Keyword>) -> (r: Result<Vec<String>, EvalError>)
    ensures
        parts_match(r, spec_keyword_parts(xs@)),
    decreases xs, 1int,
{
    let mut out: Vec<String> = Vec::new();
    let mut i: usize = 0;
    proof {
        assert(xs@.skip(0) =~= xs@);
        assert(texts(out@) =~= Seq::<Seq<char>>::empty());
        match spec_keyword_parts(xs@) {
            Ok(q) => { assert(Seq::<Seq<char>>::empty() + q =~= q); },
            Err(_) => {},
        }
    }
    while i < xs.len()
        invariant
            i <= xs@.len(),
            spec_keyword_parts(xs@) == after_prefix(texts(out@), spec_keyword_parts(xs@.skip(i as int))),
        decreases xs.len() - i,
    {
        proof { assert(xs@.skip(i as int).drop_first() =~= xs@.skip(i + 1)); }
        let ghost before = texts(out@);
        match unparse_keyword(&xs[i]) {
            Err(e) => { return Err(e); },
            Ok(t) => {
                out.push(t);
                proof {
                    assert(texts(out@) =~= before + seq![t@]);
                    match spec_keyword_parts(xs@.skip(i + 1)) {
                        Ok(q) => { assert(before + (seq![t@] + q) =~= (before + seq![t@]) + q); },
                        Err(_) => {},
                    }
                }
            },
        }
        i = i + 1;
    }
    proof {
        assert(xs@.skip(i as int) =~= Seq::<Keyword>::empty());
        assert(texts(out@) + Seq::<Seq<char>>::empty() =~= texts(out@));
    }
    Ok(out)
}

fn unparse_compare_steps(xs: &Vec<CompareStep>) -> (r: Result<Vec<String>, EvalError>)
    ensures
        parts_match(r, spec_compare_parts(xs@)),
    decreases xs, 1int,
{
    let mut out: Vec<String> = Vec::new();
    let mut i: usize = 0;
    proof {
        assert(xs@.skip(0) =~= xs@);
        assert(texts(out@) =~= Seq::<Seq<char>>::empty());
        match spec_compare_parts(xs@) {
            Ok(q) => { assert(Seq::<Seq<char>>::empty() + q =~= q); },
            Err(_) => {},
        }
    }
    while i < xs.len()
        invariant
            i <= xs@.len(),
            spec_compare_parts(xs@) == after_prefix(texts(out@), spec_compare_parts(xs@.skip(i as int))),
        decreases xs.len() - i,
    {
        proof { assert(xs@.skip(i as int).drop_first() =~= xs@.skip(i + 1)); }
        let ghost before = texts(out@);
        match unparse_compare_step(&xs[i]) {
            Err(e) => { return Err(e); },
            Ok(t) => {
                out.push(t);
                proof {
                    assert(texts(out@) =~= before + seq![t@]);
                    match spec_compare_parts(xs@.skip(i + 1)) {
                        Ok(q) => { assert(before + (seq![t@] + q) =~= (before + seq![t@]) + q); },
                        Err(_) => {},
                    }
                }
            },
        }
        i = i + 1;
    }
    proof {
        assert(xs@.skip(i as int) =~= Seq::<CompareStep>::empty());
        assert(texts(out@) + Seq::<Seq<char>>::empty() =~= texts(out@));
    }
    Ok(out)
}

fn unparse_fparts(xs: &Vec<Expr>) -> (r: Result<Vec<String>, EvalError>)
    ensures
        parts_match(r, spec_fparts(xs@)),
    decreases xs, 1int,
{
    let mut out: Vec<String> = Vec::new();
    let mut i: usize = 0;
    proof {
        assert(xs@.skip(0) =~= xs@);
        assert(texts(out@) =~= Seq::<Seq<char>>::empty());
        match spec_fparts(xs@) {
            Ok(q) => { assert(Seq::<Seq<char>>::empty() + q =~= q); },
            Err(_) => {},
        }
    }
    while i < xs.len()
        invariant
            i <= xs@.len(),
            spec_fparts(xs@) == after_prefix(texts(out@), spec_fparts(xs@.skip(i as int))),
        decreases xs.len() - i,
    {
        proof { assert(xs@.skip(i as int).drop_first() =~= xs@.skip(i + 1)); }
        let ghost before = texts(out@);
        match unparse_fpart(&xs[i]) {
            Err(e) => { return Err(e); },
            Ok(t) => {
                out.push(t);
                proof {
                    assert(texts(out@) =~= before + seq![t@]);
                    match spec_fparts(xs@.skip(i + 1)) {
                        Ok(q) => { assert(before + (seq![t@] + q) =~= (before + seq![t@]) + q); },
                        Err(_) => {},
                    }
                }
            },
        }
        i = i + 1;
    }
    proof {
        assert(xs@.skip(i as int) =~= Seq::<Expr>::empty());
        assert(texts(out@) + Seq::<Seq<char>>::empty() =~= texts(out@));
    }
    Ok(out)
}

fn unparse_spec_parts(xs: &Vec<Expr>) -> (r: Result<Vec<String>, EvalError>)
    ensures
        parts_match(r, spec_spec_parts(xs@)),
    decreases xs, 1int,
{
    let mut out: Vec<String> = Vec::new();
    let mut i: usize = 0;
    proof {
        assert(xs@.skip(0) =~= xs@);
        assert(texts(out@) =~= Seq::<Seq<char>>::empty());
        match spec_spec_parts(xs@) {
            Ok(q) => { assert(Seq::<Seq<char>>::empty() + q =~= q); },
            Err(_) => {},
        }
    }
    while i < xs.len()
        invariant
            i <= xs@.len(),
            spec_spec_parts(xs@) == after_prefix(texts(out@), spec_spec_parts(xs@.skip(i as int))),
        decreases xs.len() - i,
    {
        proof { assert(xs@.skip(i as int).drop_first() =~= xs@.skip(i + 1)); }
        let ghost before = texts(out@);
        match unparse_spec_part(&xs[i]) {
            Err(e) => { return Err(e); },
            Ok(t) => {
                out.push(t);
                proof {
                    assert(texts(out@) =~= before + seq![t@]);
                    match spec_spec_parts(xs@.skip(i + 1)) {
                        Ok(q) => { assert(before + (seq![t@] + q) =~= (before + seq![t@]) + q); },
                        Err(_) => {},
                    }
                }
            },
        }
        i = i + 1;
    }
    proof {
        assert(xs@.skip(i as int) =~= Seq::<Expr>::empty());
        assert(texts(out@) + Seq::<Seq<char>>::empty() =~= texts(out@));
    }
    Ok(out)
}

fn unparse_clause(g: &Comprehension) -> (r: Result<String, EvalError>)
    ensures
        text_matches(r, spec_clause(*g)),
    decreases g, 0int,
{
    let t = match unparse_expr(&g.target) { Ok(t) => t, Err(e) => { return Err(e); } };
    let it = match unparse_expr(&g.iter) { Ok(t) => t, Err(e) => { return Err(e); } };
    let cs = match unparse_each(&g.ifs) { Ok(c) => c, Err(e) => { return Err(e); } };
    let mut out = str_to_string("for ");
    out.append(t.as_str());
    out.append(" in ");
    out.append(it.as_str());
    out.append(prefixed_texts(&cs, " if ").as_str());
    Ok(out)
}

fn unparse_dict_item(d: &DictItem) -> (r: Result<String, EvalError>)
    ensures
        text_matches(r, spec_dict_item(*d)),
    decreases d, 0int,
{
    match &d.key {
        None => {
            let v = match unparse_expr(&d.value) { Ok(t) => t, Err(e) => { return Err(e); } };
            Ok(wrap_open("**", v.as_str()))
        },
        Some(k) => {
            let a = match unparse_expr(k) { Ok(t) => t, Err(e) => { return Err(e); } };
            let b = match unparse_expr(&d.value) { Ok(t) => t, Err(e) => { return Err(e); } };
            Ok(wrap_text(a.as_str(), ": ", b.as_str()))
        },
    }
}

fn unparse_keyword(k: &Keyword) -> (r: Result<String, EvalError>)
    ensures
        text_matches(r, spec_keyword(*k)),
    decreases k, 0int,
{
    let open = match &k.arg {
        Some(name) => {
            let mut open = name.clone();
            open.append("=");
            open
        },
        None => str_to_string("**"),
    };
    proof {
        assert(spec_keyword(*k) == wrap(open@, spec_unparse(k.value), Seq::empty()));
    }
    match unparse_expr(&k.value) {
        Ok(v) => Ok(wrap_open(open.as_str(), v.as_str())),
        Err(e) => Err(e),
    }
}

fn unparse_compare_step(c: &CompareStep) -> (r: Result<String, EvalError>)
    ensures
        text_matches(r, spec_compare_step(*c)),
    decreases c, 0int,
{
    let v = match unparse_expr(&c.right) { Ok(t) => t, Err(e) => { return Err(e); } };
    let open = wrap_text(" ", cmp_str(&c.op), " ");
    Ok(wrap_open(open.as_str(), v.as_str()))
}

fn unparse_fpart(v: &Expr) -> (r: Result<String, EvalError>)
    ensures
        text_matches(r, spec_fpart(*v)),
    decreases v, 0int,
{
    match v {
        Expr::Constant(Constant::Str(s)) => Ok(escape_fstring(s.as_str())),
        Expr::FormattedValue(x, conv, spec) => {
            let t = match unparse_expr(x) { Ok(t) => t, Err(e) => { return Err(e); } };
            let mut open = str_to_string("{");
            open.append(t.as_str());
            open.append(conversion_str(conv));
            match spec {
                None => {
                    open.append("}");
                    Ok(open)
                },
                Some(sp) => {
                    open.append(":");
                    let m = match unparse_format_spec(sp) { Ok(t) => t, Err(e) => { return Err(e); } };
                    Ok(wrap_text(open.as_str(), m.as_str(), "}"))
                },
            }
        },
        _ => {
            let k = kind_name_text(v);
            let msg = wrap_open("unsupported f-string default component (see CONFORMANCE.md#unsupported-language-features): ", k.as_str());
            proof { assert(msg@ =~= unsupported_fstring_msg(kind_name(*v))); }
            Err(type_error(msg))
        },
    }
}

fn unparse_slice_part(o: &Option<Box<Expr>>) -> (r: Result<String, EvalError>)
    ensures
        text_matches(r, spec_part(*o)),
    decreases o, 0int,
{
    match o {
        Some(x) => {
            let r = unparse_expr(x);
            r
        },
        None => Ok(String::new()),
    }
}

fn unparse_format_spec(sp: &Expr) -> (r: Result<String, EvalError>)
    ensures
        text_matches(r, spec_format_spec(*sp)),
    decreases sp, 1int,
{
    if let Expr::JoinedStr(vs) = sp {
        let parts = match unparse_spec_parts(vs) { Ok(p) => p, Err(e) => { return Err(e); } };
        proof { reveal_strlit(""); assert(""@ =~= Seq::<char>::empty()); }
        Ok(join_texts(&parts, ""))
    } else {
        let r = unparse_expr(sp);
        proof { assert(!(*sp is JoinedStr)); }
        r
    }
}

fn unparse_spec_part(v: &Expr) -> (r: Result<String, EvalError>)
    ensures
        text_matches(r, spec_spec_part(*v)),
    decreases v, 0int,
{
    match v {
        Expr::Constant(Constant::Str(s)) => Ok(s.clone()),
        Expr::FormattedValue(x, _, _) => {
            let t = match unparse_expr(x) { Ok(t) => t, Err(e) => { return Err(e); } };
            Ok(wrap_text("{", t.as_str(), "}"))
        },
        _ => Ok(String::new()),
    }
}

fn unparse_defaults(ps: &Vec<Param>) -> (r: Result<Vec<String>, EvalError>)
    ensures
        parts_match(r, spec_defaults(ps@)),
    decreases ps, 1int,
{
    let mut out: Vec<String> = Vec::new();
    let mut i: usize = 0;
    proof {
        assert(ps@.skip(0) =~= ps@);
        assert(texts(out@) =~= Seq::<Seq<char>>::empty());
        match spec_defaults(ps@) {
            Ok(q) => { assert(Seq::<Seq<char>>::empty() + q =~= q); },
            Err(_) => {},
        }
    }
    while i < ps.len()
        invariant
            i <= ps@.len(),
            spec_defaults(ps@) == after_prefix(texts(out@), spec_defaults(ps@.skip(i as int))),
        decreases ps.len() - i,
    {
        proof { assert(ps@.skip(i as int).drop_first() =~= ps@.skip(i + 1)); }
        let ghost before = texts(out@);
        proof {
            let sk = ps@.skip(i as int);
            assert(sk[0] == ps@[i as int]);
            assert(spec_defaults(sk) == match sk[0].default {
                None => spec_defaults(sk.drop_first()),
                Some(d) => match spec_unparse(d) {
                    Err(m) => Err(m),
                    Ok(s) => after_prefix(seq![s], spec_defaults(sk.drop_first())),
                },
            });
        }
        match &ps[i].default {
            None => {},
            Some(d) => {
                match unparse_expr(d) {
                    Err(e) => { return Err(e); },
                    Ok(t) => {
                        out.push(t);
                        proof {
                            assert(texts(out@) =~= before + seq![t@]);
                            match spec_defaults(ps@.skip(i + 1)) {
                                Ok(q) => { assert(before + (seq![t@] + q) =~= (before + seq![t@]) + q); },
                                Err(_) => {},
                            }
                        }
                    },
                }
            },
        }
        i = i + 1;
    }
    proof {
        assert(ps@.skip(i as int) =~= Seq::<Param>::empty());
        assert(texts(out@) + Seq::<Seq<char>>::empty() =~= texts(out@));
    }
    Ok(out)
}

fn push_names(out: &mut Vec<String>, ps: &Vec<Param>)
    ensures
        texts(final(out)@) == texts(old(out)@) + param_names(ps@),
{
    let ghost start = texts(out@);
    let mut i: usize = 0;
    while i < ps.len()
        invariant
            i <= ps@.len(),
            texts(out@) == start + param_names(ps@).take(i as int),
        decreases ps.len() - i,
    {
        let ghost before = texts(out@);
        out.push(ps[i].name.clone());
        proof {
            assert(texts(out@) =~= before + seq![ps@[i as int].name@]);
            assert(start + param_names(ps@).take(i + 1) =~= before + seq![ps@[i as int].name@]);
        }
        i = i + 1;
    }
    proof { assert(param_names(ps@).take(i as int) =~= param_names(ps@)); }
}

fn lambda_names(a: &LambdaArgs) -> (r: Result<Vec<String>, EvalError>)
    ensures
        parts_match(r, spec_lambda_names(*a)),
    decreases a, 0int,
{
    match unparse_defaults(&a.args) { Ok(_) => {}, Err(e) => { return Err(e); } }
    match unparse_defaults(&a.kwonly) { Ok(_) => {}, Err(e) => { return Err(e); } }
    let mut out: Vec<String> = Vec::new();
    proof { assert(texts(out@) =~= Seq::<Seq<char>>::empty()); }
    push_names(&mut out, &a.args);
    let ghost t1 = texts(out@);
    match &a.vararg {
        Some(v) => { out.push(wrap_open("*", v.as_str())); },
        None => {},
    }
    let ghost t2 = texts(out@);
    push_names(&mut out, &a.kwonly);
    let ghost t3 = texts(out@);
    match &a.kwarg {
        Some(k) => { out.push(wrap_open("**", k.as_str())); },
        None => {},
    }
    proof {
        let va = match &a.vararg { Some(v) => seq!["*"@ + v@], None => Seq::<Seq<char>>::empty() };
        let ka = match &a.kwarg { Some(k) => seq!["**"@ + k@], None => Seq::<Seq<char>>::empty() };
        assert(t2 =~= t1 + va);
        assert(texts(out@) =~= t3 + ka);
        assert(texts(out@) =~= param_names(a.args@) + va + param_names(a.kwonly@) + ka);
    }
    Ok(out)
}

/// The Python source text of an expression, or a `TypeError` for one that
/// cannot be written back.
#[verifier::rlimit(100)]
pub fn unparse_expr(e: &Expr) -> (r: Result<String, EvalError>)
    ensures
        text_matches(r, spec_unparse(*e)),
    decreases e, 0int,
{
    match e {
        Expr::Constant(c) => Ok(unparse_constant(c)),
        Expr::Name(n) => Ok(n.clone()),
        Expr::JoinedStr(vs) => {
            let parts = match unparse_fparts(vs) { Ok(p) => p, Err(e) => { return Err(e); } };
            proof { reveal_strlit(""); assert(""@ =~= Seq::<char>::empty()); }
            { let r = Ok(wrap_text("f\"", join_texts(&parts, "").as_str(), "\"")); proof { assert(text_matches(r, spec_unparse(*e))); } r }
        },
        Expr::List(es) => {
            let parts = match unparse_each(es) { Ok(p) => p, Err(e) => { return Err(e); } };
            Ok(wrap_text("[", join_texts(&parts, ", ").as_str(), "]"))
        },
        Expr::ListComp(elt, gs) => {
            let x = match unparse_expr(elt) { Ok(t) => t, Err(e) => { return Err(e); } };
            let cl = match unparse_clauses(gs) { Ok(p) => p, Err(e) => { return Err(e); } };
            let mut out = str_to_string("[");
            out.append(x.as_str());
            out.append(" ");
            out.append(join_texts(&cl, " ").as_str());
            out.append("]");
            Ok(out)
        },
        Expr::SetComp(elt, gs) => {
            let x = match unparse_expr(elt) { Ok(t) => t, Err(e) => { return Err(e); } };
            let cl = match unparse_clauses(gs) { Ok(p) => p, Err(e) => { return Err(e); } };
            let mut out = str_to_string("{");
            out.append(x.as_str());
            out.append(" ");
            out.append(join_texts(&cl, " ").as_str());
            out.append("}");
            Ok(out)
        },
        Expr::GeneratorExp(elt, gs) => {
            let x = match unparse_expr(elt) { Ok(t) => t, Err(e) => { return Err(e); } };
            let cl = match unparse_clauses(gs) { Ok(p) => p, Err(e) => { return Err(e); } };
            let mut out = str_to_string("(");
            out.append(x.as_str());
            out.append(" ");
            out.append(join_texts(&cl, " ").as_str());
            out.append(")");
            Ok(out)
        },
        Expr::DictComp(k, v, gs) => {
            let ks = match unparse_expr(k) { Ok(t) => t, Err(e) => { return Err(e); } };
            let vs = match unparse_expr(v) { Ok(t) => t, Err(e) => { return Err(e); } };
            let cl = match unparse_clauses(gs) { Ok(p) => p, Err(e) => { return Err(e); } };
            let mut out = str_to_string("{");
            out.append(ks.as_str());
            out.append(": ");
            out.append(vs.as_str());
            out.append(" ");
            out.append(join_texts(&cl, " ").as_str());
            out.append("}");
            Ok(out)
        },
        Expr::SetDisplay(es) => {
            let parts = match unparse_each(es) { Ok(p) => p, Err(e) => { return Err(e); } };
            Ok(wrap_text("{", join_texts(&parts, ", ").as_str(), "}"))
        },
        Expr::Tuple(es) => {
            let parts = match unparse_each(es) { Ok(p) => p, Err(e) => { return Err(e); } };
            if parts.len() == 1 {
                { let r = Ok(wrap_text("(", parts[0].as_str(), ",)")); proof { assert(text_matches(r, spec_unparse(*e))); } r }
            } else {
                { let r = Ok(wrap_text("(", join_texts(&parts, ", ").as_str(), ")")); proof { assert(text_matches(r, spec_unparse(*e))); } r }
            }
        },
        Expr::Dict(items) => {
            let parts = match unparse_dict_items(items) { Ok(p) => p, Err(e) => { return Err(e); } };
            Ok(wrap_text("{", join_texts(&parts, ", ").as_str(), "}"))
        },
        Expr::UnaryOp(op, x) => {
            let t = match unparse_expr(x) { Ok(t) => t, Err(e) => { return Err(e); } };
            Ok(wrap_open(unary_str(op), t.as_str()))
        },
        Expr::BinOp(l, op, r) => {
            let a = match unparse_expr(l) { Ok(t) => t, Err(e) => { return Err(e); } };
            let b = match unparse_expr(r) { Ok(t) => t, Err(e) => { return Err(e); } };
            let mut out = str_to_string("(");
            out.append(a.as_str());
            out.append(" ");
            out.append(operator_str(op));
            out.append(" ");
            out.append(b.as_str());
            out.append(")");
            Ok(out)
        },
        Expr::BoolOp(op, vs) => {
            let parts = match unparse_each(vs) { Ok(p) => p, Err(e) => { return Err(e); } };
            Ok(wrap_text("(", join_texts(&parts, bool_op_str(op)).as_str(), ")"))
        },
        Expr::Compare(l, steps) => {
            let a = match unparse_expr(l) { Ok(t) => t, Err(e) => { return Err(e); } };
            let parts = match unparse_compare_steps(steps) { Ok(p) => p, Err(e) => { return Err(e); } };
            proof { reveal_strlit(""); assert(""@ =~= Seq::<char>::empty()); }
            let t = join_texts(&parts, "");
            let mut out = str_to_string("(");
            out.append(a.as_str());
            out.append(t.as_str());
            out.append(")");
            Ok(out)
        },
        Expr::IfExp(body, test, orelse) => {
            let b = match unparse_expr(body) { Ok(t) => t, Err(e) => { return Err(e); } };
            let t = match unparse_expr(test) { Ok(t) => t, Err(e) => { return Err(e); } };
            let o = match unparse_expr(orelse) { Ok(t) => t, Err(e) => { return Err(e); } };
            let mut out = str_to_string("(");
            out.append(b.as_str());
            out.append(" if ");
            out.append(t.as_str());
            out.append(" else ");
            out.append(o.as_str());
            out.append(")");
            Ok(out)
        },
        Expr::Attribute(v, attr) => {
            let a = match unparse_expr(v) { Ok(t) => t, Err(e) => { return Err(e); } };
            let mut out = a;
            out.append(".");
            out.append(attr.as_str());
            proof { assert(out@ =~= Seq::<char>::empty() + a@ + ("."@ + attr@)); }
            Ok(out)
        },
        Expr::Subscript(v, sl) => {
            let a = match unparse_expr(v) { Ok(t) => t, Err(e) => { return Err(e); } };
            let b = match unparse_expr(sl) { Ok(t) => t, Err(e) => { return Err(e); } };
            let mut out = a;
            out.append("[");
            out.append(b.as_str());
            out.append("]");
            Ok(out)
        },
        Expr::Slice(lo, hi, step) => {
            let a = match unparse_slice_part(lo) { Ok(t) => t, Err(e) => { return Err(e); } };
            let b = match unparse_slice_part(hi) { Ok(t) => t, Err(e) => { return Err(e); } };
            let mut out = a;
            out.append(":");
            out.append(b.as_str());
            match step {
                Some(st) => {
                    let c = match unparse_expr(st) { Ok(t) => t, Err(e) => { return Err(e); } };
                    out.append(":");
                    { let r = Ok(wrap_open(out.as_str(), c.as_str())); proof { assert(text_matches(r, spec_unparse(*e))); } r }
                },
                None => { let r = Ok(out); proof { assert(text_matches(r, spec_unparse(*e))); } r },
            }
        },
        Expr::Starred(v) => {
            let t = match unparse_expr(v) { Ok(t) => t, Err(e) => { return Err(e); } };
            Ok(wrap_open("*", t.as_str()))
        },
        Expr::Lambda(params, body) => {
            let names = match lambda_names(params) { Ok(p) => p, Err(e) => { return Err(e); } };
            let t = match unparse_expr(body) { Ok(t) => t, Err(e) => { return Err(e); } };
            let mut open = str_to_string("lambda ");
            open.append(join_texts(&names, ", ").as_str());
            open.append(": ");
            { let r = Ok(wrap_open(open.as_str(), t.as_str())); proof { assert(text_matches(r, spec_unparse(*e))); } r }
        },
        Expr::Call(f, args, kws) => {
            let ft = match unparse_expr(f) { Ok(t) => t, Err(e) => { return Err(e); } };
            let mut all = match unparse_each(args) { Ok(p) => p, Err(e) => { return Err(e); } };
            let mut kp = match unparse_keywords(kws) { Ok(p) => p, Err(e) => { return Err(e); } };
            let ghost ta = texts(all@);
            let ghost tk = texts(kp@);
            all.append(&mut kp);
            proof { assert(texts(all@) =~= ta + tk); }
            { let r = Ok(wrap_text(ft.as_str(), "(", join_texts(&all, ", ").as_str()).concat(")")); proof { assert(text_matches(r, spec_unparse(*e))); } r }
        },
        Expr::FormattedValue(..) | Expr::Other(_) => {
            let k = kind_name_text(e);
            let msg = wrap_open("unsupported default argument expression (see CONFORMANCE.md#unsupported-language-features): ", k.as_str());
            proof { assert(msg@ =~= unsupported_msg(kind_name(*e))); }
            Err(type_error(msg))
        },
    }
}

// ---------------------------------------------------------------------------
// Laws
// ---------------------------------------------------------------------------

proof fn lemma_char_escape_clean(c: char)
    ensures
        forall|i: int| 0 <= i < quote_escape(c).len() ==> !is_control(#[trigger] quote_escape(c)[i]),
{
    reveal_strlit("\\\\");
    reveal_strlit("\\t");
    reveal_strlit("\\n");
    reveal_strlit("\\r");
    reveal_strlit("\\x");
    reveal_strlit("\\'");
    let n = (c as u32) as nat;
    assert(n / 16 < 16 && n % 16 < 16 || !is_control(c));
}

proof fn lemma_quote_escaped_clean(s: Seq<char>)
    ensures
        forall|i: int| 0 <= i < quote_escaped(s).len() ==> !is_control(#[trigger] quote_escaped(s)[i]),
    decreases s.len(),
{
    if s.len() > 0 {
        lemma_quote_escaped_clean(s.drop_last());
        lemma_char_escape_clean(s.last());
        let a = quote_escaped(s.drop_last());
        let b = quote_escape(s.last());
        assert forall|i: int| 0 <= i < (a + b).len() implies !is_control(#[trigger] (a + b)[i]) by {
            if i >= a.len() {
                assert((a + b)[i] == b[i - a.len()]);
            }
        }
    }
}

/// A string constant is written back on one line: its text holds no line
/// break, tab or other control character, so it re-parses as one literal.
pub proof fn law_str_constant_on_one_line(s: String)
    ensures
        forall|i: int| 0 <= i < spec_constant(Constant::Str(s)).len()
            ==> !is_control(#[trigger] spec_constant(Constant::Str(s))[i]),
{
    lemma_quote_escaped_clean(s@);
    reveal_strlit("'");
    let t = spec_constant(Constant::Str(s));
    let q = quote_escaped(s@);
    assert(t == "'"@ + q + "'"@);
    assert forall|i: int| 0 <= i < t.len() implies !is_control(#[trigger] t[i]) by {
        if 1 <= i < 1 + q.len() {
            assert(t[i] == q[i - 1]);
        }
    }
}

// ---------------------------------------------------------------------------
// Operators read back
// ---------------------------------------------------------------------------

/// The binary operator that a Python operator token stands for.
pub open spec fn binop_of_token(t: Seq<char>) -> Option<Operator> {
    if t.len() == 1 {
        let c = t[0];
        if c == '+' { Some(Operator::Add) }
        else if c == '-' { Some(Operator::Sub) }
        else if c == '*' { Some(Operator::Mult) }
        else if c == '/' { Some(Operator::Div) }
        else if c == '%' { Some(Operator::Mod) }
        else if c == '|' { Some(Operator::BitOr) }
        else if c == '^' { Some(Operator::BitXor) }
        else if c == '&' { Some(Operator::BitAnd) }
        else if c == '@' { Some(Operator::MatMult) }
        else { None }
    } else if t.len() == 2 {
        if t[0] == '/' && t[1] == '/' { Some(Operator::FloorDiv) }
        else if t[0] == '*' && t[1] == '*' { Some(Operator::Pow) }
        else if t[0] == '<' && t[1] == '<' { Some(Operator::LShift) }
        else if t[0] == '>' && t[1] == '>' { Some(Operator::RShift) }
        else { None }
    } else {
        None
    }
}

/// The comparison operator that a Python token stands for.
pub open spec fn cmp_of_token(t: Seq<char>) -> Option<CmpOp> {
    if t.len() == 1 {
        if t[0] == '<' { Some(CmpOp::Lt) } else if t[0] == '>' { Some(CmpOp::Gt) } else { None }
    } else if t.len() == 2 {
        if t[0] == '=' && t[1] == '=' { Some(CmpOp::Eq) }
        else if t[0] == '!' && t[1] == '=' { Some(CmpOp::NotEq) }
        else if t[0] == '<' && t[1] == '=' { Some(CmpOp::LtE) }
        else if t[0] == '>' && t[1] == '=' { Some(CmpOp::GtE) }
        else if t[0] == 'i' && t[1] == 's' { Some(CmpOp::Is) }
        else if t[0] == 'i' && t[1] == 'n' { Some(CmpOp::In) }
        else { None }
    } else if t == seq!['i', 's', ' ', 'n', 'o', 't'] {
        Some(CmpOp::IsNot)
    } else if t == seq!['n', 'o', 't', ' ', 'i', 'n'] {
        Some(CmpOp::NotIn)
    } else {
        None
    }
}

/// A binary operator is written as the Python token of that operator, so
/// the text reads back as the same operator; distinct operators are written
/// differently.
pub proof fn law_operator_token_reads_back(op: Operator)
    ensures
        binop_of_token(operator_text(op)) == Some(op),
{
    reveal_strlit("+");
    reveal_strlit("-");
    reveal_strlit("*");
    reveal_strlit("/");
    reveal_strlit("//");
    reveal_strlit("%");
    reveal_strlit("**");
    reveal_strlit("<<");
    reveal_strlit(">>");
    reveal_strlit("|");
    reveal_strlit("^");
    reveal_strlit("&");
    reveal_strlit("@");
    match op {
        Operator::Add => { assert(operator_text(op) =~= seq!['+']); },
        Operator::Sub => { assert(operator_text(op) =~= seq!['-']); },
        Operator::Mult => { assert(operator_text(op) =~= seq!['*']); },
        Operator::Div => { assert(operator_text(op) =~= seq!['/']); },
        Operator::FloorDiv => { assert(operator_text(op) =~= seq!['/', '/']); },
        Operator::Mod => { assert(operator_text(op) =~= seq!['%']); },
        Operator::Pow => { assert(operator_text(op) =~= seq!['*', '*']); },
        Operator::LShift => { assert(operator_text(op) =~= seq!['<', '<']); },
        Operator::RShift => { assert(operator_text(op) =~= seq!['>', '>']); },
        Operator::BitOr => { assert(operator_text(op) =~= seq!['|']); },
        Operator::BitXor => { assert(operator_text(op) =~= seq!['^']); },
        Operator::BitAnd => { assert(operator_text(op) =~= seq!['&']); },
        Operator::MatMult => { assert(operator_text(op) =~= seq!['@']); },
    }
}

/// A comparison is written as the Python token of that comparison.
pub proof fn law_comparison_token_reads_back(op: CmpOp)
    ensures
        cmp_of_token(cmp_text(op)) == Some(op),
{
    reveal_strlit("==");
    reveal_strlit("!=");
    reveal_strlit("<");
    reveal_strlit("<=");
    reveal_strlit(">");
    reveal_strlit(">=");
    reveal_strlit("is");
    reveal_strlit("is not");
    reveal_strlit("in");
    reveal_strlit("not in");
    match op {
        CmpOp::Eq => { assert(cmp_text(op) =~= seq!['=', '=']); },
        CmpOp::NotEq => { assert(cmp_text(op) =~= seq!['!', '=']); },
        CmpOp::Lt => { assert(cmp_text(op) =~= seq!['<']); },
        CmpOp::LtE => { assert(cmp_text(op) =~= seq!['<', '=']); },
        CmpOp::Gt => { assert(cmp_text(op) =~= seq!['>']); },
        CmpOp::GtE => { assert(cmp_text(op) =~= seq!['>', '=']); },
        CmpOp::Is => { assert(cmp_text(op) =~= seq!['i', 's']); },
        CmpOp::IsNot => { assert(cmp_text(op) =~= seq!['i', 's', ' ', 'n', 'o', 't']); },
        CmpOp::In => { assert(cmp_text(op) =~= seq!['i', 'n']); },
        CmpOp::NotIn => { assert(cmp_text(op) =~= seq!['n', 'o', 't', ' ', 'i', 'n']); },
    }
}

/// A binary operation is written as its operands, each in turn, around the
/// operator's token, in brackets; the token reads back as the operator.
pub proof fn law_binop_rendering(l: Box<Expr>, op: Operator, r: Box<Expr>)
    requires
        spec_unparse(*l) is Ok,
        spec_unparse(*r) is Ok,
    ensures
        ({
            let a = spec_unparse(*l)->Ok_0;
            let b = spec_unparse(*r)->Ok_0;
            &&& spec_unparse(Expr::BinOp(l, op, r)) == Ok::<Seq<char>, Seq<char>>("("@ + a + " "@ + operator_text(op) + " "@ + b + ")"@)
            &&& binop_of_token(operator_text(op)) == Some(op)
        }),
{
    law_operator_token_reads_back(op);
}

/// The unary operator that a Python prefix stands for.
pub open spec fn unary_of_prefix(t: Seq<char>) -> Option<UnaryOp> {
    if t.len() == 1 {
        if t[0] == '-' { Some(UnaryOp::USub) } else if t[0] == '+' { Some(UnaryOp::UAdd) } else if t[0] == '~' { Some(UnaryOp::Invert) } else { None }
    } else if t == seq!['n', 'o', 't', ' '] {
        Some(UnaryOp::Not)
    } else {
        None
    }
}

/// The boolean operator that a separator between operands stands for.
pub open spec fn bool_op_of_separator(t: Seq<char>) -> Option<BoolOp> {
    if t == seq![' ', 'a', 'n', 'd', ' '] {
        Some(BoolOp::And)
    } else if t == seq![' ', 'o', 'r', ' '] {
        Some(BoolOp::Or)
    } else {
        None
    }
}

/// A unary operation is written with the Python prefix of its operator,
/// and a boolean operation with its operator's keyword between operands.
pub proof fn law_unary_and_bool_tokens_read_back(u: UnaryOp, b: BoolOp)
    ensures
        unary_of_prefix(unary_text(u)) == Some(u),
        bool_op_of_separator(bool_op_text(b)) == Some(b),
{
    reveal_strlit("-");
    reveal_strlit("+");
    reveal_strlit("~");
    reveal_strlit("not ");
    reveal_strlit(" and ");
    reveal_strlit(" or ");
    match u {
        UnaryOp::USub => { assert(unary_text(u) =~= seq!['-']); },
        UnaryOp::UAdd => { assert(unary_text(u) =~= seq!['+']); },
        UnaryOp::Invert => { assert(unary_text(u) =~= seq!['~']); },
        UnaryOp::Not => { assert(unary_text(u) =~= seq!['n', 'o', 't', ' ']); },
    }
    match b {
        BoolOp::And => { assert(bool_op_text(b) =~= seq![' ', 'a', 'n', 'd', ' ']); },
        BoolOp::Or => { assert(bool_op_text(b) =~= seq![' ', 'o', 'r', ' ']); },
    }
}

// ---------------------------------------------------------------------------
// String literals read back
// ---------------------------------------------------------------------------

/// The value of a lower-case hex digit.
pub open spec fn hex_digit_value(c: char) -> int {
    if '0' <= c <= '9' { (c as int) - 48 } else { (c as int) - 87 }
}

pub open spec fn is_hex_digit_char(c: char) -> bool {
    ('0' <= c <= '9') || ('a' <= c <= 'f')
}

/// Whether `t` is the body of a single-quoted Python literal made of plain
/// characters and the escapes `\\`, `\'`, `\t`, `\n`, `\r` and `\xhh`: no
/// bare quote, no bare control character, no stray backslash.
pub open spec fn quoted_body_ok(t: Seq<char>) -> bool
    decreases t.len(),
{
    if t.len() == 0 {
        true
    } else if t[0] == '\\' {
        if t.len() >= 2 && (t[1] == '\\' || t[1] == '\'' || t[1] == 't' || t[1] == 'n' || t[1] == 'r') {
            quoted_body_ok(t.subrange(2, t.len() as int))
        } else if t.len() >= 4 && t[1] == 'x' && is_hex_digit_char(t[2]) && is_hex_digit_char(t[3]) {
            quoted_body_ok(t.subrange(4, t.len() as int))
        } else {
            false
        }
    } else {
        t[0] != '\'' && !is_control(t[0]) && quoted_body_ok(t.drop_first())
    }
}

/// The characters that the body of a single-quoted literal stands for.
pub open spec fn read_quoted(t: Seq<char>) -> Seq<char>
    decreases t.len(),
{
    if t.len() == 0 {
        Seq::empty()
    } else if t[0] == '\\' && t.len() >= 2 && (t[1] == '\\' || t[1] == '\'' || t[1] == 't' || t[1] == 'n' || t[1] == 'r') {
        let c = if t[1] == 't' { '\t' } else if t[1] == 'n' { '\n' } else if t[1] == 'r' { '\r' } else { t[1] };
        seq![c] + read_quoted(t.subrange(2, t.len() as int))
    } else if t[0] == '\\' && t.len() >= 4 && t[1] == 'x' {
        seq![(hex_digit_value(t[2]) * 16 + hex_digit_value(t[3])) as char] + read_quoted(t.subrange(4, t.len() as int))
    } else {
        seq![t[0]] + read_quoted(t.drop_first())
    }
}

proof fn lemma_quote_escaped_front(s: Seq<char>)
    requires
        s.len() > 0,
    ensures
        quote_escaped(s) == quote_escape(s[0]) + quote_escaped(s.drop_first()),
    decreases s.len(),
{
    if s.len() == 1 {
        assert(s.drop_last() =~= Seq::<char>::empty());
        assert(s.drop_first() =~= Seq::<char>::empty());
        assert(quote_escaped(s.drop_last()) == Seq::<char>::empty());
        assert(quote_escaped(s.drop_first()) == Seq::<char>::empty());
        assert(s.last() == s[0]);
        assert(quote_escaped(s) =~= quote_escape(s[0]) + quote_escaped(s.drop_first()));
    } else {
        lemma_quote_escaped_front(s.drop_last());
        assert(s.drop_last().drop_first() =~= s.drop_first().drop_last());
        assert(s.drop_first().last() == s.last());
        assert(s.drop_last()[0] == s[0]);
        assert(quote_escaped(s) =~= quote_escape(s[0]) + quote_escaped(s.drop_first()));
    }
}

proof fn lemma_escape_reads_back(c: char, rest: Seq<char>)
    ensures
        quoted_body_ok(quote_escape(c) + rest) == quoted_body_ok(rest),
        read_quoted(quote_escape(c) + rest) == seq![c] + read_quoted(rest),
{
    reveal_strlit("\\\\");
    reveal_strlit("\\'");
    reveal_strlit("\\t");
    reveal_strlit("\\n");
    reveal_strlit("\\r");
    reveal_strlit("\\x");
    let e = quote_escape(c);
    let t = e + rest;
    if c == '\'' || c == '\\' || c == '\t' || c == '\n' || c == '\r' {
        assert(e.len() == 2);
        assert(t[0] == e[0] && t[1] == e[1]);
        assert(t.subrange(2, t.len() as int) =~= rest);
    } else if is_control(c) {
        let n = (c as u32) as nat;
        assert(e == "\\x"@ + hex2(n));
        assert(e.len() == 4);
        assert(t[0] == '\\' && t[1] == 'x' && t[2] == e[2] && t[3] == e[3]);
        assert(t.subrange(4, t.len() as int) =~= rest);
        assert(n / 16 < 10);
        assert(hex_digit_value(t[2]) == n / 16);
        if n % 16 < 10 {
            assert(hex_digit_value(t[3]) == n % 16);
        } else {
            assert(hex_digit_value(t[3]) == n % 16);
        }
        assert(hex_digit_value(t[2]) * 16 + hex_digit_value(t[3]) == n);
        vstd::utf8::char_u32_cast(c, c as u32);
    } else {
        assert(e == seq![c]);
        assert(t[0] == c);
        assert(t.drop_first() =~= rest);
    }
}

proof fn lemma_quoted_reads_back(s: Seq<char>)
    ensures
        quoted_body_ok(quote_escaped(s)),
        read_quoted(quote_escaped(s)) == s,
    decreases s.len(),
{
    if s.len() == 0 {
    } else {
        lemma_quote_escaped_front(s);
        lemma_quoted_reads_back(s.drop_first());
        lemma_escape_reads_back(s[0], quote_escaped(s.drop_first()));
        assert(seq![s[0]] + s.drop_first() =~= s);
    }
}

/// A string constant is written as a well-formed single-quoted literal (no
/// bare quote, control character or stray backslash inside) that reads
/// back as the same string.
pub proof fn law_str_constant_reads_back(s: String)
    ensures
        ({
            let t = spec_constant(Constant::Str(s));
            &&& t.len() >= 2
            &&& t[0] == '\''
            &&& t[t.len() - 1] == '\''
            &&& quoted_body_ok(t.subrange(1, t.len() - 1))
            &&& read_quoted(t.subrange(1, t.len() - 1)) == s@
        }),
{
    reveal_strlit("'");
    lemma_quoted_reads_back(s@);
    let q = quote_escaped(s@);
    let t = spec_constant(Constant::Str(s));
    assert(t == "'"@ + q + "'"@);
    assert(t.subrange(1, t.len() - 1) =~= q);
}

/// A tuple is written in brackets with its items separated by `, `; a
/// tuple of one item keeps a trailing comma so that it reads back as a
/// tuple and not as the bracketed item.
pub proof fn law_tuple_rendering(x: Expr, y: Expr, v1: Vec<Expr>, v2: Vec<Expr>)
    requires
        spec_unparse(x) is Ok,
        spec_unparse(y) is Ok,
        v1@ == seq![x],
        v2@ == seq![x, y],
    ensures
        spec_unparse(Expr::Tuple(v1)) == Ok::<Seq<char>, Seq<char>>("("@ + spec_unparse(x)->Ok_0 + ",)"@),
        spec_unparse(Expr::Tuple(v2)) == Ok::<Seq<char>, Seq<char>>("("@ + spec_unparse(x)->Ok_0 + ", "@ + spec_unparse(y)->Ok_0 + ")"@),
{
    let a = spec_unparse(x)->Ok_0;
    let b = spec_unparse(y)->Ok_0;
    assert(spec_parts(Seq::<Expr>::empty()) == Ok::<Seq<Seq<char>>, Seq<char>>(Seq::empty()));
    assert(seq![x][0] == x);
    assert(seq![y][0] == y);
    assert(seq![x, y][0] == x);
    assert(seq![x].drop_first() =~= Seq::<Expr>::empty());
    assert(seq![x, y].drop_first() =~= seq![y]);
    assert(seq![y].drop_first() =~= Seq::<Expr>::empty());
    assert(spec_parts(seq![x]) == Ok::<Seq<Seq<char>>, Seq<char>>(seq![a] + Seq::empty()));
    assert(seq![a] + Seq::<Seq<char>>::empty() =~= seq![a]);
    assert(spec_parts(seq![y]) == Ok::<Seq<Seq<char>>, Seq<char>>(seq![b] + Seq::empty()));
    assert(seq![b] + Seq::<Seq<char>>::empty() =~= seq![b]);
    assert(spec_parts(seq![x, y]) == Ok::<Seq<Seq<char>>, Seq<char>>(seq![a] + seq![b]));
    let p = seq![a] + seq![b];
    assert(p =~= seq![a, b]);
    assert(p.drop_last() =~= seq![a]);
    assert(p.len() == 2 && p.last() == b);
    assert(joined(seq![a], ", "@) == a);
    assert(joined(p, ", "@) == joined(seq![a], ", "@) + ", "@ + b);
    assert("("@ + joined(p, ", "@) + ")"@ =~= "("@ + a + ", "@ + b + ")"@);
}

} // verus!
