//! Errors raised while evaluating a script, and how a source line is stamped
//! onto them.

use vstd::prelude::*;
use crate::value::{Value, PyVal};
use crate::text::{chars_of, string_from_chars, concat_str, str_to_string, chars_match_at, occurs_at, seq_contains};

verus! {

/// Non-exception control transfers that travel up the evaluator as errors.
#[derive(Debug)]
pub enum ControlFlow {
    Break,
    Continue,
    Return(Box<Value>),
    Yield(Box<Value>),
}

/// Errors of the interpreter itself (not Python exceptions).
#[derive(Debug)]
pub enum InterpreterError {
    Syntax(String),
    RecursionLimitExceeded { limit: usize },
    StateFormatSuperseded { version: u32 },
    Security(String),
    Runtime(String),
    LimitExceeded(String),
    NameError(String),
    TypeError(String),
    ValueError(String),
    AttributeError(String),
    AssertionError(String),
    Tool { tool_name: String, message: String },
}

/// A raised Python exception.
#[derive(Debug)]
pub struct ExceptionValue {
    pub class_name: String,
    pub message: String,
    /// The script line on which the exception surfaced, once known.
    pub stamped_line: Option<u32>,
}

/// Everything that can interrupt evaluation.
#[derive(Debug)]
pub enum EvalError {
    Signal(ControlFlow),
    Interpreter(InterpreterError),
    Exception(ExceptionValue),
}

pub type EvalResult = Result<Value, EvalError>;

// ---------------------------------------------------------------------------
// Descriptions of errors, for contracts
// ---------------------------------------------------------------------------

pub open spec fn is_type_error(e: EvalError, msg: Seq<char>) -> bool {
    e matches EvalError::Interpreter(InterpreterError::TypeError(m)) && m@ == msg
}

pub open spec fn is_value_error(e: EvalError, msg: Seq<char>) -> bool {
    e matches EvalError::Interpreter(InterpreterError::ValueError(m)) && m@ == msg
}

pub open spec fn is_attribute_error(e: EvalError, msg: Seq<char>) -> bool {
    e matches EvalError::Interpreter(InterpreterError::AttributeError(m)) && m@ == msg
}

pub open spec fn is_runtime_error(e: EvalError, msg: Seq<char>) -> bool {
    e matches EvalError::Interpreter(InterpreterError::Runtime(m)) && m@ == msg
}

/// `e` is a raised Python exception of class `class_name` with message `msg`,
/// not yet stamped with a line.
pub open spec fn is_exception(e: EvalError, class_name: Seq<char>, msg: Seq<char>) -> bool {
    e matches EvalError::Exception(x) && x.class_name@ == class_name && x.message@ == msg
        && x.stamped_line is None
}

pub fn type_error(msg: String) -> (e: EvalError)
    ensures
        is_type_error(e, msg@),
{
    EvalError::Interpreter(InterpreterError::TypeError(msg))
}

pub fn value_error(msg: String) -> (e: EvalError)
    ensures
        is_value_error(e, msg@),
{
    EvalError::Interpreter(InterpreterError::ValueError(msg))
}

pub fn attribute_error(msg: String) -> (e: EvalError)
    ensures
        is_attribute_error(e, msg@),
{
    EvalError::Interpreter(InterpreterError::AttributeError(msg))
}

pub fn runtime_error(msg: String) -> (e: EvalError)
    ensures
        is_runtime_error(e, msg@),
{
    EvalError::Interpreter(InterpreterError::Runtime(msg))
}

impl ExceptionValue {
    /// A fresh, unstamped exception of class `class_name`.
    pub fn new(class_name: &str, message: String) -> (x: ExceptionValue)
        ensures
            x.class_name@ == class_name@,
            x.message@ == message@,
            x.stamped_line is None,
    {
        ExceptionValue { class_name: str_to_string(class_name), message, stamped_line: None }
    }
}

/// A raised exception of class `class_name` with message `msg`.
pub fn exception(class_name: &str, msg: String) -> (e: EvalError)
    ensures
        is_exception(e, class_name@, msg@),
{
    EvalError::Exception(ExceptionValue::new(class_name, msg))
}

/// The kind and message of an error, as contracts state it.
pub enum ErrSpec {
    Type(Seq<char>),
    Value(Seq<char>),
    Attribute(Seq<char>),
    Runtime(Seq<char>),
    /// A raised exception: its class name and message.
    Exc(Seq<char>, Seq<char>),
}

/// `e` is the error that `s` describes.
pub open spec fn err_matches(e: EvalError, s: ErrSpec) -> bool {
    match s {
        ErrSpec::Type(m) => is_type_error(e, m),
        ErrSpec::Value(m) => is_value_error(e, m),
        ErrSpec::Attribute(m) => is_attribute_error(e, m),
        ErrSpec::Runtime(m) => is_runtime_error(e, m),
        ErrSpec::Exc(c, m) => is_exception(e, c, m),
    }
}

/// `r` is the outcome that `s` describes, values compared by their views.
pub open spec fn result_matches(r: EvalResult, s: Result<PyVal, ErrSpec>) -> bool {
    match s {
        Ok(v) => r matches Ok(x) && x@ == v,
        Err(es) => r matches Err(e) && err_matches(e, es),
    }
}

// ---------------------------------------------------------------------------
// Decimal rendering
// ---------------------------------------------------------------------------

/// The decimal digits of `n`, most significant first (`"0"` for zero).
pub open spec fn decimal(n: nat) -> Seq<char>
    decreases n,
{
    if n < 10 {
        seq![digit_char(n)]
    } else {
        decimal(n / 10).push(digit_char(n % 10))
    }
}

/// The ASCII character of a digit value below 36 (`0-9`, then `a-z`).
pub open spec fn digit_char(d: nat) -> char {
    if d < 10 {
        (d + 48) as char
    } else {
        (d + 87) as char
    }
}

/// The digits of `n` in `base`, most significant first.
pub open spec fn radix_digits(n: nat, base: nat) -> Seq<char>
    recommends
        2 <= base <= 36,
    decreases n,
{
    if n < base || base < 2 {
        seq![digit_char(n)]
    } else {
        proof {
            assert(n / base < n) by (nonlinear_arith)
                requires
                    base >= 2,
                    n >= base,
            ;
        }
        radix_digits(n / base, base).push(digit_char(n % base))
    }
}

/// The character of a digit value `d < 36`.
pub fn digit_to_char(d: u64) -> (c: char)
    requires
        d < 36,
    ensures
        c == digit_char(d as nat),
{
    if d < 10 {
        let v: u8 = (d as u8) + 48;
        v as char
    } else {
        let v: u8 = (d as u8) + 87;
        v as char
    }
}

/// The digits of `n` in `base` (2 to 36), most significant first.
pub fn radix_chars(n: u64, base: u64) -> (r: Vec<char>)
    requires
        2 <= base <= 36,
    ensures
        r@ == radix_digits(n as nat, base as nat),
{
    let mut rev: Vec<char> = Vec::new();
    let mut m: u64 = n;
    // `rev` holds the low digits, least significant first.
    while m >= base
        invariant
            2 <= base <= 36,
            radix_digits(n as nat, base as nat) == radix_digits(m as nat, base as nat) + rev@.reverse(),
        decreases m,
    {
        let d = m % base;
        let c = digit_to_char(d);
        proof {
            assert(radix_digits(m as nat, base as nat) == radix_digits((m / base) as nat, base as nat).push(
                digit_char((m % base) as nat),
            ));
            assert(rev@.push(c).reverse() =~= seq![c] + rev@.reverse());
        }
        rev.push(c);
        m = m / base;
    }
    let c0 = digit_to_char(m);
    rev.push(c0);
    let mut out: Vec<char> = Vec::new();
    let mut i: usize = rev.len();
    while i > 0
        invariant
            i <= rev@.len(),
            out@ == rev@.subrange(i as int, rev@.len() as int).reverse(),
        decreases i,
    {
        i = i - 1;
        proof {
            assert(rev@.subrange(i as int, rev@.len() as int) =~= seq![rev@[i as int]]
                + rev@.subrange(i + 1, rev@.len() as int));
            assert(out@.push(rev@[i as int]) =~= rev@.subrange(i as int, rev@.len() as int).reverse());
        }
        out.push(rev[i]);
    }
    assert(rev@.subrange(0, rev@.len() as int) =~= rev@);
    assert(out@ =~= radix_digits(n as nat, base as nat));
    out
}

/// The decimal digits of `n`.
pub fn decimal_chars(n: u64) -> (r: Vec<char>)
    ensures
        r@ == decimal(n as nat),
{
    let r = radix_chars(n, 10);
    proof { lemma_decimal_is_radix_ten(n as nat); }
    r
}

proof fn lemma_decimal_is_radix_ten(n: nat)
    ensures
        decimal(n) == radix_digits(n, 10),
    decreases n,
{
    if n >= 10 {
        lemma_decimal_is_radix_ten(n / 10);
    }
}

// ---------------------------------------------------------------------------
// Line stamping
// ---------------------------------------------------------------------------

/// The message that an interpreter error carries, if its kind is stamped.
pub open spec fn stampable_message(e: InterpreterError) -> Option<Seq<char>> {
    match e {
        InterpreterError::Security(m) => Some(m@),
        InterpreterError::Runtime(m) => Some(m@),
        InterpreterError::LimitExceeded(m) => Some(m@),
        InterpreterError::NameError(m) => Some(m@),
        InterpreterError::TypeError(m) => Some(m@),
        InterpreterError::ValueError(m) => Some(m@),
        InterpreterError::AttributeError(m) => Some(m@),
        InterpreterError::AssertionError(m) => Some(m@),
        InterpreterError::Tool { tool_name: _, message } => Some(message@),
        _ => None,
    }
}

/// `after` is `before` with its message replaced by one whose view is `msg`.
pub open spec fn same_kind_with_message(before: InterpreterError, after: InterpreterError, msg: Seq<char>) -> bool {
    match before {
        InterpreterError::Security(_) => after matches InterpreterError::Security(m) && m@ == msg,
        InterpreterError::Runtime(_) => after matches InterpreterError::Runtime(m) && m@ == msg,
        InterpreterError::LimitExceeded(_) => after matches InterpreterError::LimitExceeded(m) && m@ == msg,
        InterpreterError::NameError(_) => after matches InterpreterError::NameError(m) && m@ == msg,
        InterpreterError::TypeError(_) => after matches InterpreterError::TypeError(m) && m@ == msg,
        InterpreterError::ValueError(_) => after matches InterpreterError::ValueError(m) && m@ == msg,
        InterpreterError::AttributeError(_) => after matches InterpreterError::AttributeError(m) && m@ == msg,
        InterpreterError::AssertionError(_) => after matches InterpreterError::AssertionError(m) && m@ == msg,
        InterpreterError::Tool { tool_name, message: _ } => after matches InterpreterError::Tool { tool_name: t, message: m }
            && t == tool_name && m@ == msg,
        _ => false,
    }
}

/// The suffix ` (at line N)`.
pub open spec fn line_suffix(line: nat) -> Seq<char> {
    " (at line "@ + decimal(line) + ")"@
}

/// `line`, saturated into a `u32`.
pub open spec fn saturate_u32(line: nat) -> u32 {
    if line > u32::MAX { u32::MAX } else { line as u32 }
}

/// What stamping `line` onto `e` gives: control-flow signals, syntax errors
/// and the limit errors pass unchanged; an interpreter error whose message
/// does not already hold `at line ` gets ` (at line N)` appended; an
/// exception not yet stamped records the line in its side field.
pub open spec fn stamped(e: EvalError, line: nat, r: EvalError) -> bool {
    match e {
        EvalError::Signal(_) => r == e,
        EvalError::Interpreter(ie) => match stampable_message(ie) {
            None => r == e,
            Some(m) => if seq_contains(m, "at line "@) {
                r == e
            } else {
                r matches EvalError::Interpreter(ie2) && same_kind_with_message(ie, ie2, m + line_suffix(line))
            },
        },
        EvalError::Exception(x) => if x.stamped_line is None {
            r == EvalError::Exception(ExceptionValue {
                class_name: x.class_name,
                message: x.message,
                stamped_line: Some(saturate_u32(line)),
            })
        } else {
            r == e
        },
    }
}

/// Whether `s` contains `at line ` anywhere.
fn already_stamped(s: &String) -> (r: bool)
    ensures
        r == seq_contains(s@, "at line "@),
{
    let cs = chars_of(s.as_str());
    let pat = chars_of("at line ");
    let mut i: usize = 0;
    while i < cs.len()
        invariant
            cs@ == s@,
            pat@ == "at line "@,
            i <= cs@.len(),
            forall|j: int| 0 <= j < i ==> !occurs_at(cs@, pat@, j),
        decreases cs.len() - i,
    {
        if chars_match_at(&cs, &pat, i) {
            return true;
        }
        i = i + 1;
    }
    proof {
        assert forall|j: int| !occurs_at(cs@, pat@, j) by {
            if occurs_at(cs@, pat@, j) && j >= cs@.len() {
                // `pat` is not empty, so it cannot fit past the end.
                assert(pat@.len() > 0) by {
                    reveal_strlit("at line ");
                }
            }
        }
    }
    false
}

/// ` (at line N)` for `line`.
fn line_suffix_string(line: usize) -> (r: String)
    ensures
        r@ == line_suffix(line as nat),
{
    let digits = decimal_chars(line as u64);
    let num = string_from_chars(&digits);
    let head = concat_str(" (at line ", num.as_str());
    head.concat(")")
}

fn append_suffix(m: String, line: usize) -> (r: String)
    ensures
        r@ == m@ + line_suffix(line as nat),
{
    let suffix = line_suffix_string(line);
    let r = m.concat(suffix.as_str());
    assert(r@ =~= m@ + line_suffix(line as nat));
    r
}

/// Stamp ` (at line N)` onto an error's user-visible message when it does not
/// already carry a line marker. Control-flow signals pass through unchanged,
/// as do syntax and limit errors; an exception records the line in its side
/// field instead of its message.
pub fn stamp_line(err: EvalError, line: usize) -> (r: EvalError)
    ensures
        stamped(err, line as nat, r),
{
    let line_u32: u32 = if line > 0xffff_ffffusize { 0xffff_ffffu32 } else { line as u32 };
    match err {
        EvalError::Signal(_) => err,
        EvalError::Interpreter(inner) => EvalError::Interpreter(match inner {
            InterpreterError::Security(m) => if already_stamped(&m) { InterpreterError::Security(m) } else { InterpreterError::Security(append_suffix(m, line)) },
            InterpreterError::Runtime(m) => if already_stamped(&m) { InterpreterError::Runtime(m) } else { InterpreterError::Runtime(append_suffix(m, line)) },
            InterpreterError::LimitExceeded(m) => if already_stamped(&m) { InterpreterError::LimitExceeded(m) } else { InterpreterError::LimitExceeded(append_suffix(m, line)) },
            InterpreterError::NameError(m) => if already_stamped(&m) { InterpreterError::NameError(m) } else { InterpreterError::NameError(append_suffix(m, line)) },
            InterpreterError::TypeError(m) => if already_stamped(&m) { InterpreterError::TypeError(m) } else { InterpreterError::TypeError(append_suffix(m, line)) },
            InterpreterError::ValueError(m) => if already_stamped(&m) { InterpreterError::ValueError(m) } else { InterpreterError::ValueError(append_suffix(m, line)) },
            InterpreterError::AttributeError(m) => if already_stamped(&m) { InterpreterError::AttributeError(m) } else { InterpreterError::AttributeError(append_suffix(m, line)) },
            InterpreterError::AssertionError(m) => if already_stamped(&m) { InterpreterError::AssertionError(m) } else { InterpreterError::AssertionError(append_suffix(m, line)) },
            InterpreterError::Tool { tool_name, message } => if already_stamped(&message) {
                InterpreterError::Tool { tool_name, message }
            } else {
                InterpreterError::Tool { tool_name, message: append_suffix(message, line) }
            },
            other => other,
        }),
        EvalError::Exception(exc) => {
            if exc.stamped_line.is_none() {
                EvalError::Exception(ExceptionValue {
                    class_name: exc.class_name,
                    message: exc.message,
                    stamped_line: Some(line_u32),
                })
            } else {
                EvalError::Exception(exc)
            }
        },
    }
}

proof fn lemma_suffix_marks_line(m: Seq<char>, line: nat)
    ensures
        seq_contains(m + line_suffix(line), "at line "@),
{
    reveal_strlit(" (at line ");
    reveal_strlit("at line ");
    reveal_strlit(")");
    let full = m + line_suffix(line);
    let i: int = m.len() as int + 2;
    assert(full.subrange(i, i + 8) =~= "at line "@);
    assert(occurs_at(full, "at line "@, i));
}

proof fn lemma_restamped_message(ie: InterpreterError, ie2: InterpreterError, msg: Seq<char>)
    requires
        same_kind_with_message(ie, ie2, msg),
    ensures
        stampable_message(ie2) == Some(msg),
{
}

/// A line is stamped once: stamping an error that has already been stamped
/// (with any line) leaves it as it is, so the innermost statement's line
/// stays on the message.
pub proof fn law_stamp_line_once(e: EvalError, first: nat, second: nat, r1: EvalError, r2: EvalError)
    requires
        stamped(e, first, r1),
        stamped(r1, second, r2),
    ensures
        r2 == r1,
{
    match e {
        EvalError::Interpreter(ie) => match stampable_message(ie) {
            Some(m) => if !seq_contains(m, "at line "@) {
                let ie2 = r1->Interpreter_0;
                lemma_restamped_message(ie, ie2, m + line_suffix(first));
                lemma_suffix_marks_line(m, first);
            },
            None => {},
        },
        _ => {},
    }
}

} // verus!
