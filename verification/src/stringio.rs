//! `io.StringIO`: an in-memory text stream. The buffer is a sequence of
//! characters and the cursor a character index; `write` overwrites from the
//! cursor (extending the buffer, and padding it with NUL characters when the
//! cursor is past its end), `read`/`readline` advance it.

use vstd::prelude::*;
use indexmap::IndexMap;
use crate::value::{Value, PyVal, view_items, view_value, lemma_view_items, lemma_view_items_push,
    spec_iter_items, spec_py_type_name, iterate_value};
use crate::error::{EvalError, ErrSpec, err_matches, type_error, value_error};
use crate::kwargs::{kwarg_entries, reject_kwargs, unexpected_kwarg_msg};
use crate::numeric::arg_at;
use crate::outcome::{MethodOutcome, saturating_isize};
use crate::text::{chars_of, concat_str, str_to_string, string_from_chars, str_eq};
use crate::bytes_methods::{no_attr_msg, no_attribute};
use crate::str_methods::{sub_chars, extend_chars, str_value, str_list, char_views, str_list_value};
use vstd::string::StringSliceAdditionalSpecFns;
use vstd::utf8::encode_utf8;

verus! {

broadcast use lemma_view_items;

/// The state of a `StringIO`: its characters and the cursor, which `seek`
/// may put past the end.
pub struct StringIo {
    pub buf: Vec<char>,
    pub pos: usize,
}

impl StringIo {
    /// An empty stream with the cursor at 0.
    pub fn new() -> (r: StringIo)
        ensures
            r.buf@ == Seq::<char>::empty(),
            r.pos == 0,
    {
        StringIo { buf: Vec::new(), pos: 0 }
    }
}

/// What a `StringIO` method hands back: a value, or the stream itself
/// (`__enter__`).
pub enum StreamReply {
    Value(MethodOutcome),
    Stream,
}

/// The ghost form of a reply: the value's view and the size change, or the
/// stream itself.
pub enum ReplyView {
    Value(PyVal, int),
    Stream,
}

pub open spec fn reply_view(r: StreamReply) -> ReplyView {
    match r {
        StreamReply::Value(o) => ReplyView::Value(o.value@, o.mem_delta as int),
        StreamReply::Stream => ReplyView::Stream,
    }
}

// ---------------------------------------------------------------------------
// Specification
// ---------------------------------------------------------------------------

/// `buf` with `s` written over it from `at` (which is at most its length),
/// extended where `s` runs past the end.
pub open spec fn overwrite(buf: Seq<char>, at: int, s: Seq<char>) -> Seq<char> {
    Seq::new(
        if buf.len() > at + s.len() { buf.len() } else { (at + s.len()) as nat },
        |i: int| if at <= i < at + s.len() { s[i - at] } else { buf[i] },
    )
}

/// `buf` padded with NUL characters up to length `p`, when it is shorter.
pub open spec fn pad_to(buf: Seq<char>, p: int) -> Seq<char> {
    if p <= buf.len() { buf } else { buf + Seq::new((p - buf.len()) as nat, |i: int| '\0') }
}

/// Writing `s` at cursor `p`: a cursor past the end first pads the buffer
/// with NUL characters up to it, then `s` goes over the buffer from `p`,
/// extending it where it runs past the end.
pub open spec fn write_at(buf: Seq<char>, p: int, s: Seq<char>) -> Seq<char> {
    overwrite(pad_to(buf, p), p, s)
}

/// `writelines` over `items` from `k`: the buffer, cursor and UTF-8 byte
/// count after each `str` item, and whether every item was a `str`.
pub open spec fn writelines_from(items: Seq<PyVal>, k: int, buf: Seq<char>, pos: int, added: int) -> (bool, Seq<char>, int, int)
    decreases items.len() - k,
{
    if k < 0 || k >= items.len() {
        (true, buf, pos, added)
    } else {
        match items[k] {
            PyVal::Str(s) => writelines_from(items, k + 1, write_at(buf, pos, s), pos + s.len(), added + encode_utf8(s).len()),
            _ => (false, buf, pos, added),
        }
    }
}

/// The optional size of `read`/`readline`/`truncate`: a non-negative `int`
/// that fits the machine; anything else means "no limit".
pub open spec fn spec_opt_size(args: Seq<Value>) -> Option<int> {
    match arg_at(args, 0) {
        Some(Value::Int(n)) => if 0 <= n <= usize::MAX { Some(n as int) } else { None },
        _ => None,
    }
}

pub open spec fn min_int(a: int, b: int) -> int {
    if a <= b { a } else { b }
}

/// The end of the line starting at `i`: just past the next newline, or the
/// end of the buffer.
pub open spec fn line_end(buf: Seq<char>, i: int) -> int
    decreases buf.len() - i,
{
    if i < 0 || i >= buf.len() {
        buf.len() as int
    } else if buf[i] == '\n' {
        i + 1
    } else {
        line_end(buf, i + 1)
    }
}

/// The lines of `buf` from `ls`, scanning from `i`, each with its newline.
pub open spec fn lines_after(buf: Seq<char>, ls: int, i: int) -> Seq<Seq<char>>
    decreases buf.len() - i,
{
    if i < 0 || i >= buf.len() {
        if 0 <= ls < buf.len() { seq![buf.subrange(ls, buf.len() as int)] } else { Seq::empty() }
    } else if buf[i] == '\n' {
        seq![buf.subrange(ls, i + 1)] + lines_after(buf, i + 1, i + 1)
    } else {
        lines_after(buf, ls, i + 1)
    }
}

/// The argument of `write`, or its error.
pub open spec fn spec_require_str(method: Seq<char>, args: Seq<Value>) -> Result<Seq<char>, ErrSpec> {
    match arg_at(args, 0) {
        Some(Value::String(s)) => Ok(s@),
        Some(other) => Err(ErrSpec::Type(method + "() argument must be str, not "@ + spec_py_type_name(other))),
        None => Err(ErrSpec::Type(method + "() takes exactly one argument (0 given)"@)),
    }
}

/// The methods that raise `TypeError` on a keyword argument (the others,
/// `__enter__`, `__exit__` and unknown names, do not look at them).
pub open spec fn rejects_keywords(method: Seq<char>) -> bool {
    method == "write"@ || method == "writelines"@ || method == "getvalue"@ || method == "read"@
        || method == "readline"@ || method == "readlines"@ || method == "seek"@ || method == "tell"@
        || method == "truncate"@ || method == "seekable"@ || method == "readable"@ || method == "writable"@
        || method == "flush"@ || method == "close"@
}

/// Whether the cursor arithmetic of a call stays within the machine's
/// range (the calls outside it do not complete).
pub open spec fn stream_call_fits(buf: Seq<char>, pos: int, method: Seq<char>, args: Seq<Value>) -> bool {
    let start = min_int(pos, buf.len() as int);
    &&& (method == "read"@ || method == "readline"@) ==> match spec_opt_size(args) {
        Some(n) => start + n <= usize::MAX,
        None => true,
    }
    &&& method == "write"@ ==> match arg_at(args, 0) {
        Some(Value::String(s)) => pos + s@.len() <= usize::MAX && encode_utf8(s@).len() <= usize::MAX,
        _ => true,
    }
    &&& method == "writelines"@ ==> match arg_at(args, 0) {
        Some(v) => match spec_iter_items(v@) {
            Some(items) => {
                let w = writelines_from(items, 0, buf, pos, 0);
                w.2 <= usize::MAX && w.3 <= usize::MAX
            },
            None => true,
        },
        None => true,
    }
}

/// What a `StringIO` method call returns and the stream's characters and
/// cursor afterwards, or the error it raises with the stream it leaves.
pub open spec fn spec_stringio(buf: Seq<char>, pos: int, method: Seq<char>, args: Seq<Value>, kws: Seq<(Seq<char>, Value)>)
    -> (Result<ReplyView, ErrSpec>, Seq<char>, int)
{
    let start = min_int(pos, buf.len() as int);
    if kws.len() > 0 && rejects_keywords(method) {
        (Err(ErrSpec::Type(unexpected_kwarg_msg(method, kws[0].0))), buf, pos)
    } else if method == "write"@ {
        match spec_require_str(method, args) {
            Err(es) => (Err(es), buf, pos),
            Ok(s) => (Ok(ReplyView::Value(PyVal::Int(s.len() as i64 as int),
                    saturating_isize(encode_utf8(s).len() as int))),
                write_at(buf, pos, s), pos + s.len()),
        }
    } else if method == "writelines"@ {
        let v = match arg_at(args, 0) { Some(v) => v, None => Value::PyNone };
        match spec_iter_items(v@) {
            None => (Err(ErrSpec::Type("'"@ + spec_py_type_name(v) + "' object is not iterable"@)), buf, pos),
            Some(items) => {
                let w = writelines_from(items, 0, buf, pos, 0);
                if w.0 {
                    (Ok(ReplyView::Value(PyVal::PyNone, saturating_isize(w.3))), w.1, w.2)
                } else {
                    (Err(ErrSpec::Type("writelines() argument must be an iterable of str"@)), buf, w.2)
                }
            },
        }
    } else if method == "getvalue"@ {
        (Ok(ReplyView::Value(PyVal::Str(buf), 0)), buf, pos)
    } else if method == "read"@ {
        let end = match spec_opt_size(args) {
            None => buf.len() as int,
            Some(n) => min_int(start + n, buf.len() as int),
        };
        (Ok(ReplyView::Value(PyVal::Str(buf.subrange(start, end)), 0)), buf, end)
    } else if method == "readline"@ {
        let e = line_end(buf, start);
        let end = match spec_opt_size(args) {
            None => e,
            Some(n) => min_int(e, start + n),
        };
        (Ok(ReplyView::Value(PyVal::Str(buf.subrange(start, end)), 0)), buf, end)
    } else if method == "readlines"@ {
        (Ok(ReplyView::Value(str_list(lines_after(buf, start, start)), 0)), buf, buf.len() as int)
    } else if method == "seek"@ {
        match arg_at(args, 0) {
            Some(Value::Int(n)) => if n >= 0 {
                let target: int = if n > usize::MAX { usize::MAX as int } else { n as int };
                (Ok(ReplyView::Value(PyVal::Int(target), 0)), buf, target)
            } else {
                (Err(ErrSpec::Value("negative seek position"@)), buf, pos)
            },
            _ => (Err(ErrSpec::Value("negative seek position"@)), buf, pos),
        }
    } else if method == "tell"@ {
        (Ok(ReplyView::Value(PyVal::Int(pos as i64 as int), 0)), buf, pos)
    } else if method == "truncate"@ {
        let size = min_int(match spec_opt_size(args) { Some(n) => n, None => pos }, buf.len() as int);
        (Ok(ReplyView::Value(PyVal::Int(size as i64 as int), 0)), buf.subrange(0, size), pos)
    } else if method == "seekable"@ || method == "readable"@ || method == "writable"@ {
        (Ok(ReplyView::Value(PyVal::Bool(true), 0)), buf, pos)
    } else if method == "flush"@ || method == "close"@ {
        (Ok(ReplyView::Value(PyVal::PyNone, 0)), buf, pos)
    } else if method == "__enter__"@ {
        (Ok(ReplyView::Stream), buf, pos)
    } else if method == "__exit__"@ {
        (Ok(ReplyView::Value(PyVal::Bool(false), 0)), buf, pos)
    } else {
        (Err(ErrSpec::Attribute(no_attr_msg("_io.StringIO"@, method))), buf, pos)
    }
}

/// A reply matches its ghost form, or an error matches its specification.
pub open spec fn reply_matches(r: Result<StreamReply, EvalError>, s: Result<ReplyView, ErrSpec>) -> bool {
    match s {
        Ok(v) => r matches Ok(x) && reply_view(x) == v,
        Err(es) => r matches Err(e) && err_matches(e, es),
    }
}

// ---------------------------------------------------------------------------
// Implementation
// ---------------------------------------------------------------------------

/// Put one character at cursor `p`: over the buffer inside it, appended past
/// its end.
pub open spec fn put_char(buf: Seq<char>, p: int, c: char) -> Seq<char> {
    if p < buf.len() { buf.update(p, c) } else { buf.push(c) }
}

proof fn lemma_overwrite_step(buf: Seq<char>, p: int, s: Seq<char>, j: int)
    requires
        0 <= p <= buf.len(),
        0 <= j < s.len(),
    ensures
        overwrite(buf, p, s.take(j + 1)) == put_char(overwrite(buf, p, s.take(j)), p + j, s[j]),
{
    let a = overwrite(buf, p, s.take(j));
    let b = overwrite(buf, p, s.take(j + 1));
    assert(b =~= put_char(a, p + j, s[j]));
}

/// Write the characters `s` at cursor `p`: pad with NUL characters up to
/// the cursor, then put them one by one.
fn write_chars(buf: &mut Vec<char>, p: usize, s: &[char])
    requires
        p + s@.len() <= usize::MAX,
    ensures
        final(buf)@ == write_at(old(buf)@, p as int, s@),
{
    let ghost b0 = buf@;
    let ghost b1 = pad_to(b0, p as int);
    while buf.len() < p
        invariant
            b0.len() <= buf@.len(),
            buf@.len() <= p || buf@.len() == b0.len(),
            buf@ =~= b0 + Seq::new((buf@.len() - b0.len()) as nat, |i: int| '\0'),
        decreases p - buf.len(),
    {
        buf.push('\0');
    }
    assert(buf@ =~= b1);
    let mut j: usize = 0;
    assert(s@.take(0) =~= Seq::<char>::empty());
    assert(overwrite(b1, p as int, Seq::<char>::empty()) =~= b1);
    while j < s.len()
        invariant
            p + s@.len() <= usize::MAX,
            p <= b1.len(),
            j <= s@.len(),
            buf@ == overwrite(b1, p as int, s@.take(j as int)),
        decreases s.len() - j,
    {
        proof { lemma_overwrite_step(b1, p as int, s@, j as int); }
        if p + j < buf.len() {
            buf.set(p + j, s[j]);
        } else {
            buf.push(s[j]);
        }
        j = j + 1;
    }
    assert(s@.take(s@.len() as int) =~= s@);
}

/// The argument of `write`: a `str`, or `TypeError`.
fn require_str<'a>(method: &str, args: &'a [Value]) -> (r: Result<&'a String, EvalError>)
    ensures
        match spec_require_str(method@, args@) {
            Ok(s) => r matches Ok(x) && x@ == s,
            Err(es) => r matches Err(e) && err_matches(e, es),
        },
{
    if args.len() == 0 {
        return Err(type_error(concat_str(method, "() takes exactly one argument (0 given)")));
    }
    match &args[0] {
        Value::String(s) => Ok(s),
        other => {
            let s1 = concat_str(method, "() argument must be str, not ");
            let s2 = s1.concat(other.py_type_name());
            Err(type_error(s2))
        },
    }
}

/// The optional size argument of `read`/`readline`/`truncate`.
fn opt_size(args: &[Value]) -> (r: Option<usize>)
    ensures
        match spec_opt_size(args@) {
            Some(n) => r == Some(n as usize),
            None => r is None,
        },
{
    if args.len() == 0 {
        return None;
    }
    match &args[0] {
        Value::Int(n) => if *n >= 0 && *n as u64 <= usize::MAX as u64 { Some(*n as usize) } else { None },
        _ => None,
    }
}

proof fn lemma_writelines_grows(items: Seq<PyVal>, k: int, buf: Seq<char>, pos: int, added: int)
    requires
        0 <= k,
    ensures
        writelines_from(items, k, buf, pos, added).2 >= pos,
        writelines_from(items, k, buf, pos, added).3 >= added,
        k < items.len() && items[k] is Str ==> writelines_from(items, k, buf, pos, added).2 >= pos + items[k]->Str_0.len()
            && writelines_from(items, k, buf, pos, added).3 >= added + encode_utf8(items[k]->Str_0).len(),
    decreases items.len() - k,
{
    if k < items.len() {
        match items[k] {
            PyVal::Str(s) => {
                lemma_writelines_grows(items, k + 1, write_at(buf, pos, s), pos + s.len(), added + encode_utf8(s).len());
            },
            _ => {},
        }
    }
}

fn stream_writelines(stream: &mut StringIo, items: &Vec<Value>) -> (r: Result<usize, EvalError>)
    requires
        writelines_from(view_items(items@), 0, old(stream).buf@, old(stream).pos as int, 0).2 <= usize::MAX,
        writelines_from(view_items(items@), 0, old(stream).buf@, old(stream).pos as int, 0).3 <= usize::MAX,
    ensures
        ({
            let w = writelines_from(view_items(items@), 0, old(stream).buf@, old(stream).pos as int, 0);
            &&& final(stream).pos == w.2
            &&& w.0 ==> r == Ok::<usize, EvalError>(w.3 as usize) && final(stream).buf@ == w.1
            &&& !w.0 ==> (r matches Err(e) && err_matches(e, ErrSpec::Type("writelines() argument must be an iterable of str"@)))
            &&& !w.0 ==> final(stream).buf@ == old(stream).buf@
        }),
{
    let ghost its = view_items(items@);
    let ghost w = writelines_from(its, 0, stream.buf@, stream.pos as int, 0);
    let mut chars: Vec<char> = sub_chars(&stream.buf, 0, stream.buf.len());
    assert(stream.buf@.subrange(0, stream.buf@.len() as int) =~= stream.buf@);
    let mut added: usize = 0;
    let mut k: usize = 0;
    while k < items.len()
        invariant
            its == view_items(items@),
            its.len() == items@.len(),
            k <= items@.len(),
            w.2 <= usize::MAX,
            w.3 <= usize::MAX,
            writelines_from(its, k as int, chars@, stream.pos as int, added as int) == w,
            w == writelines_from(view_items(items@), 0, old(stream).buf@, old(stream).pos as int, 0),
            stream.buf@ == old(stream).buf@,
        decreases items.len() - k,
    {
        proof {
            assert(its[k as int] == view_value(items@[k as int]));
            lemma_writelines_grows(its, k as int, chars@, stream.pos as int, added as int);
        }
        match &items[k] {
            Value::String(s) => {
                let cs = chars_of(s.as_str());
                let ghost (c0, p0, a0) = (chars@, stream.pos, added);
                write_chars(&mut chars, stream.pos, &cs);
                stream.pos = stream.pos + cs.len();
                added = added + s.as_str().len();
                k = k + 1;
                assert(writelines_from(its, (k - 1) as int, c0, p0 as int, a0 as int)
                    == writelines_from(its, k as int, chars@, stream.pos as int, added as int));
            },
            _ => {
                assert(!(its[k as int] is Str));
                assert(writelines_from(its, k as int, chars@, stream.pos as int, added as int)
                    == (false, chars@, stream.pos as int, added as int));
                return Err(type_error(str_to_string("writelines() argument must be an iterable of str")));
            },
        }
    }
    stream.buf = chars;
    Ok(added)
}

fn readlines_from(buf: &[char], start: usize) -> (r: Vec<Vec<char>>)
    requires
        start <= buf@.len(),
    ensures
        char_views(r@) == lines_after(buf@, start as int, start as int),
{
    let mut lines: Vec<Vec<char>> = Vec::new();
    let mut ls: usize = start;
    let mut i: usize = start;
    while i < buf.len()
        invariant
            ls <= i <= buf@.len(),
            char_views(lines@) + lines_after(buf@, ls as int, i as int) == lines_after(buf@, start as int, start as int),
        decreases buf.len() - i,
    {
        if buf[i] == '\n' {
            let line = sub_chars(buf, ls, i + 1);
            let ghost before = char_views(lines@);
            let ghost (ols, oi) = (ls, i);
            lines.push(line);
            assert(char_views(lines@) =~= before.push(line@));
            ls = i + 1;
            i = i + 1;
            assert(before + (seq![line@] + lines_after(buf@, ls as int, i as int)) =~= char_views(lines@) + lines_after(buf@, ls as int, i as int));
        } else {
            i = i + 1;
        }
    }
    if ls < buf.len() {
        let line = sub_chars(buf, ls, buf.len());
        let ghost before = char_views(lines@);
        lines.push(line);
        assert(char_views(lines@) =~= before.push(line@));
        assert(char_views(lines@) =~= before + lines_after(buf@, ls as int, i as int));
    } else {
        assert(char_views(lines@) + lines_after(buf@, ls as int, i as int) =~= char_views(lines@));
    }
    lines
}

fn pure_reply(v: Value) -> (r: Result<StreamReply, EvalError>)
    ensures
        r matches Ok(x) && reply_view(x) == ReplyView::Value(v@, 0),
{
    Ok(StreamReply::Value(MethodOutcome::pure(v)))
}

/// Dispatch a method call on a `StringIO`: write, writelines, getvalue,
/// read, readline, readlines, seek, tell, truncate, the capability queries,
/// flush/close and the context-manager protocol.
#[verifier::rlimit(80)]
pub fn dispatch_stringio_method(stream: &mut StringIo, method: &str, args: &[Value], kwargs: &IndexMap<String, Value>)
    -> (r: Result<StreamReply, EvalError>)
    requires
        stream_call_fits(old(stream).buf@, old(stream).pos as int, method@, args@),
    ensures
        ({
            let s = spec_stringio(old(stream).buf@, old(stream).pos as int, method@, args@, kwarg_entries(*kwargs));
            &&& reply_matches(r, s.0)
            &&& final(stream).buf@ == s.1
            &&& final(stream).pos == s.2
        }),
{
    let m = method;
    let plain = str_eq(m, "write") || str_eq(m, "writelines") || str_eq(m, "getvalue") || str_eq(m, "read")
        || str_eq(m, "readline") || str_eq(m, "readlines") || str_eq(m, "seek") || str_eq(m, "tell")
        || str_eq(m, "truncate") || str_eq(m, "seekable") || str_eq(m, "readable") || str_eq(m, "writable")
        || str_eq(m, "flush") || str_eq(m, "close");
    if plain {
        match reject_kwargs(method, kwargs) {
            Ok(()) => {},
            Err(e) => { return Err(e); },
        }
    }
    let len = stream.buf.len();
    let start: usize = if stream.pos < len { stream.pos } else { len };
    if str_eq(m, "write") {
        let s = match require_str(method, args) {
            Ok(s) => s,
            Err(e) => { return Err(e); },
        };
        let incoming = chars_of(s.as_str());
        let written = incoming.len();
        write_chars(&mut stream.buf, stream.pos, &incoming);
        stream.pos = stream.pos + written;
        let nbytes = s.as_str().len();
        assert(nbytes == encode_utf8(s@).len());
        Ok(StreamReply::Value(MethodOutcome::grew(Value::Int(written as i64), nbytes)))
    } else if str_eq(m, "writelines") {
        let none = Value::PyNone;
        let src: &Value = if args.len() > 0 { &args[0] } else { &none };
        let items = match iterate_value(src) {
            Ok(v) => v,
            Err(e) => { return Err(e); },
        };
        proof { lemma_writelines_grows(view_items(items@), 0, stream.buf@, stream.pos as int, 0); }
        match stream_writelines(stream, &items) {
            Ok(added) => {
                assert(added as int == writelines_from(view_items(items@), 0, old(stream).buf@, old(stream).pos as int, 0).3);
                Ok(StreamReply::Value(MethodOutcome::grew(Value::PyNone, added)))
            },
            Err(e) => Err(e),
        }
    } else if str_eq(m, "getvalue") {
        let v = str_value(&stream.buf);
        pure_reply(v)
    } else if str_eq(m, "read") {
        let end: usize = match opt_size(args) {
            None => len,
            Some(n) => if start + n < len { start + n } else { len },
        };
        let out = sub_chars(&stream.buf, start, end);
        stream.pos = end;
        pure_reply(str_value(&out))
    } else if str_eq(m, "readline") {
        let mut e: usize = start;
        while e < len && stream.buf[e] != '\n'
            invariant
                len == stream.buf@.len(),
                start <= e <= len,
                line_end(stream.buf@, start as int) == line_end(stream.buf@, e as int),
            decreases len - e,
        {
            e = e + 1;
        }
        if e < len {
            e = e + 1;
        }
        let end: usize = match opt_size(args) {
            None => e,
            Some(n) => if start + n < e { start + n } else { e },
        };
        let out = sub_chars(&stream.buf, start, end);
        stream.pos = end;
        pure_reply(str_value(&out))
    } else if str_eq(m, "readlines") {
        let lines = readlines_from(&stream.buf, start);
        stream.pos = len;
        pure_reply(str_list_value(&lines))
    } else if str_eq(m, "seek") {
        let target: usize = match if args.len() > 0 { Some(&args[0]) } else { None } {
            Some(Value::Int(n)) => if *n >= 0 {
                if *n as u64 > usize::MAX as u64 { usize::MAX } else { *n as usize }
            } else {
                return Err(value_error(str_to_string("negative seek position")));
            },
            _ => { return Err(value_error(str_to_string("negative seek position"))); },
        };
        stream.pos = target;
        pure_reply(Value::Int(target as i64))
    } else if str_eq(m, "tell") {
        pure_reply(Value::Int(stream.pos as i64))
    } else if str_eq(m, "truncate") {
        let want: usize = match opt_size(args) { Some(n) => n, None => stream.pos };
        let size: usize = if want < len { want } else { len };
        let kept = sub_chars(&stream.buf, 0, size);
        stream.buf = kept;
        pure_reply(Value::Int(size as i64))
    } else if str_eq(m, "seekable") || str_eq(m, "readable") || str_eq(m, "writable") {
        pure_reply(Value::Bool(true))
    } else if str_eq(m, "flush") || str_eq(m, "close") {
        pure_reply(Value::PyNone)
    } else if str_eq(m, "__enter__") {
        Ok(StreamReply::Stream)
    } else if str_eq(m, "__exit__") {
        pure_reply(Value::Bool(false))
    } else {
        Err(no_attribute("_io.StringIO", method))
    }
}

// ---------------------------------------------------------------------------
// Laws
// ---------------------------------------------------------------------------

/// The concatenation of a sequence of strings.
pub open spec fn concat_all(parts: Seq<Seq<char>>) -> Seq<char>
    decreases parts.len(),
{
    if parts.len() == 0 { Seq::empty() } else { parts[0] + concat_all(parts.drop_first()) }
}

proof fn lemma_concat_all_prepend(x: Seq<char>, rest: Seq<Seq<char>>)
    ensures
        concat_all(seq![x] + rest) == x + concat_all(rest),
{
    assert((seq![x] + rest).drop_first() =~= rest);
}

proof fn lemma_lines_after_cover(buf: Seq<char>, ls: int, i: int)
    requires
        0 <= ls <= i <= buf.len(),
    ensures
        concat_all(lines_after(buf, ls, i)) == buf.subrange(ls, buf.len() as int),
    decreases buf.len() - i,
{
    if i >= buf.len() {
        if ls < buf.len() {
            lemma_concat_all_prepend(buf.subrange(ls, buf.len() as int), Seq::empty());
            assert(seq![buf.subrange(ls, buf.len() as int)] + Seq::<Seq<char>>::empty() =~= seq![buf.subrange(ls, buf.len() as int)]);
            assert(buf.subrange(ls, buf.len() as int) + Seq::<char>::empty() =~= buf.subrange(ls, buf.len() as int));
        } else {
            assert(buf.subrange(ls, buf.len() as int) =~= Seq::<char>::empty());
        }
    } else if buf[i] == '\n' {
        lemma_lines_after_cover(buf, i + 1, i + 1);
        lemma_concat_all_prepend(buf.subrange(ls, i + 1), lines_after(buf, i + 1, i + 1));
        assert(buf.subrange(ls, i + 1) + buf.subrange(i + 1, buf.len() as int) =~= buf.subrange(ls, buf.len() as int));
    } else {
        lemma_lines_after_cover(buf, ls, i + 1);
    }
}

/// The lengths and first characters of the stream's method names, which
/// tell them apart.
proof fn lemma_stream_method_names()
    ensures
        "write"@.len() == 5 && "write"@[0] == 'w',
        "writelines"@.len() == 10 && "writelines"@[0] == 'w',
        "getvalue"@.len() == 8 && "getvalue"@[0] == 'g',
        "read"@.len() == 4 && "read"@[0] == 'r',
        "readline"@.len() == 8 && "readline"@[0] == 'r',
        "readlines"@.len() == 9 && "readlines"@[0] == 'r',
        "seek"@.len() == 4 && "seek"@[0] == 's',
        "tell"@.len() == 4 && "tell"@[0] == 't',
        "truncate"@.len() == 8 && "truncate"@[0] == 't',
        "seekable"@.len() == 8 && "seekable"@[0] == 's',
        "readable"@.len() == 8 && "readable"@[0] == 'r',
        "writable"@.len() == 8 && "writable"@[0] == 'w',
        "flush"@.len() == 5 && "flush"@[0] == 'f',
        "close"@.len() == 5 && "close"@[0] == 'c',
        "__enter__"@.len() == 9 && "__enter__"@[0] == '_',
        "__exit__"@.len() == 8 && "__exit__"@[0] == '_',
        "readable"@[4] == 'a' && "readline"@[4] == 'l',
{
    reveal_strlit("write");
    reveal_strlit("writelines");
    reveal_strlit("getvalue");
    reveal_strlit("read");
    reveal_strlit("readline");
    reveal_strlit("readlines");
    reveal_strlit("seek");
    reveal_strlit("tell");
    reveal_strlit("truncate");
    reveal_strlit("seekable");
    reveal_strlit("readable");
    reveal_strlit("writable");
    reveal_strlit("flush");
    reveal_strlit("close");
    reveal_strlit("__enter__");
    reveal_strlit("__exit__");
}

/// `readlines()` returns the rest of the stream from the cursor, cut after
/// each newline: the lines put back together are exactly that rest, and the
/// cursor ends at the end of the stream.
pub proof fn law_readlines_cover_rest(buf: Seq<char>, pos: int)
    requires
        0 <= pos,
    ensures
        ({
            let r = spec_stringio(buf, pos, "readlines"@, Seq::empty(), Seq::empty());
            let start = min_int(pos, buf.len() as int);
            &&& r.0 == Ok::<ReplyView, ErrSpec>(ReplyView::Value(str_list(lines_after(buf, start, start)), 0))
            &&& concat_all(lines_after(buf, start, start)) == buf.subrange(start, buf.len() as int)
            &&& r.1 == buf
            &&& r.2 == buf.len()
        }),
{
    lemma_stream_method_names();
    let start = min_int(pos, buf.len() as int);
    lemma_lines_after_cover(buf, start, start);
}

/// `seek(n)` for a non-negative `n` that fits the machine moves the cursor
/// to `n`, and `tell()` then reports `n`.
pub proof fn law_seek_then_tell(buf: Seq<char>, pos: int, n: i64)
    requires
        0 <= n <= usize::MAX,
    ensures
        ({
            let sk = spec_stringio(buf, pos, "seek"@, seq![Value::Int(n)], Seq::empty());
            let t = spec_stringio(sk.1, sk.2, "tell"@, Seq::empty(), Seq::empty());
            &&& sk.0 == Ok::<ReplyView, ErrSpec>(ReplyView::Value(PyVal::Int(n as int), 0))
            &&& sk.2 == n
            &&& t.0 == Ok::<ReplyView, ErrSpec>(ReplyView::Value(PyVal::Int(n as int), 0))
            &&& t.1 == buf
        }),
{
    lemma_stream_method_names();
}

/// Writing `s` puts it over the stream from the cursor: the characters
/// before stay (padded with NUL characters up to a cursor past the end),
/// `s` follows, then whatever of the old characters lies past it; the cursor
/// ends just after `s`, and the call returns the number of characters
/// written.
pub proof fn law_write_then_getvalue(buf: Seq<char>, pos: int, s: String)
    requires
        0 <= pos,
        s@.len() <= i64::MAX,
    ensures
        ({
            let w = spec_stringio(buf, pos, "write"@, seq![Value::String(s)], Seq::empty());
            let g = spec_stringio(w.1, w.2, "getvalue"@, Seq::empty(), Seq::empty());
            let before = pad_to(buf, pos).subrange(0, pos);
            let after = if pos + s@.len() < buf.len() { buf.subrange(pos + s@.len(), buf.len() as int) } else { Seq::empty() };
            &&& w.0 == Ok::<ReplyView, ErrSpec>(ReplyView::Value(PyVal::Int(s@.len() as int), saturating_isize(encode_utf8(s@).len() as int)))
            &&& w.2 == pos + s@.len()
            &&& g.0 == Ok::<ReplyView, ErrSpec>(ReplyView::Value(PyVal::Str(before + s@ + after), 0))
        }),
{
    lemma_stream_method_names();
    let before = pad_to(buf, pos).subrange(0, pos);
    let after = if pos + s@.len() < buf.len() { buf.subrange(pos + s@.len(), buf.len() as int) } else { Seq::empty() };
    assert(write_at(buf, pos, s@) =~= before + s@ + after);
}

/// A write past the end pads the gap with NUL characters: on a stream of
/// `n` characters with the cursor at `pos >= n`, `write(s)` leaves the old
/// characters, `pos - n` NULs, then `s`, with the cursor after `s`.
pub proof fn law_write_past_end_pads(buf: Seq<char>, pos: int, s: String)
    requires
        buf.len() <= pos,
        s@.len() <= i64::MAX,
    ensures
        ({
            let w = spec_stringio(buf, pos, "write"@, seq![Value::String(s)], Seq::empty());
            &&& w.1 == buf + Seq::new((pos - buf.len()) as nat, |i: int| '\0') + s@
            &&& w.2 == pos + s@.len()
        }),
{
    lemma_stream_method_names();
    assert(write_at(buf, pos, s@) =~= buf + Seq::new((pos - buf.len()) as nat, |i: int| '\0') + s@);
}

/// What is written can be read back: after `write(s)`, seeking to where `s`
/// went and reading `len(s)` characters returns `s`.
pub proof fn law_write_then_read_back(buf: Seq<char>, pos: int, s: String)
    requires
        0 <= pos,
        pos + s@.len() <= i64::MAX,
        pos + s@.len() <= usize::MAX,
    ensures
        ({
            let w = spec_stringio(buf, pos, "write"@, seq![Value::String(s)], Seq::empty());
            let sk = spec_stringio(w.1, w.2, "seek"@, seq![Value::Int(pos as i64)], Seq::empty());
            let rd = spec_stringio(sk.1, sk.2, "read"@, seq![Value::Int(s@.len() as i64)], Seq::empty());
            &&& rd.0 == Ok::<ReplyView, ErrSpec>(ReplyView::Value(PyVal::Str(s@), 0))
            &&& rd.2 == pos + s@.len()
        }),
{
    lemma_stream_method_names();
    let nb = write_at(buf, pos, s@);
    assert(nb.subrange(pos, pos + s@.len()) =~= s@);
}

/// The queries and no-ops (`getvalue`, `tell`, `seekable`, `readable`,
/// `writable`, `flush`, `close`, `__exit__`) leave the stream as it was.
pub proof fn law_queries_keep_stream(buf: Seq<char>, pos: int, method: Seq<char>, args: Seq<Value>)
    requires
        method == "getvalue"@ || method == "tell"@ || method == "seekable"@ || method == "readable"@
            || method == "writable"@ || method == "flush"@ || method == "close"@ || method == "__exit__"@,
    ensures
        spec_stringio(buf, pos, method, args, Seq::empty()).1 == buf,
        spec_stringio(buf, pos, method, args, Seq::empty()).2 == pos,
{
    lemma_stream_method_names();
}

} // verus!
