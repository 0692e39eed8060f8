//! A verified core of a sandboxed Python interpreter: the value model, the
//! method tables of `str`, `bytes`, `bytearray`, `io.StringIO`, `list`,
//! `tuple` and `collections.deque`, the collection and binding of call
//! arguments, the builtins that compute on their arguments alone,
//! equality of values, dictionary keys of values and their equality, integer parsing and
//! byte encoding, the numeric helpers that the builtins share, and the
//! rendering of default-value expressions back to source text.

pub mod source;
pub mod value;
pub mod text;
pub mod unicode;
pub mod error;
pub mod kwargs;
pub mod numeric;
pub mod outcome;
pub mod bytes_methods;
pub mod str_methods;
pub mod stringio;
pub mod keys;
pub mod arith;
pub mod helpers;
pub mod builtins;
pub mod int_methods;
pub mod method_tables;
pub mod int_bytes;
pub mod int_parse;
pub mod wide_methods;
pub mod pure_builtins;
pub mod equality;
pub mod deque_methods;
pub mod unparse;
pub mod params;
pub mod call_args;
pub mod list_methods;
pub mod callables;
