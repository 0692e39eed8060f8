# interpretthis (verified core)

The computational core of a sandboxed Python interpreter, written in Verus:
every function in `src/` carries a contract over a mathematical model of
Python values (`PyVal`), and Verus proves the code against it.

Layout of `src/`:

- `value.rs`: runtime values and their view; truthiness, type names,
  iteration of the builtin containers.
- `error.rs`: interpreter errors and exceptions; decimal rendering; stamping
  a source line onto an error.
- `source.rs`: the line of a byte offset in a script.
- `text.rs`, `unicode.rs`: characters, search, and the Unicode properties
  taken from the standard library.
- `kwargs.rs`: keyword arguments (an `indexmap::IndexMap`) and binding of
  arguments onto method parameters.
- `numeric.rs`, `arith.rs`: index conversion, integer arguments, banker's
  rounding, modular inverse and three-argument `pow`.
- `str_methods.rs`, `bytes_methods.rs`, `stringio.rs`, `int_methods.rs`,
  `method_tables.rs`: the method tables of `str`, `bytes`, `bytearray`,
  `memoryview`, `io.StringIO` and `int`.
- `builtins.rs`, `helpers.rs`, `keys.rs`: `chr`, `ord`, `bin`/`oct`/`hex`,
  the `bytes` constructor, small conversions, and dictionary keys.
- `int_bytes.rs`, `int_parse.rs`: `int.from_bytes`, `int.to_bytes`,
  `int(x)` and `int(text, base)`, over integers of any size held as a
  machine word or a sign and big-endian magnitude (`WideInt`); the digits
  of a literal are parsed by num-bigint.
- `wide_methods.rs`: the `int` methods on a receiver beyond a machine
  word (rounding to tens, bit length and count, sign operations).
- `pure_builtins.rs`: the builtins that compute on their arguments alone
  (`len`, `bool`, `abs`, `all`, `any`, `list`, `tuple`, `round`, `int`,
  `chr`, `ord`, `bin`, `oct`, `hex`, `bytes`, `bytearray`).
- `equality.rs`: Python's `==` on values, across `bool`, `int` and
  `float`, and member by member on containers.
- `deque_methods.rs`: the methods of `collections.deque`, with `maxlen`
  enforced on every push.
- `unparse.rs`: an expression tree for default values and its rendering
  back to Python source text.
- `list_methods.rs`: the methods of `list` and `tuple`.
- `call_args.rs`: collecting the evaluated arguments of a call (`*` and
  `**` spread, later keywords replacing earlier ones).
- `params.rs`: binding a call's arguments onto a function's parameters,
  and the test for the fast call frame.
- `callables.rs`: the unbound methods of the builtin types and the
  arguments a `functools.partial` object passes on.

Laws that relate several calls are public proof functions named `law_*`
(for example `stringio::law_write_then_read_back`,
`str_methods::law_split_then_join`, `bytes_methods::law_hex_then_fromhex`,
`int_bytes::law_to_bytes_then_from_bytes`,
`int_bytes::law_to_bytes_call_then_from_bytes_call`,
`keys::law_equal_values_same_key`,
`bytes_methods::law_fromhex_ignores_case_and_whitespace`,
`deque_methods::law_deque_stays_bounded`,
`deque_methods::law_deque_rotate_then_back`,
`list_methods::law_list_append_then_pop`,
`call_args::law_later_keyword_wins`,
`params::law_positional_arguments_bind_in_order`,
`callables::law_partial_call_keyword_wins`,
`unparse::law_str_constant_on_one_line`).
