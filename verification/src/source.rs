//! Source positions: mapping a byte offset of a script to its line.

use vstd::prelude::*;
use vstd::string::StringSliceAdditionalSpecFns;

verus! {

/// Number of newline bytes (`b'\n'`) in `bytes`.
pub open spec fn newline_count(bytes: Seq<u8>) -> nat
    decreases bytes.len(),
{
    if bytes.len() == 0 {
        0
    } else {
        newline_count(bytes.drop_last()) + (if bytes.last() == 10u8 { 1nat } else { 0nat })
    }
}

/// The 1-based line on which byte `offset` of `source` falls.
pub open spec fn spec_line_of(source: Seq<u8>, offset: int) -> int {
    if offset > source.len() {
        1
    } else {
        newline_count(source.take(offset)) + 1int
    }
}

proof fn lemma_newline_count_bound(bytes: Seq<u8>)
    ensures
        newline_count(bytes) <= bytes.len(),
    decreases bytes.len(),
{
    if bytes.len() > 0 {
        lemma_newline_count_bound(bytes.drop_last());
    }
}

/// 1-based line number that byte `offset` falls on inside `source`.
/// An offset past the end yields line 1, so a diagnostic still names a line.
/// The count runs over bytes, so an offset inside a multi-byte character is
/// accepted like any other.
pub fn line_of(source: &str, offset: usize) -> (line: usize)
    requires
        source.spec_bytes().len() < usize::MAX,
    ensures
        line == spec_line_of(source.spec_bytes(), offset as int),
{
    let bytes = source.as_bytes();
    if offset > bytes.len() {
        return 1;
    }
    let mut count: usize = 0;
    let mut i: usize = 0;
    while i < offset
        invariant
            offset <= bytes@.len(),
            i <= offset,
            count == newline_count(bytes@.take(i as int)),
        decreases offset - i,
    {
        assert(bytes@.take(i + 1).drop_last() =~= bytes@.take(i as int));
        proof {
            lemma_newline_count_bound(bytes@.take(i as int));
        }
        if bytes[i] == 10u8 {
            count = count + 1;
        }
        i = i + 1;
    }
    proof {
        lemma_newline_count_bound(bytes@.take(offset as int));
    }
    count + 1
}

} // verus!
