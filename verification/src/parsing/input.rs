//! Input type and position tracking.

use crate::parsing::error::ParseError;
use vstd::prelude::*;
use vstd::string::*;

verus! {

/// Input type for parsers (a borrowed string).
pub type Input<'a> = &'a str;

/// Result of a parser: the remaining input and the parsed value, or an error.
pub type ParseResult<'a, T> = Result<(Input<'a>, T), ParseError>;

/// Number of newline bytes in `b`.
pub open spec fn count_newlines(b: Seq<u8>) -> nat
    decreases b.len(),
{
    if b.len() == 0 {
        0
    } else {
        count_newlines(b.drop_last()) + if b.last() == 10u8 { 1nat } else { 0nat }
    }
}

/// Byte offset just after the last newline of `b`, or 0 when `b` holds none.
pub open spec fn line_start(b: Seq<u8>) -> nat
    decreases b.len(),
{
    if b.len() == 0 {
        0
    } else if b.last() == 10u8 {
        b.len()
    } else {
        line_start(b.drop_last())
    }
}

/// The prefix of `bytes` that a position at byte `index` looks back over.
pub open spec fn prefix_before(bytes: Seq<u8>, index: int) -> Seq<u8> {
    bytes.take(if index < bytes.len() { index } else { bytes.len() as int })
}

/// The 1-indexed line of byte `index` of `bytes`.
pub open spec fn line_of(bytes: Seq<u8>, index: int) -> int {
    count_newlines(prefix_before(bytes, index)) as int + 1
}

/// The 1-indexed column of byte `index` of `bytes`.
pub open spec fn column_of(bytes: Seq<u8>, index: int) -> int {
    index - line_start(prefix_before(bytes, index)) + 1
}

/// What computing a position demands: the looked-back prefix ends on a
/// character boundary and neither number overflows.
pub open spec fn position_ok(input: &str, index: usize) -> bool {
    let bytes = input.spec_bytes();
    &&& vstd::utf8::is_char_boundary(bytes, prefix_before(bytes, index as int).len() as int)
    &&& line_of(bytes, index as int) <= usize::MAX
    &&& column_of(bytes, index as int) <= usize::MAX
}

proof fn lemma_line_start_le(b: Seq<u8>)
    ensures
        line_start(b) <= b.len(),
        count_newlines(b) <= b.len(),
    decreases b.len(),
{
    if b.len() > 0 {
        lemma_line_start_le(b.drop_last());
    }
}

/// Calculate the 1-indexed line and column of byte `index` in `input`.
pub fn get_position(input: Input, index: usize) -> (r: (usize, usize))
    requires
        position_ok(input, index),
    ensures
        r.0 == line_of(input.spec_bytes(), index as int),
        r.1 == column_of(input.spec_bytes(), index as int),
{
    let bytes = input.as_bytes();
    let k = if index < bytes.len() { index } else { bytes.len() };
    let ghost b = bytes@;
    let mut count: usize = 0;
    let mut last: usize = 0;
    let mut i: usize = 0;
    while i < k
        invariant
            b == bytes@,
            b == input.spec_bytes(),
            k <= b.len(),
            k == prefix_before(b, index as int).len(),
            i <= k,
            count == count_newlines(b.take(i as int)),
            last == line_start(b.take(i as int)),
            line_of(b, index as int) <= usize::MAX,
        decreases k - i,
    {
        proof {
            assert(b.take(i + 1).drop_last() =~= b.take(i as int));
            lemma_line_start_le(b.take(i as int));
            lemma_count_mono(b, i as int, k as int);
        }
        if bytes[i] == 10u8 {
            count = count + 1;
            last = i + 1;
        }
        i = i + 1;
    }
    proof {
        assert(b.take(k as int) =~= prefix_before(b, index as int));
        lemma_line_start_le(b.take(k as int));
    }
    (count + 1, index - last + 1)
}

proof fn lemma_count_mono(b: Seq<u8>, i: int, k: int)
    requires
        0 <= i < k <= b.len(),
    ensures
        count_newlines(b.take(i + 1)) <= count_newlines(b.take(k)),
    decreases k - i,
{
    if i + 1 < k {
        lemma_count_mono(b, i + 1, k);
        assert(b.take(i + 2).drop_last() =~= b.take(i + 1));
    } else {
    }
}

/// Create a parse error carrying `message` at byte `index` of `input`.
pub fn error_at(input: Input, message: &str, index: usize) -> (e: ParseError)
    requires
        position_ok(input, index),
    ensures
        e.message@ == message@,
        e.line == line_of(input.spec_bytes(), index as int),
        e.column == column_of(input.spec_bytes(), index as int),
{
    let (line, column) = get_position(input, index);
    ParseError::new(message, line, column)
}

/// Every input admits an error at its start, and it stands at line 1, column 1.
pub proof fn lemma_start_position(input: &str)
    ensures
        position_ok(input, 0),
        line_of(input.spec_bytes(), 0) == 1,
        column_of(input.spec_bytes(), 0) == 1,
{
    let bytes = input.spec_bytes();
    vstd::utf8::encode_utf8_valid_utf8(input@);
    vstd::utf8::is_char_boundary_start_end_of_seq(bytes);
    assert(prefix_before(bytes, 0) =~= Seq::<u8>::empty());
}


/// Lines and columns are 1-indexed: every position lies at line 1 or later and at
/// column 1 or later.
pub proof fn lemma_position_one_indexed(bytes: Seq<u8>, index: int)
    requires
        0 <= index,
    ensures
        line_of(bytes, index) >= 1,
        column_of(bytes, index) >= 1,
{
    lemma_line_start_le(prefix_before(bytes, index));
}

/// The byte after a newline starts the next line: it stands at column 1, one line
/// below the newline.
pub proof fn lemma_position_after_newline(bytes: Seq<u8>, index: int)
    requires
        0 < index <= bytes.len(),
        bytes[index - 1] == 10u8,
    ensures
        column_of(bytes, index) == 1,
        line_of(bytes, index) == line_of(bytes, index - 1) + 1,
{
    assert(prefix_before(bytes, index) =~= bytes.take(index));
    assert(prefix_before(bytes, index - 1) =~= bytes.take(index - 1));
    assert(bytes.take(index).drop_last() =~= bytes.take(index - 1));
}
} // verus!
