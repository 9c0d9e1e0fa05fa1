//! Error types for parsing and for builtin-value construction, and the
//! line/column reporting that makes a parse error readable.

use vstd::prelude::*;

verus! {

/// ASCII code of newline, which ends a line.
pub const CH_LINE_FEED: u8 = 10;

/// How many newlines a byte sequence holds.
pub open spec fn count_newlines(s: Seq<u8>) -> int
    decreases s.len(),
{
    if s.len() == 0 {
        0
    } else {
        count_newlines(s.drop_last()) + if s.last() == CH_LINE_FEED {
            1int
        } else {
            0int
        }
    }
}

/// Where the line containing position `pos` starts.
pub open spec fn spec_line_start(s: Seq<u8>, pos: int) -> int
    decreases pos,
{
    if pos <= 0 {
        0
    } else if s[pos - 1] == CH_LINE_FEED {
        pos
    } else {
        spec_line_start(s, pos - 1)
    }
}

/// The 1-based line and column of a byte position, for error reports.
pub fn get_location(src: &Vec<u8>, pos: usize) -> (r: (usize, usize))
    requires
        pos <= src@.len(),
        count_newlines(src@.subrange(0, pos as int)) < usize::MAX,
        pos - spec_line_start(src@, pos as int) < usize::MAX,
    ensures
        r.0 == count_newlines(src@.subrange(0, pos as int)) + 1,
        r.1 == pos - spec_line_start(src@, pos as int) + 1,
{
    let ghost s = src@;
    let mut line: usize = 1;
    let mut start: usize = 0;
    let mut i: usize = 0;
    proof {
        assert(s.subrange(0, 0) =~= Seq::<u8>::empty());
    }
    while i < pos
        invariant
            i <= pos <= s.len(),
            src@ == s,
            count_newlines(s.subrange(0, pos as int)) < usize::MAX,
            line == count_newlines(s.subrange(0, i as int)) + 1,
            start == spec_line_start(s, i as int),
            start <= i,
        decreases pos - i,
    {
        proof {
            assert(s.subrange(0, i + 1).drop_last() =~= s.subrange(0, i as int));
            assert(s.subrange(0, i + 1).last() == s[i as int]);
            lemma_newline_count_monotone(s, i + 1, pos as int);
        }
        if src[i] == CH_LINE_FEED {
            line = line + 1;
            start = i + 1;
        }
        i = i + 1;
    }
    (line, pos - start + 1)
}

/// A prefix of a line-counted region never holds more newlines than the
/// whole region.
pub proof fn lemma_newline_count_monotone(s: Seq<u8>, a: int, b: int)
    requires
        0 <= a <= b <= s.len(),
    ensures
        count_newlines(s.subrange(0, a)) <= count_newlines(s.subrange(0, b)),
    decreases b - a,
{
    if a < b {
        lemma_newline_count_monotone(s, a + 1, b);
        assert(s.subrange(0, a + 1).drop_last() =~= s.subrange(0, a));
        lemma_newline_count_nonneg_step(s, a);
    }
}

/// One more byte adds at most one newline.
pub proof fn lemma_newline_count_nonneg_step(s: Seq<u8>, a: int)
    requires
        0 <= a < s.len(),
    ensures
        count_newlines(s.subrange(0, a)) <= count_newlines(s.subrange(0, a + 1)),
{
    assert(s.subrange(0, a + 1).drop_last() =~= s.subrange(0, a));
}

/// A parse error, carrying the byte position of the offending input.
#[derive(Debug, Clone, Copy, PartialEq, Eq, Structural)]
pub struct SpanError {
    /// Byte offset into the source where the parse failed.
    pub pos: usize,
}

/// Errors raised while interpreting parsed values as builtins.
#[derive(Debug, Clone, Copy, PartialEq, Eq, Structural)]
pub enum CafError {
    /// A value declared under a builtin type name has the wrong shape.
    MalformedBuiltin,
}

} // verus!
