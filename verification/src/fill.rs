//! "Fill" capture: the whitespace and comment bytes that sit between syntax
//! nodes.
//!
//! Fill is kept verbatim on each parsed node so that an untouched tree
//! serializes back to its original bytes. A node built in code has empty
//! fill, and serializing it falls back to a caller-chosen spacer.

use vstd::prelude::*;
use crate::ser::RawSerializer;

verus! {

/// ASCII code of space.
pub const CH_SPACE: u8 = 32;
/// ASCII code of newline.
pub const CH_NEWLINE: u8 = 10;
/// ASCII code of carriage return.
pub const CH_CR: u8 = 13;
/// ASCII code of horizontal tab.
pub const CH_TAB: u8 = 9;
/// ASCII code of `/`.
pub const CH_SLASH: u8 = 47;

/// True for bytes that count as plain whitespace between nodes.
pub open spec fn is_fill_whitespace(b: u8) -> bool {
    b == CH_SPACE || b == CH_NEWLINE || b == CH_CR || b == CH_TAB
}

/// Where the fill region starting at `pos` ends.
///
/// Fill is a run of whitespace bytes and `//` line comments; a comment runs
/// to the next newline (the newline itself is consumed as whitespace). When
/// `in_comment` is set, scanning starts in the middle of a comment.
pub open spec fn spec_fill_end(s: Seq<u8>, pos: int, in_comment: bool) -> int
    decreases s.len() - pos,
{
    if pos < 0 || pos >= s.len() {
        s.len() as int
    } else if in_comment {
        if s[pos] == CH_NEWLINE {
            spec_fill_end(s, pos + 1, false)
        } else {
            spec_fill_end(s, pos + 1, true)
        }
    } else if is_fill_whitespace(s[pos]) {
        spec_fill_end(s, pos + 1, false)
    } else if s[pos] == CH_SLASH && pos + 1 < s.len() && s[pos + 1] == CH_SLASH {
        spec_fill_end(s, pos + 2, true)
    } else {
        pos
    }
}

/// The end of a fill region never lies before its start, nor past the input.
pub proof fn lemma_fill_end_bounds(s: Seq<u8>, pos: int, in_comment: bool)
    requires
        0 <= pos <= s.len(),
    ensures
        pos <= spec_fill_end(s, pos, in_comment) <= s.len(),
    decreases s.len() - pos,
{
    if pos < s.len() {
        if in_comment {
            lemma_fill_end_bounds(s, pos + 1, false);
            lemma_fill_end_bounds(s, pos + 1, true);
        } else if is_fill_whitespace(s[pos]) {
            lemma_fill_end_bounds(s, pos + 1, false);
        } else if s[pos] == CH_SLASH && pos + 1 < s.len() && s[pos + 1] == CH_SLASH {
            lemma_fill_end_bounds(s, pos + 2, true);
        }
    }
}

/// Whitespace and comment bytes captured ahead of a syntax node.
#[derive(Debug, Clone, PartialEq, Eq)]
pub struct CafFill {
    /// The captured bytes, verbatim.
    pub bytes: Vec<u8>,
}

impl CafFill {
    /// An empty fill, as carried by nodes built in code.
    pub fn default() -> (r: CafFill)
        ensures
            r.bytes@ == Seq::<u8>::empty(),
    {
        CafFill { bytes: Vec::new() }
    }

    /// Builds a fill from captured bytes.
    pub fn from_bytes(bytes: Vec<u8>) -> (r: CafFill)
        ensures
            r.bytes@ == bytes@,
    {
        CafFill { bytes }
    }

    /// Consumes the fill region of `src` that starts at `pos`.
    ///
    /// Returns the captured bytes and the position of the first byte after
    /// the fill; the capture is exactly the consumed range, which is what
    /// makes byte-exact round trips possible.
    pub fn parse(src: &Vec<u8>, pos: usize) -> (r: (CafFill, usize))
        requires
            pos <= src@.len(),
        ensures
            pos <= r.1 <= src@.len(),
            r.1 == spec_fill_end(src@, pos as int, false),
            r.0.bytes@ == src@.subrange(pos as int, r.1 as int),
    {
        let ghost s = src@;
        let mut i: usize = pos;
        let mut in_comment: bool = false;
        let mut captured: Vec<u8> = Vec::new();
        proof {
            lemma_fill_end_bounds(s, pos as int, false);
        }
        loop
            invariant
                pos <= i <= s.len(),
                src@ == s,
                spec_fill_end(s, pos as int, false) == spec_fill_end(s, i as int, in_comment),
                captured@ == s.subrange(pos as int, i as int),
            ensures
                pos <= i <= s.len(),
                i == spec_fill_end(s, pos as int, false),
                captured@ == s.subrange(pos as int, i as int),
            decreases s.len() - i,
        {
            proof {
                lemma_fill_end_bounds(s, i as int, in_comment);
            }
            if i >= src.len() {
                break ;
            }
            let b = src[i];
            if in_comment {
                captured.push(b);
                if b == CH_NEWLINE {
                    in_comment = false;
                }
                i = i + 1;
            } else if b == CH_SPACE || b == CH_NEWLINE || b == CH_CR || b == CH_TAB {
                captured.push(b);
                i = i + 1;
            } else if b == CH_SLASH && i + 1 < src.len() && src[i + 1] == CH_SLASH {
                captured.push(b);
                captured.push(src[i + 1]);
                in_comment = true;
                i = i + 2;
            } else {
                break ;
            }
            assert(captured@ =~= s.subrange(pos as int, i as int));
        }
        (CafFill { bytes: captured }, i)
    }

    /// Writes the captured bytes; where none were captured, writes `space`.
    pub fn write_to_or_else(&self, writer: &mut RawSerializer, space: &Vec<u8>)
        ensures
            final(writer).bytes@ == old(writer).bytes@ + spec_fill_or(self.bytes@, space@),
    {
        if self.bytes.len() == 0 {
            writer.write_bytes(space);
        } else {
            writer.write_bytes(&self.bytes);
        }
    }

    /// Writes the captured bytes, with nothing in their place when empty.
    pub fn write_to(&self, writer: &mut RawSerializer)
        ensures
            final(writer).bytes@ == old(writer).bytes@ + self.bytes@,
    {
        writer.write_bytes(&self.bytes);
    }

    /// Adopts the fill of `other`, as used when migrating layout from a
    /// previously parsed tree onto a freshly built one.
    pub fn recover(&mut self, other: &CafFill)
        ensures
            final(self).bytes@ == other.bytes@,
    {
        self.bytes = clone_bytes(&other.bytes);
    }
}

/// What a fill serializes as: its captured bytes, or the fallback spacer.
pub open spec fn spec_fill_or(fill: Seq<u8>, space: Seq<u8>) -> Seq<u8> {
    if fill.len() == 0 {
        space
    } else {
        fill
    }
}

/// Copies a byte vector.
pub fn clone_bytes(v: &Vec<u8>) -> (r: Vec<u8>)
    ensures
        r@ == v@,
{
    let mut out: Vec<u8> = Vec::new();
    let mut i: usize = 0;
    while i < v.len()
        invariant
            i <= v.len(),
            out@ == v@.subrange(0, i as int),
        decreases v.len() - i,
    {
        out.push(v[i]);
        i = i + 1;
        assert(out@ =~= v@.subrange(0, i as int));
    }
    assert(out@ =~= v@);
    out
}

} // verus!
