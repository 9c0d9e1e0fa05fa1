//! Numeric literals: an optional sign, an integer part, and an optional
//! fractional part.
//!
//! A literal keeps the exact bytes it was parsed from, so a number always
//! serializes back to its source form; numeric readings are derived views of
//! those bytes.

use vstd::prelude::*;
use crate::ser::RawSerializer;
use crate::fill::clone_bytes;

verus! {

/// ASCII code of `-`.
pub const CH_MINUS: u8 = 45;
/// ASCII code of `.`.
pub const CH_DOT: u8 = 46;

use crate::CH_ZERO;
use crate::CH_NINE;

/// True for ASCII decimal digits.
pub open spec fn is_digit(b: u8) -> bool {
    CH_ZERO <= b && b <= CH_NINE
}

/// Where the run of decimal digits starting at `pos` ends.
pub open spec fn digits_end(s: Seq<u8>, pos: int) -> int
    decreases s.len() - pos,
{
    if 0 <= pos < s.len() && is_digit(s[pos]) {
        digits_end(s, pos + 1)
    } else {
        pos
    }
}

/// A digit run never ends before its start, nor past the input.
pub proof fn lemma_digits_end_bounds(s: Seq<u8>, pos: int)
    requires
        0 <= pos <= s.len(),
    ensures
        pos <= digits_end(s, pos) <= s.len(),
    decreases s.len() - pos,
{
    if pos < s.len() && is_digit(s[pos]) {
        lemma_digits_end_bounds(s, pos + 1);
    }
}

/// Scanning a digit run inside a subrange agrees with scanning the whole
/// input, as long as the run stops at or before the subrange's end.
pub proof fn lemma_digits_end_subrange(s: Seq<u8>, a: int, b: int, pos: int)
    requires
        0 <= a <= pos <= b <= s.len(),
        digits_end(s, pos) <= b,
    ensures
        digits_end(s.subrange(a, b), pos - a) == digits_end(s, pos) - a,
    decreases b - pos,
{
    let sub = s.subrange(a, b);
    if pos < b && is_digit(s[pos]) {
        assert(sub[pos - a] == s[pos]);
        lemma_digits_end_subrange(s, a, b, pos + 1);
    } else if pos == b {
        lemma_digits_end_bounds(s, pos);
        assert(digits_end(s, pos) == pos);
    } else {
        assert(!is_digit(sub[pos - a]));
    }
}

/// Every byte strictly inside a digit run is a digit.
pub proof fn lemma_digits_run(s: Seq<u8>, pos: int, i: int)
    requires
        0 <= pos <= s.len(),
        pos <= i < digits_end(s, pos),
    ensures
        is_digit(s[i]),
    decreases s.len() - pos,
{
    lemma_digits_end_bounds(s, pos);
    if pos < s.len() && is_digit(s[pos]) {
        if i > pos {
            lemma_digits_run(s, pos + 1, i);
        }
    }
}

/// A run of digits followed by a non-digit (or the input's end) scans to
/// exactly its own end.
pub proof fn lemma_digits_end_exact(s: Seq<u8>, a: int, b: int)
    requires
        0 <= a <= b <= s.len(),
        forall|i: int| a <= i < b ==> is_digit(#[trigger] s[i]),
        b == s.len() || !is_digit(s[b]),
    ensures
        digits_end(s, a) == b,
    decreases b - a,
{
    if a < b {
        assert(is_digit(s[a]));
        lemma_digits_end_exact(s, a + 1, b);
    }
}

/// A digit run that starts on a digit covers at least that digit.
pub proof fn lemma_digits_end_step(s: Seq<u8>, pos: int)
    requires
        0 <= pos < s.len(),
        is_digit(s[pos]),
    ensures
        digits_end(s, pos) >= pos + 1,
{
    lemma_digits_end_bounds(s, pos + 1);
}

/// True when a numeric literal starts at `pos`: a digit, or a minus sign
/// followed by a digit.
pub open spec fn num_starts(s: Seq<u8>, pos: int) -> bool {
    0 <= pos < s.len() && (is_digit(s[pos]) || (s[pos] == CH_MINUS && pos + 1 < s.len()
        && is_digit(s[pos + 1])))
}

/// Where the numeric literal starting at `pos` ends: the sign, the integer
/// digits, and a fractional part when a dot with at least one digit follows.
pub open spec fn spec_num_end(s: Seq<u8>, pos: int) -> int {
    let d0 = if s[pos] == CH_MINUS {
        pos + 1
    } else {
        pos
    };
    let ie = digits_end(s, d0);
    if ie < s.len() && s[ie] == CH_DOT && ie + 1 < s.len() && is_digit(s[ie + 1]) {
        digits_end(s, ie + 1)
    } else {
        ie
    }
}

/// A whole byte sequence is one numeric literal.
pub open spec fn is_number_lit(b: Seq<u8>) -> bool {
    num_starts(b, 0) && spec_num_end(b, 0) == b.len()
}

/// Value of a digit run read as a base-10 integer.
pub open spec fn digits_value(b: Seq<u8>) -> int
    decreases b.len(),
{
    if b.len() == 0 {
        0
    } else {
        digits_value(b.drop_last()) * 10 + (b.last() - CH_ZERO)
    }
}

/// Copies `src[a..b]` into a fresh vector.
pub fn copy_range(src: &Vec<u8>, a: usize, b: usize) -> (r: Vec<u8>)
    requires
        a <= b <= src@.len(),
    ensures
        r@ == src@.subrange(a as int, b as int),
{
    let mut out: Vec<u8> = Vec::new();
    let mut i: usize = a;
    while i < b
        invariant
            a <= i <= b <= src@.len(),
            out@ == src@.subrange(a as int, i as int),
        decreases b - i,
    {
        out.push(src[i]);
        i = i + 1;
        assert(out@ =~= src@.subrange(a as int, i as int));
    }
    out
}

/// A numeric literal, kept as its source bytes.
#[derive(Debug, Clone, PartialEq, Eq)]
pub struct CafNumberValue {
    /// The literal bytes: optional `-`, integer digits, optional `.` digits.
    pub bytes: Vec<u8>,
}

impl CafNumberValue {
    /// The type's invariant: the bytes form exactly one numeric literal.
    pub open spec fn wf(&self) -> bool {
        is_number_lit(self.bytes@)
    }

    /// Consumes the numeric literal starting at `pos`, when one starts there.
    ///
    /// Reports no match (leaving nothing consumed) when `pos` does not start
    /// a numeric literal.
    pub fn parse(src: &Vec<u8>, pos: usize) -> (r: Option<(CafNumberValue, usize)>)
        requires
            pos <= src@.len(),
        ensures
            r is Some <==> num_starts(src@, pos as int),
            r matches Some(ne) ==> {
                &&& pos < ne.1 <= src@.len()
                &&& ne.1 == spec_num_end(src@, pos as int)
                &&& ne.0.bytes@ == src@.subrange(pos as int, ne.1 as int)
                &&& ne.0.wf()
            },
    {
        let ghost s = src@;
        if pos >= src.len() {
            return None;
        }
        let neg = src[pos] == CH_MINUS;
        let d0: usize = if neg {
            pos + 1
        } else {
            pos
        };
        if d0 >= src.len() || !(CH_ZERO <= src[d0] && src[d0] <= CH_NINE) {
            return None;
        }
        proof {
            lemma_digits_end_bounds(s, d0 as int);
        }
        let ie = Self::scan_digits(src, d0);
        let end: usize = if ie < src.len() && src[ie] == CH_DOT && ie + 1 < src.len() && (CH_ZERO
            <= src[ie + 1] && src[ie + 1] <= CH_NINE) {
            proof {
                lemma_digits_end_bounds(s, ie + 1);
            }
            Self::scan_digits(src, ie + 1)
        } else {
            ie
        };
        let bytes = copy_range(src, pos, end);
        proof {
            let sub = s.subrange(pos as int, end as int);
            let d0i = d0 as int;
            let ied = digits_end(s, d0i);
            lemma_digits_end_step(s, d0i);
            assert(sub[0] == s[pos as int]);
            if neg {
                assert(sub[1] == s[pos + 1]);
            }
            if ied < s.len() && s[ied] == CH_DOT && ied + 1 < s.len() && is_digit(s[ied + 1]) {
                lemma_digits_end_step(s, ied + 1);
                assert(end == digits_end(s, ied + 1));
                lemma_digits_end_subrange(s, pos as int, end as int, d0i);
                assert(sub[ied - pos] == s[ied]);
                assert(sub[ied + 1 - pos] == s[ied + 1]);
                lemma_digits_end_subrange(s, pos as int, end as int, ied + 1);
            } else {
                assert(end == ied);
                lemma_digits_end_subrange(s, pos as int, end as int, d0i);
            }
            assert(num_starts(sub, 0));
            assert(spec_num_end(sub, 0) == end - pos);
        }
        Some((CafNumberValue { bytes }, end))
    }

    /// Scans to the end of the digit run starting at `pos`.
    pub(crate) fn scan_digits(src: &Vec<u8>, pos: usize) -> (r: usize)
        requires
            pos <= src@.len(),
        ensures
            r == digits_end(src@, pos as int),
            pos <= r <= src@.len(),
    {
        let ghost s = src@;
        let mut i: usize = pos;
        while i < src.len() && CH_ZERO <= src[i] && src[i] <= CH_NINE
            invariant
                pos <= i <= s.len(),
                src@ == s,
                digits_end(s, pos as int) == digits_end(s, i as int),
            decreases s.len() - i,
        {
            i = i + 1;
        }
        i
    }

    /// Writes the literal bytes verbatim.
    pub fn write_to(&self, writer: &mut RawSerializer)
        ensures
            final(writer).bytes@ == old(writer).bytes@ + self.bytes@,
    {
        writer.write_bytes(&self.bytes);
    }

    /// Reads the literal as an unsigned integer.
    ///
    /// Succeeds exactly when the literal is all digits (no sign, no
    /// fractional part) and its value fits in a `u64`.
    pub fn as_u64(&self) -> (r: Option<u64>)
        ensures
            r is Some <==> ((forall|i: int| 0 <= i < self.bytes@.len() ==> is_digit(
                #[trigger] self.bytes@[i],
            )) && self.bytes@.len() > 0 && digits_value(self.bytes@) <= u64::MAX),
            r matches Some(v) ==> v == digits_value(self.bytes@),
    {
        if self.bytes.len() == 0 {
            return None;
        }
        let ghost b = self.bytes@;
        let mut acc: u64 = 0;
        let mut i: usize = 0;
        while i < self.bytes.len()
            invariant
                i <= b.len(),
                self.bytes@ == b,
                forall|j: int| 0 <= j < i ==> is_digit(#[trigger] b[j]),
                acc == digits_value(b.subrange(0, i as int)),
                acc <= u64::MAX,
            decreases b.len() - i,
        {
            let d = self.bytes[i];
            if !(CH_ZERO <= d && d <= CH_NINE) {
                return None;
            }
            if acc > (u64::MAX - ((d - CH_ZERO) as u64)) / 10 {
                proof {
                    if forall|j: int| 0 <= j < b.len() ==> is_digit(#[trigger] b[j]) {
                        lemma_digits_value_grows(b, i as int);
                    }
                }
                return None;
            }
            acc = acc * 10 + ((d - CH_ZERO) as u64);
            i = i + 1;
            proof {
                assert(b.subrange(0, i as int).drop_last() =~= b.subrange(0, i - 1));
                assert(b.subrange(0, i as int).last() == d);
            }
        }
        proof {
            assert(b.subrange(0, b.len() as int) =~= b);
        }
        Some(acc)
    }
}

/// Once a digit prefix is too large for a `u64`, the whole run is too.
pub proof fn lemma_digits_value_grows(b: Seq<u8>, i: int)
    requires
        0 <= i < b.len(),
        forall|j: int| 0 <= j < b.len() ==> is_digit(#[trigger] b[j]),
        digits_value(b.subrange(0, i)) * 10 + (b[i] - CH_ZERO) > u64::MAX,
    ensures
        digits_value(b) > u64::MAX,
    decreases b.len() - i,
{
    lemma_digits_value_nonneg(b.subrange(0, i));
    if i + 1 == b.len() {
        assert(b.subrange(0, b.len() as int) =~= b);
        assert(b.subrange(0, i + 1).drop_last() =~= b.subrange(0, i));
        assert(b.subrange(0, i + 1).last() == b[i]);
    } else {
        assert(b.subrange(0, i + 1).drop_last() =~= b.subrange(0, i));
        assert(b.subrange(0, i + 1).last() == b[i]);
        assert(digits_value(b.subrange(0, i + 1)) > u64::MAX);
        lemma_digits_value_grows(b, i + 1);
    }
}

/// A digit run's value is never negative.
pub proof fn lemma_digits_value_nonneg(b: Seq<u8>)
    requires
        forall|j: int| 0 <= j < b.len() ==> is_digit(#[trigger] b[j]),
    ensures
        digits_value(b) >= 0,
    decreases b.len(),
{
    if b.len() > 0 {
        lemma_digits_value_nonneg(b.drop_last());
    }
}

} // verus!
