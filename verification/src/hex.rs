//! Hex color literals: `#` followed by exactly six or eight hexadecimal
//! digits (alpha first when eight).
//!
//! A parsed color keeps its digit bytes verbatim, so an untouched color
//! serializes back to its source form; the channel bytes are a derived view.

use vstd::prelude::*;
use crate::{is_hex_digit, hex_digit_value, check_hex_digit, eval_hex_digit};
use crate::fill::{CafFill, spec_fill_end, spec_fill_or};
use crate::num::copy_range;
use crate::ser::RawSerializer;
use crate::err::SpanError;

verus! {

/// ASCII code of `#`.
pub const CH_HASH: u8 = 35;

/// A color with one exact byte per channel.
#[derive(Debug, Clone, Copy, PartialEq, Eq, Structural)]
pub struct Srgba {
    /// Red channel.
    pub red: u8,
    /// Green channel.
    pub green: u8,
    /// Blue channel.
    pub blue: u8,
    /// Alpha channel; 255 is fully opaque.
    pub alpha: u8,
}

/// Where the run of hexadecimal digits starting at `pos` ends.
pub open spec fn hex_end(s: Seq<u8>, pos: int) -> int
    decreases s.len() - pos,
{
    if 0 <= pos < s.len() && is_hex_digit(s[pos]) {
        hex_end(s, pos + 1)
    } else {
        pos
    }
}

/// A hex-digit run never ends before its start, nor past the input.
pub proof fn lemma_hex_end_bounds(s: Seq<u8>, pos: int)
    requires
        0 <= pos <= s.len(),
    ensures
        pos <= hex_end(s, pos) <= s.len(),
    decreases s.len() - pos,
{
    if pos < s.len() && is_hex_digit(s[pos]) {
        lemma_hex_end_bounds(s, pos + 1);
    }
}

/// Every byte strictly inside a hex-digit run is a hex digit.
pub proof fn lemma_hex_run_digits(s: Seq<u8>, pos: int, i: int)
    requires
        0 <= pos <= s.len(),
        pos <= i < hex_end(s, pos),
    ensures
        is_hex_digit(s[i]),
    decreases s.len() - pos,
{
    lemma_hex_end_bounds(s, pos);
    if pos < s.len() && is_hex_digit(s[pos]) {
        if i > pos {
            lemma_hex_run_digits(s, pos + 1, i);
        }
    }
}

/// Channel value encoded by the digit pair at positions `2*i` and `2*i + 1`.
pub open spec fn spec_channel(d: Seq<u8>, i: int) -> u8 {
    (hex_digit_value(d[2 * i]) * 16 + hex_digit_value(d[2 * i + 1])) as u8
}

/// The color encoded by six (RGB) or eight (ARGB) hex digits.
pub open spec fn spec_color_of_digits(d: Seq<u8>) -> Srgba {
    if d.len() == 8 {
        Srgba {
            alpha: spec_channel(d, 0),
            red: spec_channel(d, 1),
            green: spec_channel(d, 2),
            blue: spec_channel(d, 3),
        }
    } else {
        Srgba { alpha: 255, red: spec_channel(d, 0), green: spec_channel(d, 1), blue: spec_channel(d, 2) }
    }
}

/// A hex color literal with the fill captured ahead of it.
#[derive(Debug, Clone, PartialEq, Eq)]
pub struct CafHexColor {
    /// Fill captured ahead of the literal.
    pub fill: CafFill,
    /// The digit bytes exactly as written: six digits, or eight with alpha
    /// leading.
    pub digits: Vec<u8>,
}

impl CafHexColor {
    /// The type's invariant: six or eight bytes, all hexadecimal digits.
    pub open spec fn wf(&self) -> bool {
        &&& (self.digits@.len() == 6 || self.digits@.len() == 8)
        &&& forall|i: int| 0 <= i < self.digits@.len() ==> is_hex_digit(#[trigger] self.digits@[i])
    }

    /// The color the literal encodes.
    pub open spec fn spec_color(&self) -> Srgba {
        spec_color_of_digits(self.digits@)
    }

    /// What the literal itself serializes as, fill aside.
    pub open spec fn spec_content(&self) -> Seq<u8> {
        seq![CH_HASH] + self.digits@
    }

    /// Decodes the channel bytes from the stored digits.
    pub fn color(&self) -> (r: Srgba)
        requires
            self.wf(),
        ensures
            r == self.spec_color(),
    {
        if self.digits.len() == 8 {
            Srgba {
                alpha: Self::channel(&self.digits, 0),
                red: Self::channel(&self.digits, 1),
                green: Self::channel(&self.digits, 2),
                blue: Self::channel(&self.digits, 3),
            }
        } else {
            Srgba {
                alpha: 255,
                red: Self::channel(&self.digits, 0),
                green: Self::channel(&self.digits, 1),
                blue: Self::channel(&self.digits, 2),
            }
        }
    }

    /// Decodes the channel at pair index `i`.
    fn channel(d: &Vec<u8>, i: usize) -> (r: u8)
        requires
            i < 4,
            2 * i + 1 < d@.len(),
            is_hex_digit(d@[2 * i as int]),
            is_hex_digit(d@[2 * i + 1]),
        ensures
            r == spec_channel(d@, i as int),
    {
        let hi = eval_hex_digit(d[2 * i]);
        let lo = eval_hex_digit(d[2 * i + 1]);
        hi * 16 + lo
    }

    /// Consumes the hex color literal starting at `pos`, when one starts
    /// there.
    ///
    /// A `#` commits the parse: when the digit run after it has a length
    /// other than six or eight, the result is a parse error rather than a
    /// mere non-match. Without a leading `#` nothing is consumed and the
    /// passed-in fill comes back untouched.
    pub fn try_parse(fill: CafFill, src: &Vec<u8>, pos: usize) -> (r: Result<
        (Option<CafHexColor>, CafFill, usize),
        SpanError,
    >)
        requires
            pos <= src@.len(),
        ensures
            r is Err <==> (pos < src@.len() && src@[pos as int] == CH_HASH && hex_end(
                src@,
                pos + 1,
            ) - pos - 1 != 6 && hex_end(src@, pos + 1) - pos - 1 != 8),
            r matches Err(e) ==> e.pos == pos,
            r matches Ok(ofp) ==> {
                &&& (ofp.0 is Some <==> (pos < src@.len() && src@[pos as int] == CH_HASH && (
                hex_end(src@, pos + 1) - pos - 1 == 6 || hex_end(src@, pos + 1) - pos - 1 == 8)))
                &&& (ofp.0 is None ==> ofp.1.bytes@ == fill.bytes@ && ofp.2 == pos)
                &&& (ofp.0 matches Some(c) ==> {
                    let de = hex_end(src@, pos + 1);
                    &&& c.fill.bytes@ == fill.bytes@
                    &&& c.digits@ == src@.subrange(pos + 1, de)
                    &&& c.wf()
                    &&& c.spec_content() == src@.subrange(pos as int, de)
                    &&& ofp.2 == spec_fill_end(src@, de, false)
                    &&& de <= ofp.2 <= src@.len()
                    &&& ofp.1.bytes@ == src@.subrange(de, ofp.2 as int)
                })
            },
    {
        let ghost s = src@;
        if pos >= src.len() || src[pos] != CH_HASH {
            return Ok((None, fill, pos));
        }
        proof {
            lemma_hex_end_bounds(s, pos + 1);
        }
        let de = Self::scan_hex(src, pos + 1);
        let n = de - (pos + 1);
        if n != 6 && n != 8 {
            return Err(SpanError { pos });
        }
        let digits = copy_range(src, pos + 1, de);
        proof {
            assert forall|i: int| 0 <= i < digits@.len() implies is_hex_digit(
                #[trigger] digits@[i],
            ) by {
                lemma_hex_run_digits(s, pos + 1, pos + 1 + i);
            }
            assert(seq![CH_HASH] + digits@ =~= s.subrange(pos as int, de as int));
        }
        let (next_fill, end) = CafFill::parse(src, de);
        Ok((Some(CafHexColor { fill, digits }), next_fill, end))
    }

    /// Scans to the end of the hex-digit run starting at `pos`.
    fn scan_hex(src: &Vec<u8>, pos: usize) -> (r: usize)
        requires
            pos <= src@.len(),
        ensures
            r == hex_end(src@, pos as int),
            pos <= r <= src@.len(),
    {
        let ghost s = src@;
        let mut i: usize = pos;
        while i < src.len() && check_hex_digit(src[i])
            invariant
                pos <= i <= s.len(),
                src@ == s,
                hex_end(s, pos as int) == hex_end(s, i as int),
            decreases s.len() - i,
        {
            i = i + 1;
        }
        i
    }

    /// Writes the literal with no spacer ahead of empty fill.
    pub fn write_to(&self, writer: &mut RawSerializer)
        ensures
            final(writer).bytes@ == old(writer).bytes@ + spec_fill_or(
                self.fill.bytes@,
                Seq::<u8>::empty(),
            ) + self.spec_content(),
    {
        let space: Vec<u8> = Vec::new();
        self.write_to_with_space(writer, &space);
    }

    /// Writes the fill (or `space` when the fill is empty), then `#` and the
    /// digit bytes.
    pub fn write_to_with_space(&self, writer: &mut RawSerializer, space: &Vec<u8>)
        ensures
            final(writer).bytes@ == old(writer).bytes@ + spec_fill_or(self.fill.bytes@, space@)
                + self.spec_content(),
    {
        self.fill.write_to_or_else(writer, space);
        writer.write_byte(CH_HASH);
        writer.write_bytes(&self.digits);
        proof {
            assert(writer.bytes@ =~= old(writer).bytes@ + spec_fill_or(self.fill.bytes@, space@)
                + self.spec_content());
        }
    }

    /// Adopts the fill of `other`.
    pub fn recover_fill(&mut self, other: &CafHexColor)
        ensures
            final(self).fill.bytes@ == other.fill.bytes@,
            final(self).digits@ == old(self).digits@,
    {
        self.fill.recover(&other.fill);
    }

    /// Builds the canonical literal for a color: uppercase digits, alpha
    /// digits present exactly when the color is not fully opaque.
    pub fn from_color(color: Srgba) -> (r: CafHexColor)
        ensures
            r.wf(),
            r.spec_color() == color,
            r.fill.bytes@ == Seq::<u8>::empty(),
            r.digits@ == (if color.alpha == 255 {
                Seq::<u8>::empty()
            } else {
                spec_hex_pair(color.alpha)
            }) + spec_hex_pair(color.red) + spec_hex_pair(color.green) + spec_hex_pair(color.blue),
            r.digits@.len() == (if color.alpha == 255 {
                6int
            } else {
                8int
            }),
    {
        let mut digits: Vec<u8> = Vec::new();
        if color.alpha != 255 {
            push_hex_pair(&mut digits, color.alpha);
        }
        push_hex_pair(&mut digits, color.red);
        push_hex_pair(&mut digits, color.green);
        push_hex_pair(&mut digits, color.blue);
        proof {
            if color.alpha != 255 {
                assert(digits@ =~= spec_hex_pair(color.alpha) + spec_hex_pair(color.red)
                    + spec_hex_pair(color.green) + spec_hex_pair(color.blue));
            } else {
                assert(digits@ =~= Seq::<u8>::empty() + spec_hex_pair(color.red) + spec_hex_pair(
                    color.green,
                ) + spec_hex_pair(color.blue));
            }
            lemma_hex_pair_decodes(color.red);
            lemma_hex_pair_decodes(color.green);
            lemma_hex_pair_decodes(color.blue);
            lemma_hex_pair_decodes(color.alpha);
        }
        CafHexColor { fill: CafFill::default(), digits }
    }
}

/// A run of hex digits followed by a non-digit (or the input's end) scans to
/// exactly its own end.
pub proof fn lemma_hex_end_exact(s: Seq<u8>, a: int, b: int)
    requires
        0 <= a <= b <= s.len(),
        forall|i: int| a <= i < b ==> is_hex_digit(#[trigger] s[i]),
        b == s.len() || !is_hex_digit(s[b]),
    ensures
        hex_end(s, a) == b,
    decreases b - a,
{
    if a < b {
        assert(is_hex_digit(s[a]));
        lemma_hex_end_exact(s, a + 1, b);
    }
}

/// Law: a hex color literal re-parses to the same channels. In any
/// continuation whose first byte is not a hex digit, the digit run after
/// the written `#` is exactly the stored digits, and those digits decode to
/// the color the literal already had.
pub proof fn lemma_hex_color_format_stable(c: CafHexColor, rest: Seq<u8>)
    requires
        c.wf(),
        rest.len() == 0 || !is_hex_digit(rest[0]),
    ensures
        (c.spec_content() + rest)[0] == CH_HASH,
        hex_end(c.spec_content() + rest, 1) == 1 + c.digits@.len(),
        (c.spec_content() + rest).subrange(1, 1 + c.digits@.len() as int) == c.digits@,
        spec_color_of_digits(
            (c.spec_content() + rest).subrange(1, 1 + c.digits@.len() as int),
        ) == c.spec_color(),
{
    let out = c.spec_content() + rest;
    assert(out[0] == CH_HASH);
    assert forall|i: int| 1 <= i < 1 + c.digits@.len() implies is_hex_digit(#[trigger] out[i]) by {
        assert(out[i] == c.digits@[i - 1]);
    }
    if rest.len() > 0 {
        assert(out[1 + c.digits@.len() as int] == rest[0]);
    }
    lemma_hex_end_exact(out, 1, 1 + c.digits@.len() as int);
    assert(out.subrange(1, 1 + c.digits@.len() as int) =~= c.digits@);
}

/// Uppercase hex digit encoding a value below sixteen.
pub open spec fn spec_upper_hex_digit(v: u8) -> u8 {
    if v < 10 {
        (48 + v) as u8
    } else {
        (55 + v) as u8
    }
}

/// The two uppercase hex digits encoding a byte.
pub open spec fn spec_hex_pair(v: u8) -> Seq<u8> {
    seq![spec_upper_hex_digit((v / 16) as u8), spec_upper_hex_digit((v % 16) as u8)]
}

/// The digit pair of a byte decodes back to that byte.
pub proof fn lemma_hex_pair_decodes(v: u8)
    ensures
        is_hex_digit(spec_hex_pair(v)[0]),
        is_hex_digit(spec_hex_pair(v)[1]),
        hex_digit_value(spec_hex_pair(v)[0]) * 16 + hex_digit_value(spec_hex_pair(v)[1]) == v,
{
}

/// Uppercase hex digit for a value below sixteen.
pub fn hex_digit_char(v: u8) -> (r: u8)
    requires
        v < 16,
    ensures
        r == spec_upper_hex_digit(v),
        is_hex_digit(r),
        hex_digit_value(r) == v,
{
    if v < 10 {
        48 + v
    } else {
        55 + v
    }
}

/// Appends the two uppercase hex digits encoding `v`.
pub fn push_hex_pair(digits: &mut Vec<u8>, v: u8)
    ensures
        final(digits)@ == old(digits)@ + spec_hex_pair(v),
{
    let hi = hex_digit_char(v / 16);
    let lo = hex_digit_char(v % 16);
    digits.push(hi);
    digits.push(lo);
    proof {
        assert(digits@ =~= old(digits)@ + spec_hex_pair(v));
    }
}

} // verus!
