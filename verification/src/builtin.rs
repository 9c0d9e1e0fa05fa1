//! Builtin values of the format: hex color literals and dimension values
//! (a number with a unit suffix, or the keyword `auto`).

use vstd::prelude::*;
use crate::fill::{CafFill, spec_fill_end, spec_fill_or, clone_bytes};
use crate::hex::{CafHexColor, CH_HASH, hex_end, Srgba};
use crate::num::{CafNumberValue, num_starts, spec_num_end, is_digit, is_number_lit};
use crate::ser::RawSerializer;
use crate::err::{SpanError, CafError};
use crate::value::{CafValue, CafMapKey, CafMapKeyValue};
use crate::channel::{spec_exact_channel, exact_channel};

verus! {

/// ASCII code of `%`.
pub const CH_PERCENT: u8 = 37;
/// ASCII code of `_`.
pub const CH_UNDERSCORE: u8 = 95;
/// ASCII code of `a`.
pub const CH_A: u8 = 97;
/// ASCII code of `z`.
pub const CH_Z: u8 = 122;

/// True for bytes that may continue a snake-case identifier.
pub open spec fn is_ident_char(b: u8) -> bool {
    (CH_A <= b && b <= CH_Z) || is_digit(b) || b == CH_UNDERSCORE
}

/// Reports whether a byte may continue a snake-case identifier.
pub fn check_ident_char(b: u8) -> (r: bool)
    ensures
        r == is_ident_char(b),
{
    (CH_A <= b && b <= CH_Z) || (48 <= b && b <= 57) || b == CH_UNDERSCORE
}

/// The unit of a dimension value.
#[derive(Debug, Clone, Copy, PartialEq, Eq, Structural)]
pub enum ValUnit {
    /// Sized by content; written `auto`, with no number.
    Auto,
    /// Percent of the parent size; suffix `%`.
    Percent,
    /// Logical pixels; suffix `px`.
    Px,
    /// Percent of the viewport width; suffix `vw`.
    Vw,
    /// Percent of the viewport height; suffix `vh`.
    Vh,
    /// Percent of the viewport's smaller side; suffix `vmin`.
    VMin,
    /// Percent of the viewport's larger side; suffix `vmax`.
    VMax,
}

/// The bytes a unit writes after its number (for `Auto`, the whole keyword).
pub open spec fn spec_unit_suffix(u: ValUnit) -> Seq<u8> {
    match u {
        ValUnit::Auto => seq![97u8, 117u8, 116u8, 111u8],
        ValUnit::Percent => seq![37u8],
        ValUnit::Px => seq![112u8, 120u8],
        ValUnit::Vw => seq![118u8, 119u8],
        ValUnit::Vh => seq![118u8, 104u8],
        ValUnit::VMin => seq![118u8, 109u8, 105u8, 110u8],
        ValUnit::VMax => seq![118u8, 109u8, 97u8, 120u8],
    }
}

/// Builds the suffix bytes of a unit.
pub fn unit_suffix(u: ValUnit) -> (r: Vec<u8>)
    ensures
        r@ == spec_unit_suffix(u),
{
    let mut v: Vec<u8> = Vec::new();
    match u {
        ValUnit::Auto => {
            v.push(97);
            v.push(117);
            v.push(116);
            v.push(111);
        },
        ValUnit::Percent => {
            v.push(37);
        },
        ValUnit::Px => {
            v.push(112);
            v.push(120);
        },
        ValUnit::Vw => {
            v.push(118);
            v.push(119);
        },
        ValUnit::Vh => {
            v.push(118);
            v.push(104);
        },
        ValUnit::VMin => {
            v.push(118);
            v.push(109);
            v.push(105);
            v.push(110);
        },
        ValUnit::VMax => {
            v.push(118);
            v.push(109);
            v.push(97);
            v.push(120);
        },
    }
    proof {
        assert(v@ =~= spec_unit_suffix(u));
    }
    v
}

/// True when the bytes of `t` appear in `s` at `pos`.
pub open spec fn tag_at(s: Seq<u8>, pos: int, t: Seq<u8>) -> bool {
    pos + t.len() <= s.len() && s.subrange(pos, pos + t.len()) == t
}

/// True when position `p` cannot continue an identifier, so a keyword or a
/// unit suffix ending right before it is taken whole, never partially.
pub open spec fn ident_boundary(s: Seq<u8>, p: int) -> bool {
    p >= s.len() || !is_ident_char(s[p])
}

/// The unit suffix found at `pos`, tried in a fixed order; letter suffixes
/// must end at an identifier boundary.
pub open spec fn spec_unit_at(s: Seq<u8>, pos: int) -> Option<ValUnit> {
    if pos < s.len() && s[pos] == CH_PERCENT {
        Some(ValUnit::Percent)
    } else if tag_at(s, pos, spec_unit_suffix(ValUnit::Px)) && ident_boundary(s, pos + 2) {
        Some(ValUnit::Px)
    } else if tag_at(s, pos, spec_unit_suffix(ValUnit::Vw)) && ident_boundary(s, pos + 2) {
        Some(ValUnit::Vw)
    } else if tag_at(s, pos, spec_unit_suffix(ValUnit::Vh)) && ident_boundary(s, pos + 2) {
        Some(ValUnit::Vh)
    } else if tag_at(s, pos, spec_unit_suffix(ValUnit::VMin)) && ident_boundary(s, pos + 4) {
        Some(ValUnit::VMin)
    } else if tag_at(s, pos, spec_unit_suffix(ValUnit::VMax)) && ident_boundary(s, pos + 4) {
        Some(ValUnit::VMax)
    } else {
        None
    }
}

/// True when the keyword `auto` stands whole at `pos`.
pub open spec fn spec_auto_at(s: Seq<u8>, pos: int) -> bool {
    tag_at(s, pos, spec_unit_suffix(ValUnit::Auto)) && ident_boundary(s, pos + 4)
}

/// True when a hex color literal is committed at `pos`.
pub open spec fn hex_committed(s: Seq<u8>, pos: int) -> bool {
    pos < s.len() && s[pos] == CH_HASH
}

/// True when a well-formed dimension value starts at `pos`: a number whose
/// end carries a recognized unit suffix.
pub open spec fn spec_dim_at(s: Seq<u8>, pos: int) -> bool {
    num_starts(s, pos) && spec_unit_at(s, spec_num_end(s, pos)) is Some
}

/// True when some builtin value starts at `pos`.
pub open spec fn spec_builtin_at(s: Seq<u8>, pos: int) -> bool {
    hex_committed(s, pos) || spec_auto_at(s, pos) || spec_dim_at(s, pos)
}

/// Where the content of the builtin starting at `pos` ends (fill excluded).
pub open spec fn spec_builtin_content_end(s: Seq<u8>, pos: int) -> int {
    if hex_committed(s, pos) {
        hex_end(s, pos + 1)
    } else if spec_auto_at(s, pos) {
        pos + 4
    } else {
        spec_num_end(s, pos) + spec_unit_suffix(spec_unit_at(s, spec_num_end(s, pos))->Some_0).len()
    }
}

/// A builtin value: a hex color, or a dimension value.
#[derive(Debug, Clone, PartialEq, Eq)]
pub enum CafBuiltin {
    /// A hex color literal.
    Color(CafHexColor),
    /// A dimension value.
    Val {
        /// Fill captured ahead of the value.
        fill: CafFill,
        /// The numeric literal; absent exactly for `ValUnit::Auto`.
        number: Option<CafNumberValue>,
        /// The unit.
        val: ValUnit,
    },
}

impl CafBuiltin {
    /// The type's invariant.
    pub open spec fn wf(&self) -> bool {
        match self {
            CafBuiltin::Color(c) => c.wf(),
            CafBuiltin::Val { number, val, .. } => {
                &&& (number is None <==> val == ValUnit::Auto)
                &&& (number matches Some(n) ==> n.wf())
            },
        }
    }

    /// The fill bytes captured ahead of the value.
    pub open spec fn spec_fill_bytes(&self) -> Seq<u8> {
        match self {
            CafBuiltin::Color(c) => c.fill.bytes@,
            CafBuiltin::Val { fill, .. } => fill.bytes@,
        }
    }

    /// What the value itself serializes as, fill aside.
    pub open spec fn spec_content(&self) -> Seq<u8> {
        match self {
            CafBuiltin::Color(c) => c.spec_content(),
            CafBuiltin::Val { number: Some(n), val, .. } => n.bytes@ + spec_unit_suffix(*val),
            CafBuiltin::Val { number: None, val, .. } => spec_unit_suffix(*val),
        }
    }

    /// Writes the value with no spacer ahead of empty fill.
    pub fn write_to(&self, writer: &mut RawSerializer)
        ensures
            final(writer).bytes@ == old(writer).bytes@ + spec_fill_or(
                self.spec_fill_bytes(),
                Seq::<u8>::empty(),
            ) + self.spec_content(),
    {
        let space: Vec<u8> = Vec::new();
        self.write_to_with_space(writer, &space);
    }

    /// Writes the fill (or `space` when the fill is empty), then the value's
    /// content bytes.
    pub fn write_to_with_space(&self, writer: &mut RawSerializer, space: &Vec<u8>)
        ensures
            final(writer).bytes@ == old(writer).bytes@ + spec_fill_or(
                self.spec_fill_bytes(),
                space@,
            ) + self.spec_content(),
    {
        match self {
            CafBuiltin::Color(color) => {
                color.write_to_with_space(writer, space);
            },
            CafBuiltin::Val { fill, number, val } => {
                fill.write_to_or_else(writer, space);
                match number {
                    Some(n) => {
                        n.write_to(writer);
                    },
                    None => {},
                }
                let suffix = unit_suffix(*val);
                writer.write_bytes(&suffix);
                proof {
                    assert(writer.bytes@ =~= old(writer).bytes@ + spec_fill_or(
                        self.spec_fill_bytes(),
                        space@,
                    ) + self.spec_content());
                }
            },
        }
    }

    /// Adopts the fill of `other` when the two values have the same shape;
    /// the content bytes are left untouched either way.
    pub fn recover_fill(&mut self, other: &CafBuiltin)
        ensures
            final(self).spec_content() == old(self).spec_content(),
            final(self).wf() == old(self).wf(),
            ((*old(self)) is Color <==> (*other) is Color) ==> final(self).spec_fill_bytes()
                == other.spec_fill_bytes(),
            !((*old(self)) is Color <==> (*other) is Color) ==> final(self).spec_fill_bytes()
                == old(self).spec_fill_bytes(),
    {
        match self {
            CafBuiltin::Color(color) => {
                if let CafBuiltin::Color(other_color) = other {
                    color.recover_fill(other_color);
                }
            },
            CafBuiltin::Val { fill, .. } => {
                if let CafBuiltin::Val { fill: other_fill, .. } = other {
                    fill.recover(other_fill);
                }
            },
        }
    }

    /// Consumes the builtin value starting at `pos`, when one starts there.
    ///
    /// Sub-rules are tried in a fixed order: hex color (whose `#` commits
    /// the parse and turns a malformed digit run into an error), the keyword
    /// `auto`, then a number with a unit suffix. When no rule matches,
    /// nothing is consumed and the passed-in fill comes back untouched.
    pub fn try_parse(fill: CafFill, src: &Vec<u8>, pos: usize) -> (r: Result<
        (Option<CafBuiltin>, CafFill, usize),
        SpanError,
    >)
        requires
            pos <= src@.len(),
        ensures
            r is Err <==> (hex_committed(src@, pos as int) && hex_end(src@, pos + 1) - pos - 1 != 6
                && hex_end(src@, pos + 1) - pos - 1 != 8),
            r matches Err(e) ==> e.pos == pos,
            r matches Ok(ofp) ==> {
                &&& (ofp.0 is Some <==> (spec_builtin_at(src@, pos as int) && !(hex_committed(
                    src@,
                    pos as int,
                ) && hex_end(src@, pos + 1) - pos - 1 != 6 && hex_end(src@, pos + 1) - pos - 1
                    != 8)))
                &&& (ofp.0 is None ==> ofp.1.bytes@ == fill.bytes@ && ofp.2 == pos)
                &&& (ofp.0 matches Some(b) ==> {
                    let ce = spec_builtin_content_end(src@, pos as int);
                    &&& pos < ce
                    &&& b.wf()
                    &&& b.spec_fill_bytes() == fill.bytes@
                    &&& b.spec_content() == src@.subrange(pos as int, ce)
                    &&& (b is Color <==> hex_committed(src@, pos as int))
                    &&& (b matches CafBuiltin::Val { number, val, .. } ==> (if spec_auto_at(
                        src@,
                        pos as int,
                    ) {
                        number is None && val == ValUnit::Auto
                    } else {
                        &&& (number matches Some(m) && m.bytes@ == src@.subrange(
                            pos as int,
                            spec_num_end(src@, pos as int),
                        ))
                        &&& Some(val) == spec_unit_at(src@, spec_num_end(src@, pos as int))
                    }))
                    &&& ofp.2 == spec_fill_end(src@, ce, false)
                    &&& ce <= ofp.2 <= src@.len()
                    &&& ofp.1.bytes@ == src@.subrange(ce, ofp.2 as int)
                })
            },
    {
        let ghost s = src@;
        // Hex color: `#` commits.
        let fill = match CafHexColor::try_parse(fill, src, pos) {
            Err(e) => {
                return Err(e);
            },
            Ok((Some(color), next_fill, remaining)) => {
                return Ok((Some(CafBuiltin::Color(color)), next_fill, remaining));
            },
            Ok((None, fill, _)) => fill,
        };
        // The keyword `auto`.
        let rem = src.len() - pos;
        if rem >= 4 && src[pos] == 97 && src[pos + 1] == 117 && src[pos + 2] == 116 && src[pos + 3]
            == 111 && (rem == 4 || !check_ident_char(src[pos + 4])) {
            proof {
                assert(s.subrange(pos as int, pos + 4) =~= spec_unit_suffix(ValUnit::Auto));
            }
            let (next_fill, remaining) = CafFill::parse(src, pos + 4);
            return Ok(
                (
                    Some(CafBuiltin::Val { fill, number: None, val: ValUnit::Auto }),
                    next_fill,
                    remaining,
                ),
            );
        }
        assert(!spec_auto_at(s, pos as int));
        // A number with a unit suffix.
        let Some((number, num_end)) = CafNumberValue::parse(src, pos) else {
            return Ok((None, fill, pos));
        };
        let Some(val) = Self::unit_at(src, num_end) else {
            return Ok((None, fill, pos));
        };
        proof {
            lemma_unit_at_tag(s, num_end as int);
        }
        let ulen = unit_suffix(val).len();
        let ce = num_end + ulen;
        proof {
            assert(number.bytes@ + spec_unit_suffix(val) =~= s.subrange(pos as int, ce as int));
        }
        let (next_fill, remaining) = CafFill::parse(src, ce);
        Ok((Some(CafBuiltin::Val { fill, number: Some(number), val }), next_fill, remaining))
    }

    /// Finds the unit suffix at `pos`.
    fn unit_at(src: &Vec<u8>, pos: usize) -> (r: Option<ValUnit>)
        requires
            pos <= src@.len(),
        ensures
            r == spec_unit_at(src@, pos as int),
    {
        let ghost s = src@;
        let n = src.len();
        let rem = n - pos;
        if pos < n && src[pos] == CH_PERCENT {
            return Some(ValUnit::Percent);
        }
        if rem >= 2 && src[pos] == 112 && src[pos + 1] == 120 && (rem == 2 || !check_ident_char(
            src[pos + 2],
        )) {
            proof {
                assert(s.subrange(pos as int, pos + 2) =~= spec_unit_suffix(ValUnit::Px));
            }
            return Some(ValUnit::Px);
        }
        proof {
            lemma_tag_at_bytes(s, pos as int, spec_unit_suffix(ValUnit::Px));
        }
        if rem >= 2 && src[pos] == 118 && src[pos + 1] == 119 && (rem == 2 || !check_ident_char(
            src[pos + 2],
        )) {
            proof {
                assert(s.subrange(pos as int, pos + 2) =~= spec_unit_suffix(ValUnit::Vw));
            }
            return Some(ValUnit::Vw);
        }
        proof {
            lemma_tag_at_bytes(s, pos as int, spec_unit_suffix(ValUnit::Vw));
        }
        if rem >= 2 && src[pos] == 118 && src[pos + 1] == 104 && (rem == 2 || !check_ident_char(
            src[pos + 2],
        )) {
            proof {
                assert(s.subrange(pos as int, pos + 2) =~= spec_unit_suffix(ValUnit::Vh));
            }
            return Some(ValUnit::Vh);
        }
        proof {
            lemma_tag_at_bytes(s, pos as int, spec_unit_suffix(ValUnit::Vh));
        }
        if rem >= 4 && src[pos] == 118 && src[pos + 1] == 109 && src[pos + 2] == 105 && src[pos + 3]
            == 110 && (rem == 4 || !check_ident_char(src[pos + 4])) {
            proof {
                assert(s.subrange(pos as int, pos + 4) =~= spec_unit_suffix(ValUnit::VMin));
            }
            return Some(ValUnit::VMin);
        }
        proof {
            lemma_tag_at_bytes(s, pos as int, spec_unit_suffix(ValUnit::VMin));
        }
        if rem >= 4 && src[pos] == 118 && src[pos + 1] == 109 && src[pos + 2] == 97 && src[pos + 3]
            == 120 && (rem == 4 || !check_ident_char(src[pos + 4])) {
            proof {
                assert(s.subrange(pos as int, pos + 4) =~= spec_unit_suffix(ValUnit::VMax));
            }
            return Some(ValUnit::VMax);
        }
        proof {
            lemma_tag_at_bytes(s, pos as int, spec_unit_suffix(ValUnit::VMax));
        }
        None
    }
}

/// The byte name `red`.
pub open spec fn spec_name_red() -> Seq<u8> {
    seq![114u8, 101u8, 100u8]
}

/// The byte name `green`.
pub open spec fn spec_name_green() -> Seq<u8> {
    seq![103u8, 114u8, 101u8, 101u8, 110u8]
}

/// The byte name `blue`.
pub open spec fn spec_name_blue() -> Seq<u8> {
    seq![98u8, 108u8, 117u8, 101u8]
}

/// The byte name `alpha`.
pub open spec fn spec_name_alpha() -> Seq<u8> {
    seq![97u8, 108u8, 112u8, 104u8, 97u8]
}

/// The byte name `Val`.
pub open spec fn spec_name_val() -> Seq<u8> {
    seq![86u8, 97u8, 108u8]
}

/// The byte name `Auto`.
pub open spec fn spec_name_auto() -> Seq<u8> {
    seq![65u8, 117u8, 116u8, 111u8]
}

/// The byte name `Color`.
pub open spec fn spec_name_color() -> Seq<u8> {
    seq![67u8, 111u8, 108u8, 111u8, 114u8]
}

/// The byte name `Srgba`.
pub open spec fn spec_name_srgba() -> Seq<u8> {
    seq![83u8, 114u8, 103u8, 98u8, 97u8]
}

/// The fully opaque white color that unspecified channels default to.
pub open spec fn spec_white() -> Srgba {
    Srgba { red: 255u8, green: 255u8, blue: 255u8, alpha: 255u8 }
}

/// The unit named by a `Val` variant name; the `Auto` variant is handled
/// separately because it carries no number.
pub open spec fn spec_unit_from_variant(v: Seq<u8>) -> Option<ValUnit> {
    if v == seq![80u8, 120u8] {
        Some(ValUnit::Px)
    } else if v == seq![80u8, 101u8, 114u8, 99u8, 101u8, 110u8, 116u8] {
        Some(ValUnit::Percent)
    } else if v == seq![86u8, 119u8] {
        Some(ValUnit::Vw)
    } else if v == seq![86u8, 104u8] {
        Some(ValUnit::Vh)
    } else if v == seq![86u8, 77u8, 105u8, 110u8] {
        Some(ValUnit::VMin)
    } else if v == seq![86u8, 77u8, 97u8, 120u8] {
        Some(ValUnit::VMax)
    } else {
        None
    }
}

/// Folds a map's entries into a color, channel by channel, from an all-white
/// start.
///
/// A value used as a key is malformed; a field other than the four channels,
/// a non-number channel, or a channel that is not exactly encodable makes
/// the whole map decode to nothing. A field declared twice keeps its last
/// value.
pub open spec fn spec_srgba_fold(entries: Seq<CafMapKeyValue>, acc: Srgba) -> Result<
    Option<Srgba>,
    CafError,
>
    decreases entries.len(),
{
    if entries.len() == 0 {
        Ok(Some(acc))
    } else {
        match entries[0].key {
            CafMapKey::Value(_) => Err(CafError::MalformedBuiltin),
            CafMapKey::FieldName { name, .. } => match entries[0].value {
                CafValue::Number(n) => match spec_exact_channel(n.number.bytes@) {
                    None => Ok(None),
                    Some(v) => if name@ == spec_name_red() {
                        spec_srgba_fold(
                            entries.skip(1),
                            Srgba { red: v, green: acc.green, blue: acc.blue, alpha: acc.alpha },
                        )
                    } else if name@ == spec_name_green() {
                        spec_srgba_fold(
                            entries.skip(1),
                            Srgba { red: acc.red, green: v, blue: acc.blue, alpha: acc.alpha },
                        )
                    } else if name@ == spec_name_blue() {
                        spec_srgba_fold(
                            entries.skip(1),
                            Srgba { red: acc.red, green: acc.green, blue: v, alpha: acc.alpha },
                        )
                    } else if name@ == spec_name_alpha() {
                        spec_srgba_fold(
                            entries.skip(1),
                            Srgba { red: acc.red, green: acc.green, blue: acc.blue, alpha: v },
                        )
                    } else {
                        Ok(None)
                    },
                },
                _ => Ok(None),
            },
        }
    }
}

/// Numbers appearing as map-entry values are well formed.
pub open spec fn map_numbers_wf(entries: Seq<CafMapKeyValue>) -> bool {
    forall|i: int|
        0 <= i < entries.len() ==> match #[trigger] entries[i].value {
            CafValue::Number(n) => n.number.wf(),
            _ => true,
        }
}

impl CafBuiltin {
    /// Interprets a unit enum variant as a builtin: only `Val::Auto` is one.
    pub fn try_from_unit_variant(typename: &Vec<u8>, variant: &Vec<u8>) -> (r: Result<
        Option<CafBuiltin>,
        CafError,
    >)
        ensures
            r is Ok,
            r matches Ok(o) ==> {
                &&& (o is Some <==> (typename@ == spec_name_val() && variant@
                    == spec_name_auto()))
                &&& (o matches Some(b) ==> b matches CafBuiltin::Val { fill, number, val }
                    && fill.bytes@.len() == 0 && number is None && val == ValUnit::Auto)
            },
    {
        if eq3(typename, 86, 97, 108) && eq4(variant, 65, 117, 116, 111) {
            return Ok(
                Some(CafBuiltin::Val { fill: CafFill::default(), number: None, val: ValUnit::Auto }),
            );
        }
        Ok(None)
    }

    /// Interprets a newtype enum variant holding a value as a builtin:
    /// `Color::Srgba` with a map of exactly-encodable channels, or a `Val`
    /// unit variant with its number. The value must already be free of
    /// macros and constants.
    pub fn try_from_newtype_variant(typename: &Vec<u8>, variant: &Vec<u8>, value: &CafValue) -> (r:
        Result<Option<CafBuiltin>, CafError>)
        requires
            value matches CafValue::MapValue(m) ==> map_numbers_wf(m.entries@),
        ensures
            value matches CafValue::MapValue(m) ==> ((typename@ == spec_name_color() && variant@
                == spec_name_srgba()) ==> {
                let f = spec_srgba_fold(m.entries@, spec_white());
                &&& (f is Err ==> r == Err::<Option<CafBuiltin>, CafError>(
                    CafError::MalformedBuiltin,
                ))
                &&& (f matches Ok(o) && o is None ==> r == Ok::<Option<CafBuiltin>, CafError>(
                    None,
                ))
                &&& (f matches Ok(Some(c)) ==> r matches Ok(Some(CafBuiltin::Color(h))) && h.wf()
                    && h.spec_color() == c && h.fill.bytes@.len() == 0)
            }),
            (typename@ == spec_name_color() && variant@ == spec_name_srgba() && !((*value)
                is MapValue)) ==> r == Ok::<Option<CafBuiltin>, CafError>(None),
            value matches CafValue::Number(n) ==> (typename@ == spec_name_val() ==> (match
                spec_unit_from_variant(variant@) {
                Some(u) => r matches Ok(Some(CafBuiltin::Val { fill, number, val }))
                    && fill.bytes@.len() == 0 && (number matches Some(m2) && m2.bytes@
                    == n.number.bytes@) && val == u,
                None => r == Err::<Option<CafBuiltin>, CafError>(CafError::MalformedBuiltin),
            })),
            (typename@ == spec_name_val() && !((*value) is Number)) ==> r == Ok::<
                Option<CafBuiltin>,
                CafError,
            >(None),
            !(typename@ == spec_name_color() && variant@ == spec_name_srgba()) && typename@
                != spec_name_val() ==> r == Ok::<Option<CafBuiltin>, CafError>(None),
    {
        if eq5(typename, 67, 111, 108, 111, 114) && eq5(variant, 83, 114, 103, 98, 97) {
            let CafValue::MapValue(map) = value else {
                return Ok(None);
            };
            proof {
                assert((*value) is MapValue);
                assert((*value)->MapValue_0 == *map);
            }
            let ghost entries = map.entries@;
            let mut color = Srgba { red: 255, green: 255, blue: 255, alpha: 255 };
            let mut i: usize = 0;
            proof {
                assert(entries.skip(0) =~= entries);
            }
            while i < map.entries.len()
                invariant
                    0 <= i <= entries.len(),
                    map.entries@ == entries,
                    map_numbers_wf(entries),
                    (*value) is MapValue,
                    (*value)->MapValue_0 == *map,
                    typename@ == spec_name_color(),
                    variant@ == spec_name_srgba(),
                    spec_srgba_fold(entries, spec_white()) == spec_srgba_fold(
                        entries.skip(i as int),
                        color,
                    ),
                decreases entries.len() - i,
            {
                proof {
                    assert(entries.skip(i as int)[0] == entries[i as int]);
                    assert(entries.skip(i as int).skip(1) =~= entries.skip(i + 1));
                }
                let entry = &map.entries[i];
                proof {
                    assert(*entry == entries[i as int]);
                }
                let name = match &entry.key {
                    CafMapKey::FieldName { name, .. } => name,
                    CafMapKey::Value(_) => {
                        proof {
                            assert(spec_srgba_fold(entries.skip(i as int), color)
                                == Err::<Option<Srgba>, CafError>(CafError::MalformedBuiltin));
                        }
                        return Err(CafError::MalformedBuiltin);
                    },
                };
                let num = match &entry.value {
                    CafValue::Number(n) => n,
                    _ => {
                        proof {
                            assert(spec_srgba_fold(entries.skip(i as int), color)
                                == Ok::<Option<Srgba>, CafError>(None));
                        }
                        return Ok(None);
                    },
                };
                let Some(v) = exact_channel(&num.number) else {
                    proof {
                        assert(spec_srgba_fold(entries.skip(i as int), color)
                            == Ok::<Option<Srgba>, CafError>(None));
                    }
                    return Ok(None);
                };
                if eq3(name, 114, 101, 100) {
                    color = Srgba { red: v, ..color };
                } else if eq5(name, 103, 114, 101, 101, 110) {
                    color = Srgba { green: v, ..color };
                } else if eq4(name, 98, 108, 117, 101) {
                    color = Srgba { blue: v, ..color };
                } else if eq5(name, 97, 108, 112, 104, 97) {
                    color = Srgba { alpha: v, ..color };
                } else {
                    proof {
                        assert(spec_srgba_fold(entries.skip(i as int), color)
                            == Ok::<Option<Srgba>, CafError>(None));
                    }
                    return Ok(None);
                }
                i = i + 1;
            }
            proof {
                assert(entries.skip(entries.len() as int) =~= Seq::<CafMapKeyValue>::empty());
            }
            return Ok(Some(CafBuiltin::Color(CafHexColor::from_color(color))));
        }
        if eq3(typename, 86, 97, 108) {
            let CafValue::Number(num) = value else {
                return Ok(None);
            };
            let Some(val) = unit_from_variant(variant) else {
                return Err(CafError::MalformedBuiltin);
            };
            let number = CafNumberValue { bytes: clone_bytes(&num.number.bytes) };
            return Ok(
                (Some(CafBuiltin::Val { fill: CafFill::default(), number: Some(number), val })),
            );
        }
        Ok(None)
    }
}

/// Finds the unit named by a `Val` variant name.
fn unit_from_variant(variant: &Vec<u8>) -> (r: Option<ValUnit>)
    ensures
        r == spec_unit_from_variant(variant@),
{
    if eq2(variant, 80, 120) {
        Some(ValUnit::Px)
    } else if eq7(variant, 80, 101, 114, 99, 101, 110, 116) {
        Some(ValUnit::Percent)
    } else if eq2(variant, 86, 119) {
        Some(ValUnit::Vw)
    } else if eq2(variant, 86, 104) {
        Some(ValUnit::Vh)
    } else if eq4(variant, 86, 77, 105, 110) {
        Some(ValUnit::VMin)
    } else if eq4(variant, 86, 77, 97, 120) {
        Some(ValUnit::VMax)
    } else {
        None
    }
}

/// Compares a byte vector against two given bytes.
fn eq2(v: &Vec<u8>, a: u8, b: u8) -> (r: bool)
    ensures
        r == (v@ == seq![a, b]),
{
    let r = v.len() == 2 && v[0] == a && v[1] == b;
    proof {
        if r {
            assert(v@ =~= seq![a, b]);
        }
    }
    r
}

/// Compares a byte vector against three given bytes.
fn eq3(v: &Vec<u8>, a: u8, b: u8, c: u8) -> (r: bool)
    ensures
        r == (v@ == seq![a, b, c]),
{
    let r = v.len() == 3 && v[0] == a && v[1] == b && v[2] == c;
    proof {
        if r {
            assert(v@ =~= seq![a, b, c]);
        }
    }
    r
}

/// Compares a byte vector against four given bytes.
fn eq4(v: &Vec<u8>, a: u8, b: u8, c: u8, d: u8) -> (r: bool)
    ensures
        r == (v@ == seq![a, b, c, d]),
{
    let r = v.len() == 4 && v[0] == a && v[1] == b && v[2] == c && v[3] == d;
    proof {
        if r {
            assert(v@ =~= seq![a, b, c, d]);
        }
    }
    r
}

/// Compares a byte vector against five given bytes.
fn eq5(v: &Vec<u8>, a: u8, b: u8, c: u8, d: u8, e: u8) -> (r: bool)
    ensures
        r == (v@ == seq![a, b, c, d, e]),
{
    let r = v.len() == 5 && v[0] == a && v[1] == b && v[2] == c && v[3] == d && v[4] == e;
    proof {
        if r {
            assert(v@ =~= seq![a, b, c, d, e]);
        }
    }
    r
}

/// Compares a byte vector against seven given bytes.
fn eq7(v: &Vec<u8>, a: u8, b: u8, c: u8, d: u8, e: u8, f: u8, g: u8) -> (r: bool)
    ensures
        r == (v@ == seq![a, b, c, d, e, f, g]),
{
    let r = v.len() == 7 && v[0] == a && v[1] == b && v[2] == c && v[3] == d && v[4] == e && v[5]
        == f && v[6] == g;
    proof {
        if r {
            assert(v@ =~= seq![a, b, c, d, e, f, g]);
        }
    }
    r
}

/// The content of a builtin ends strictly after its start and within the
/// input.
pub proof fn lemma_builtin_content_end_bounds(s: Seq<u8>, pos: int)
    requires
        0 <= pos <= s.len(),
        spec_builtin_at(s, pos),
    ensures
        pos < spec_builtin_content_end(s, pos) <= s.len(),
{
    if hex_committed(s, pos) {
        crate::hex::lemma_hex_end_bounds(s, pos + 1);
    } else if spec_auto_at(s, pos) {
    } else {
        let d0: int = if s[pos] == crate::num::CH_MINUS {
            pos + 1
        } else {
            pos
        };
        let ne = spec_num_end(s, pos);
        let ie = crate::num::digits_end(s, d0);
        crate::num::lemma_digits_end_step(s, d0);
        crate::num::lemma_digits_end_bounds(s, d0);
        if ie < s.len() && s[ie] == crate::num::CH_DOT && ie + 1 < s.len() && is_digit(s[ie + 1]) {
            crate::num::lemma_digits_end_bounds(s, ie + 1);
        }
        assert(pos < ne <= s.len());
        lemma_unit_at_tag(s, ne);
    }
}

/// Law: a node whose fill and content were captured verbatim writes back
/// exactly the source region it was parsed from, byte for byte.
pub proof fn lemma_builtin_round_trip(
    src: Seq<u8>,
    fill_start: int,
    pos: int,
    ce: int,
    b: CafBuiltin,
)
    requires
        0 <= fill_start <= pos <= ce <= src.len(),
        b.spec_fill_bytes() == src.subrange(fill_start, pos),
        b.spec_content() == src.subrange(pos, ce),
    ensures
        spec_fill_or(b.spec_fill_bytes(), Seq::<u8>::empty()) + b.spec_content() == src.subrange(
            fill_start,
            ce,
        ),
{
    if b.spec_fill_bytes().len() == 0 {
        assert(pos == fill_start);
        assert(Seq::<u8>::empty() + b.spec_content() =~= src.subrange(fill_start, ce));
    } else {
        assert(src.subrange(fill_start, pos) + src.subrange(pos, ce) =~= src.subrange(
            fill_start,
            ce,
        ));
    }
}

/// Law: a written dimension value re-parses to the same number and unit. In
/// any continuation whose first byte cannot continue an identifier, the
/// number-plus-suffix bytes are read back as exactly that numeric literal
/// followed by exactly that unit.
pub proof fn lemma_dim_format_stable(n: Seq<u8>, u: ValUnit, rest: Seq<u8>)
    requires
        is_number_lit(n),
        u != ValUnit::Auto,
        rest.len() == 0 || !is_ident_char(rest[0]),
    ensures
        num_starts(n + spec_unit_suffix(u) + rest, 0),
        spec_num_end(n + spec_unit_suffix(u) + rest, 0) == n.len(),
        (n + spec_unit_suffix(u) + rest).subrange(0, n.len() as int) == n,
        spec_unit_at(n + spec_unit_suffix(u) + rest, n.len() as int) == Some(u),
{
    let suf = spec_unit_suffix(u);
    let out = n + suf + rest;
    let nl = n.len() as int;
    assert forall|i: int| 0 <= i < nl implies out[i] == n[i] by {}
    assert(out.subrange(0, nl) =~= n);
    assert forall|i: int| 0 <= i < suf.len() implies out[nl + i] == suf[i] by {}
    let d0: int = if n[0] == crate::num::CH_MINUS {
        1
    } else {
        0
    };
    let ie = crate::num::digits_end(n, d0);
    crate::num::lemma_digits_end_bounds(n, d0);
    assert(!is_digit(suf[0]) && suf[0] != crate::num::CH_DOT);
    assert forall|i: int| d0 <= i < ie implies is_digit(#[trigger] out[i]) by {
        crate::num::lemma_digits_run(n, d0, i);
    }
    if ie == nl {
        crate::num::lemma_digits_end_exact(out, d0, nl);
        assert(spec_num_end(out, 0) == nl);
    } else {
        // The literal carries a fractional part: a dot and digits to its end.
        assert(n[ie] == crate::num::CH_DOT && ie + 1 < nl && is_digit(n[ie + 1])
            && crate::num::digits_end(n, ie + 1) == nl) by {
            if !(ie < nl && n[ie] == crate::num::CH_DOT && ie + 1 < nl && is_digit(n[ie + 1])) {
                assert(spec_num_end(n, 0) == ie);
            } else {
                crate::num::lemma_digits_end_bounds(n, ie + 1);
            }
        }
        crate::num::lemma_digits_end_exact(out, d0, ie);
        assert forall|i: int| ie + 1 <= i < nl implies is_digit(#[trigger] out[i]) by {
            crate::num::lemma_digits_run(n, ie + 1, i);
        }
        crate::num::lemma_digits_end_exact(out, ie + 1, nl);
        assert(spec_num_end(out, 0) == nl);
    }
    // The suffix is read back as exactly this unit.
    let blen = nl + suf.len();
    assert(rest.len() == 0 ==> blen == out.len());
    assert(rest.len() > 0 ==> out[blen as int] == rest[0]);
    match u {
        ValUnit::Percent => {
            assert(out[nl] == CH_PERCENT);
        },
        ValUnit::Px => {
            assert(out.subrange(nl, nl + 2) =~= suf);
            assert(ident_boundary(out, nl + 2));
        },
        ValUnit::Vw => {
            assert(out[nl] != CH_PERCENT);
            if tag_at(out, nl, spec_unit_suffix(ValUnit::Px)) {
                lemma_tag_at_bytes(out, nl, spec_unit_suffix(ValUnit::Px));
            }
            assert(out.subrange(nl, nl + 2) =~= suf);
            assert(ident_boundary(out, nl + 2));
        },
        ValUnit::Vh => {
            assert(out[nl] != CH_PERCENT);
            if tag_at(out, nl, spec_unit_suffix(ValUnit::Px)) {
                lemma_tag_at_bytes(out, nl, spec_unit_suffix(ValUnit::Px));
            }
            if tag_at(out, nl, spec_unit_suffix(ValUnit::Vw)) {
                lemma_tag_at_bytes(out, nl, spec_unit_suffix(ValUnit::Vw));
            }
            assert(out.subrange(nl, nl + 2) =~= suf);
            assert(ident_boundary(out, nl + 2));
        },
        ValUnit::VMin => {
            assert(out[nl] != CH_PERCENT);
            if tag_at(out, nl, spec_unit_suffix(ValUnit::Px)) {
                lemma_tag_at_bytes(out, nl, spec_unit_suffix(ValUnit::Px));
            }
            if tag_at(out, nl, spec_unit_suffix(ValUnit::Vw)) {
                lemma_tag_at_bytes(out, nl, spec_unit_suffix(ValUnit::Vw));
            }
            if tag_at(out, nl, spec_unit_suffix(ValUnit::Vh)) {
                lemma_tag_at_bytes(out, nl, spec_unit_suffix(ValUnit::Vh));
            }
            assert(out.subrange(nl, nl + 4) =~= suf);
            assert(ident_boundary(out, nl + 4));
        },
        ValUnit::VMax => {
            assert(out[nl] != CH_PERCENT);
            if tag_at(out, nl, spec_unit_suffix(ValUnit::Px)) {
                lemma_tag_at_bytes(out, nl, spec_unit_suffix(ValUnit::Px));
            }
            if tag_at(out, nl, spec_unit_suffix(ValUnit::Vw)) {
                lemma_tag_at_bytes(out, nl, spec_unit_suffix(ValUnit::Vw));
            }
            if tag_at(out, nl, spec_unit_suffix(ValUnit::Vh)) {
                lemma_tag_at_bytes(out, nl, spec_unit_suffix(ValUnit::Vh));
            }
            if tag_at(out, nl, spec_unit_suffix(ValUnit::VMin)) {
                lemma_tag_at_bytes(out, nl, spec_unit_suffix(ValUnit::VMin));
            }
            assert(out.subrange(nl, nl + 4) =~= suf);
            assert(ident_boundary(out, nl + 4));
        },
        ValUnit::Auto => {},
    }
}

/// Unfolds what `tag_at` says byte by byte, for the non-matching direction.
pub proof fn lemma_tag_at_bytes(s: Seq<u8>, pos: int, t: Seq<u8>)
    requires
        0 <= pos,
    ensures
        tag_at(s, pos, t) ==> forall|i: int|
            0 <= i < t.len() ==> s[pos + i] == #[trigger] t[i],
{
    if tag_at(s, pos, t) {
        assert forall|i: int| 0 <= i < t.len() implies s[pos + i] == #[trigger] t[i] by {
            assert(s.subrange(pos, pos + t.len() as int)[i] == s[pos + i]);
        }
    }
}

/// A recognized unit suffix occupies exactly its bytes in the source.
pub proof fn lemma_unit_at_tag(s: Seq<u8>, pos: int)
    requires
        0 <= pos <= s.len(),
        spec_unit_at(s, pos) is Some,
    ensures
        tag_at(s, pos, spec_unit_suffix(spec_unit_at(s, pos)->Some_0)),
{
    let u = spec_unit_at(s, pos)->Some_0;
    if pos < s.len() && s[pos] == CH_PERCENT {
        assert(s.subrange(pos, pos + 1) =~= spec_unit_suffix(ValUnit::Percent));
    }
}

} // verus!
