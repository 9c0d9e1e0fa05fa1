//! Parsing and serialization of builtin values, numbers, and fill.

use cob_core::builtin::{CafBuiltin, ValUnit};
use cob_core::data_macro::{CafDataMacroCall, CafDataMacroDef};
use cob_core::fill::CafFill;
use cob_core::hex::{CafHexColor, Srgba};
use cob_core::num::CafNumberValue;
use cob_core::ser::RawSerializer;

fn parse_builtin(input: &[u8]) -> (Option<CafBuiltin>, CafFill, usize, usize) {
    let src = input.to_vec();
    let (fill, pos) = CafFill::parse(&src, 0);
    let (node, next_fill, end) = CafBuiltin::try_parse(fill, &src, pos).expect("parse error");
    (node, next_fill, pos, end)
}

#[test]
fn hex_color_round_trip_exact_bytes() {
    let input = b"  #a1B2c3 // trailing note\n".to_vec();
    let (fill, pos) = CafFill::parse(&input, 0);
    assert_eq!(fill.bytes, b"  ".to_vec());
    let (node, next_fill, end) = CafBuiltin::try_parse(fill, &input, pos).expect("parse error");
    let node = node.expect("expected a hex color");
    // Serializing the node and then its trailing fill reproduces the input.
    let mut w = RawSerializer::new();
    node.write_to(&mut w);
    next_fill.write_to(&mut w);
    assert_eq!(w.bytes, input);
    assert_eq!(end, input.len());
}

#[test]
fn hex_color_channels_decode() {
    let (node, _, _, _) = parse_builtin(b"#A1B2C3");
    match node.expect("expected a hex color") {
        CafBuiltin::Color(c) => {
            assert_eq!(c.color(), Srgba { red: 0xA1, green: 0xB2, blue: 0xC3, alpha: 255 });
        }
        _ => panic!("expected a color"),
    }
}

#[test]
fn hex_color_alpha_first() {
    let (node, _, _, _) = parse_builtin(b"#80A1B2C3");
    match node.expect("expected a hex color") {
        CafBuiltin::Color(c) => {
            assert_eq!(c.color(), Srgba { red: 0xA1, green: 0xB2, blue: 0xC3, alpha: 0x80 });
        }
        _ => panic!("expected a color"),
    }
}

#[test]
fn hex_color_wrong_digit_count_is_error_at_the_hash() {
    let src = b"  #A1B2C".to_vec();
    let (fill, pos) = CafFill::parse(&src, 0);
    let err = CafBuiltin::try_parse(fill, &src, pos).expect_err("expected a parse error");
    // The error carries the position of the committing `#`.
    assert_eq!(err.pos, 2);
    let src = b"#A1B2C3D".to_vec();
    let (fill, pos) = CafFill::parse(&src, 0);
    let err = CafBuiltin::try_parse(fill, &src, pos).expect_err("expected a parse error");
    assert_eq!(err.pos, 0);
}

#[test]
fn hex_color_canonical_from_color() {
    let c = CafHexColor::from_color(Srgba { red: 0xA1, green: 0xB2, blue: 0xC3, alpha: 255 });
    assert_eq!(c.digits, b"A1B2C3".to_vec());
    let mut w = RawSerializer::new();
    c.write_to(&mut w);
    assert_eq!(w.bytes, b"#A1B2C3".to_vec());
    // A re-parse finds the same channels.
    let (node, _, _, _) = parse_builtin(&w.bytes);
    match node.expect("expected a hex color") {
        CafBuiltin::Color(reparsed) => assert_eq!(reparsed.color(), c.color()),
        _ => panic!("expected a color"),
    }
}

#[test]
fn hex_color_translucent_writes_alpha_first() {
    let c = CafHexColor::from_color(Srgba { red: 1, green: 2, blue: 3, alpha: 0x80 });
    assert_eq!(c.digits, b"80010203".to_vec());
}

#[test]
fn dimension_percent() {
    let (node, _, _, _) = parse_builtin(b"50%");
    match node.expect("expected a dimension") {
        CafBuiltin::Val { number, val, .. } => {
            assert_eq!(val, ValUnit::Percent);
            assert_eq!(number.expect("expected a number").as_u64(), Some(50));
        }
        _ => panic!("expected a dimension"),
    }
}

#[test]
fn dimension_px() {
    let (node, _, _, _) = parse_builtin(b"12px");
    match node.expect("expected a dimension") {
        CafBuiltin::Val { number, val, .. } => {
            assert_eq!(val, ValUnit::Px);
            assert_eq!(number.expect("expected a number").as_u64(), Some(12));
        }
        _ => panic!("expected a dimension"),
    }
}

#[test]
fn dimension_auto() {
    let (node, _, _, _) = parse_builtin(b"auto");
    match node.expect("expected a dimension") {
        CafBuiltin::Val { number, val, .. } => {
            assert_eq!(val, ValUnit::Auto);
            assert!(number.is_none());
        }
        _ => panic!("expected a dimension"),
    }
}

#[test]
fn dimension_partial_unit_is_no_match() {
    // The px rule must not accept a longer identifier.
    let (node, _, pos, end) = parse_builtin(b"50pxx");
    assert!(node.is_none());
    assert_eq!(pos, end);
}

#[test]
fn dimension_keyword_prefix_is_no_match() {
    let (node, _, _, _) = parse_builtin(b"autox");
    assert!(node.is_none());
}

#[test]
fn dimension_viewport_units() {
    for (text, unit) in [
        (b"1vw".to_vec(), ValUnit::Vw),
        (b"2vh".to_vec(), ValUnit::Vh),
        (b"3vmin".to_vec(), ValUnit::VMin),
        (b"4vmax".to_vec(), ValUnit::VMax),
    ] {
        let (node, _, _, _) = parse_builtin(&text);
        match node.expect("expected a dimension") {
            CafBuiltin::Val { val, .. } => assert_eq!(val, unit),
            _ => panic!("expected a dimension"),
        }
    }
}

#[test]
fn dimension_decimal_round_trip() {
    let input = b"3.5vh ".to_vec();
    let (fill, pos) = CafFill::parse(&input, 0);
    let (node, next_fill, _) = CafBuiltin::try_parse(fill, &input, pos).expect("parse error");
    let node = node.expect("expected a dimension");
    let mut w = RawSerializer::new();
    node.write_to(&mut w);
    next_fill.write_to(&mut w);
    assert_eq!(w.bytes, input);
}

#[test]
fn number_as_u64_reads_plain_digits() {
    let src = b"50".to_vec();
    let (n, end) = CafNumberValue::parse(&src, 0).expect("expected a number");
    assert_eq!(end, 2);
    assert_eq!(n.as_u64(), Some(50));
}

#[test]
fn number_as_u64_refuses_sign_fraction_and_overflow() {
    let src = b"-3".to_vec();
    let (n, _) = CafNumberValue::parse(&src, 0).expect("expected a number");
    assert_eq!(n.as_u64(), None);
    let src = b"3.5".to_vec();
    let (n, _) = CafNumberValue::parse(&src, 0).expect("expected a number");
    assert_eq!(n.as_u64(), None);
    let src = b"99999999999999999999".to_vec();
    let (n, _) = CafNumberValue::parse(&src, 0).expect("expected a number");
    assert_eq!(n.as_u64(), None);
}

#[test]
fn number_no_match_without_digits() {
    let src = b"-x".to_vec();
    assert!(CafNumberValue::parse(&src, 0).is_none());
    let src = b"px".to_vec();
    assert!(CafNumberValue::parse(&src, 0).is_none());
}

#[test]
fn fill_captures_whitespace_and_comments() {
    let src = b" \t// note\n  x".to_vec();
    let (fill, end) = CafFill::parse(&src, 0);
    assert_eq!(fill.bytes, b" \t// note\n  ".to_vec());
    assert_eq!(end, src.len() - 1);
}

#[test]
fn fill_comment_without_newline_runs_to_end() {
    let src = b"// tail".to_vec();
    let (fill, end) = CafFill::parse(&src, 0);
    assert_eq!(fill.bytes, src);
    assert_eq!(end, src.len());
}

#[test]
fn fill_spacer_used_only_when_empty() {
    let mut w = RawSerializer::new();
    let fill = CafFill::from_bytes(b"  ".to_vec());
    fill.write_to_or_else(&mut w, &b"_".to_vec());
    assert_eq!(w.bytes, b"  ".to_vec());
    let mut w = RawSerializer::new();
    let empty = CafFill::default();
    empty.write_to_or_else(&mut w, &b"_".to_vec());
    assert_eq!(w.bytes, b"_".to_vec());
}

#[test]
fn builtin_recover_fill_adopts_other_layout() {
    let (node, _, _, _) = parse_builtin(b"  #A1B2C3");
    let parsed = node.expect("expected a hex color");
    let mut built = CafBuiltin::Color(CafHexColor::from_color(Srgba {
        red: 0xA1,
        green: 0xB2,
        blue: 0xC3,
        alpha: 255,
    }));
    built.recover_fill(&parsed);
    let mut w = RawSerializer::new();
    built.write_to(&mut w);
    assert_eq!(w.bytes, b"  #A1B2C3".to_vec());
}

#[test]
fn document_round_trip_reproduces_the_file() {
    let input = b"// style constants\n  #A1B2C3 50% auto\n12px // width\n 3.5vmax\n".to_vec();
    let doc = cob_core::document::CobDocument::parse(&input).expect("expected a valid document");
    assert_eq!(doc.nodes.len(), 5);
    let mut w = RawSerializer::new();
    doc.write_to(&mut w);
    assert_eq!(w.bytes, input);
}

#[test]
fn document_parse_rejects_malformed_input() {
    let input = b" #A1B2C3 what? ".to_vec();
    assert!(cob_core::document::CobDocument::parse(&input).is_err());
    let input = b"#123".to_vec();
    assert!(cob_core::document::CobDocument::parse(&input).is_err());
}

#[test]
fn parse_errors_carry_a_usable_location() {
    let input = b"#A1B2C3\n  #12 50%".to_vec();
    let err = cob_core::document::CobDocument::parse(&input).expect_err("expected a parse error");
    let (line, col) = cob_core::err::get_location(&input, err.pos);
    assert_eq!((line, col), (2, 3));
}

#[test]
fn data_macro_probe_consumes_nothing() {
    let src = b"m!".to_vec();
    let (fill, pos) = CafFill::parse(&src, 0);
    let (node, fill2, end) = CafDataMacroCall::try_parse(fill, &src, pos).expect("probe failed");
    assert!(node.is_none());
    assert_eq!(end, pos);
    assert_eq!(fill2.bytes, Vec::<u8>::new());
    let mut w = RawSerializer::new();
    let call = CafDataMacroCall;
    call.write_to(&mut w);
    let def = CafDataMacroDef;
    def.write_to(&mut w);
    assert_eq!(w.bytes, Vec::<u8>::new());
}
