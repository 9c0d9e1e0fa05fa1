//! Building builtins from declared values: structured colors with exact
//! channels, and dimension values from enum variants.

use cob_core::builtin::{CafBuiltin, ValUnit};
use cob_core::err::CafError;
use cob_core::fill::CafFill;
use cob_core::num::CafNumberValue;
use cob_core::ser::RawSerializer;
use cob_core::value::{CafMap, CafMapKey, CafMapKeyValue, CafNumber, CafValue};

fn number_value(text: &[u8]) -> CafValue {
    CafValue::Number(CafNumber {
        fill: CafFill::default(),
        number: CafNumberValue { bytes: text.to_vec() },
    })
}

fn field(name: &[u8], value: CafValue) -> CafMapKeyValue {
    CafMapKeyValue {
        key: CafMapKey::FieldName { fill: CafFill::default(), name: name.to_vec() },
        value,
    }
}

fn color_map(entries: Vec<CafMapKeyValue>) -> CafValue {
    CafValue::MapValue(CafMap { fill: CafFill::default(), entries })
}

#[test]
fn srgba_map_with_exact_channels_becomes_hex() {
    let value = color_map(vec![
        field(b"red", number_value(b"1")),
        field(b"green", number_value(b"0.4")),
        field(b"blue", number_value(b"0")),
        field(b"alpha", number_value(b"1.0")),
    ]);
    let r = CafBuiltin::try_from_newtype_variant(&b"Color".to_vec(), &b"Srgba".to_vec(), &value)
        .expect("no error expected");
    match r.expect("expected a color") {
        CafBuiltin::Color(c) => {
            // 0.4 is exactly 102 / 255.
            assert_eq!(c.digits, b"FF6600".to_vec());
            let mut w = RawSerializer::new();
            c.write_to(&mut w);
            assert_eq!(w.bytes, b"#FF6600".to_vec());
        }
        _ => panic!("expected a color"),
    }
}

#[test]
fn srgba_unspecified_channels_default_to_white() {
    let value = color_map(vec![field(b"red", number_value(b"0"))]);
    let r = CafBuiltin::try_from_newtype_variant(&b"Color".to_vec(), &b"Srgba".to_vec(), &value)
        .expect("no error expected");
    match r.expect("expected a color") {
        CafBuiltin::Color(c) => assert_eq!(c.digits, b"00FFFF".to_vec()),
        _ => panic!("expected a color"),
    }
}

#[test]
fn srgba_lossy_channel_is_refused() {
    // 0.5 is 127.5 / 255: no byte represents it exactly.
    let value = color_map(vec![field(b"red", number_value(b"0.5"))]);
    let r = CafBuiltin::try_from_newtype_variant(&b"Color".to_vec(), &b"Srgba".to_vec(), &value)
        .expect("no error expected");
    assert!(r.is_none());
}

#[test]
fn srgba_negative_zero_channel_is_black() {
    let value = color_map(vec![
        field(b"red", number_value(b"-0.0")),
        field(b"green", number_value(b"0")),
        field(b"blue", number_value(b"0.00")),
        field(b"alpha", number_value(b"1")),
    ]);
    let r = CafBuiltin::try_from_newtype_variant(&b"Color".to_vec(), &b"Srgba".to_vec(), &value)
        .expect("no error expected");
    match r.expect("expected a color") {
        CafBuiltin::Color(c) => assert_eq!(c.digits, b"000000".to_vec()),
        _ => panic!("expected a color"),
    }
}

#[test]
fn srgba_unknown_field_is_skipped_as_mismatch() {
    let value = color_map(vec![field(b"hue", number_value(b"1"))]);
    let r = CafBuiltin::try_from_newtype_variant(&b"Color".to_vec(), &b"Srgba".to_vec(), &value)
        .expect("no error expected");
    assert!(r.is_none());
}

#[test]
fn srgba_value_key_is_malformed() {
    let entry = CafMapKeyValue {
        key: CafMapKey::Value(number_value(b"1")),
        value: number_value(b"1"),
    };
    let value = color_map(vec![entry]);
    let r = CafBuiltin::try_from_newtype_variant(&b"Color".to_vec(), &b"Srgba".to_vec(), &value);
    assert_eq!(r, Err(CafError::MalformedBuiltin));
}

#[test]
fn val_newtype_variants_carry_their_number() {
    for (variant, unit) in [
        (b"Px".to_vec(), ValUnit::Px),
        (b"Percent".to_vec(), ValUnit::Percent),
        (b"Vw".to_vec(), ValUnit::Vw),
        (b"Vh".to_vec(), ValUnit::Vh),
        (b"VMin".to_vec(), ValUnit::VMin),
        (b"VMax".to_vec(), ValUnit::VMax),
    ] {
        let value = number_value(b"12");
        let r = CafBuiltin::try_from_newtype_variant(&b"Val".to_vec(), &variant, &value)
            .expect("no error expected");
        match r.expect("expected a dimension") {
            CafBuiltin::Val { number, val, .. } => {
                assert_eq!(val, unit);
                assert_eq!(number.expect("expected a number").bytes, b"12".to_vec());
            }
            _ => panic!("expected a dimension"),
        }
    }
}

#[test]
fn val_unknown_variant_is_malformed() {
    let value = number_value(b"12");
    let r = CafBuiltin::try_from_newtype_variant(&b"Val".to_vec(), &b"Em".to_vec(), &value);
    assert_eq!(r, Err(CafError::MalformedBuiltin));
}

#[test]
fn val_non_number_value_is_skipped() {
    let value = CafValue::Bool { fill: CafFill::default(), value: true };
    let r = CafBuiltin::try_from_newtype_variant(&b"Val".to_vec(), &b"Px".to_vec(), &value)
        .expect("no error expected");
    assert!(r.is_none());
}

#[test]
fn unrelated_type_is_skipped() {
    let value = number_value(b"12");
    let r = CafBuiltin::try_from_newtype_variant(&b"Vec2".to_vec(), &b"X".to_vec(), &value)
        .expect("no error expected");
    assert!(r.is_none());
}

#[test]
fn unit_variant_only_matches_val_auto() {
    let r = CafBuiltin::try_from_unit_variant(&b"Val".to_vec(), &b"Auto".to_vec())
        .expect("no error expected");
    match r.expect("expected a dimension") {
        CafBuiltin::Val { number, val, .. } => {
            assert_eq!(val, ValUnit::Auto);
            assert!(number.is_none());
        }
        _ => panic!("expected a dimension"),
    }
    let r = CafBuiltin::try_from_unit_variant(&b"Val".to_vec(), &b"Px".to_vec())
        .expect("no error expected");
    assert!(r.is_none());
    let r = CafBuiltin::try_from_unit_variant(&b"Color".to_vec(), &b"Auto".to_vec())
        .expect("no error expected");
    assert!(r.is_none());
}
