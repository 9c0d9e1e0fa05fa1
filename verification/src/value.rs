//! Document values: the tree shapes that builtin construction and the
//! loading cache read.

use vstd::prelude::*;
use crate::fill::CafFill;
use crate::num::CafNumberValue;

verus! {

/// A key inside a map value.
#[derive(Debug)]
pub enum CafMapKey {
    /// A plain field name, as in `red: 1`.
    FieldName {
        /// Fill captured ahead of the name.
        fill: CafFill,
        /// The name bytes.
        name: Vec<u8>,
    },
    /// A value used as a key.
    Value(CafValue),
}

/// One `key: value` pair inside a map value.
#[derive(Debug)]
pub struct CafMapKeyValue {
    /// The key.
    pub key: CafMapKey,
    /// The value.
    pub value: CafValue,
}

/// A map value.
#[derive(Debug)]
pub struct CafMap {
    /// Fill captured ahead of the opening brace.
    pub fill: CafFill,
    /// The entries in declaration order.
    pub entries: Vec<CafMapKeyValue>,
}

/// A number value.
#[derive(Debug)]
pub struct CafNumber {
    /// Fill captured ahead of the literal.
    pub fill: CafFill,
    /// The numeric literal.
    pub number: CafNumberValue,
}

/// A parsed document value.
#[derive(Debug)]
pub enum CafValue {
    /// A numeric literal.
    Number(CafNumber),
    /// A boolean literal.
    Bool {
        /// Fill captured ahead of the literal.
        fill: CafFill,
        /// The literal's value.
        value: bool,
    },
    /// A map of entries.
    MapValue(CafMap),
}

} // verus!

