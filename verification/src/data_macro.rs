//! Data macro calls and definitions.
//!
//! These nodes take part in the dispatcher protocol — probing, fill
//! recovery, serialization — but carry no inline serialized form of their
//! own: a probe reports no match and consumes nothing, and serialization
//! writes nothing.

use vstd::prelude::*;
use crate::fill::CafFill;
use crate::ser::RawSerializer;
use crate::err::SpanError;

verus! {

/// A call of a data macro.
#[derive(Debug, Clone, PartialEq, Eq, Structural)]
pub struct CafDataMacroCall;

impl CafDataMacroCall {
    /// Writes the node with no spacer.
    pub fn write_to(&self, writer: &mut RawSerializer)
        ensures
            final(writer).bytes@ == old(writer).bytes@,
    {
        let space: Vec<u8> = Vec::new();
        self.write_to_with_space(writer, &space);
    }

    /// Writes the node after a spacer; the node itself emits nothing.
    pub fn write_to_with_space(&self, _writer: &mut RawSerializer, _space: &Vec<u8>)
        ensures
            final(_writer).bytes@ == old(_writer).bytes@,
    {
    }

    /// Probes for a data macro call; no input matches, so the fill and the
    /// position always come back untouched.
    pub fn try_parse(fill: CafFill, src: &Vec<u8>, pos: usize) -> (r: Result<
        (Option<CafDataMacroCall>, CafFill, usize),
        SpanError,
    >)
        requires
            pos <= src@.len(),
        ensures
            r matches Ok(ofp) && ofp.0 is None && ofp.1.bytes@ == fill.bytes@ && ofp.2 == pos,
    {
        Ok((None, fill, pos))
    }

    /// Adopts the fill of `other`; the node has none, so nothing changes.
    pub fn recover_fill(&mut self, _other: &CafDataMacroCall)
        ensures
            *final(self) == *old(self),
    {
    }
}

/// A definition of a data macro.
#[derive(Debug, Clone, PartialEq, Eq, Structural)]
pub struct CafDataMacroDef;

impl CafDataMacroDef {
    /// Writes the node with no spacer.
    pub fn write_to(&self, writer: &mut RawSerializer)
        ensures
            final(writer).bytes@ == old(writer).bytes@,
    {
        let space: Vec<u8> = Vec::new();
        self.write_to_with_space(writer, &space);
    }

    /// Writes the node after a spacer; the node itself emits nothing.
    pub fn write_to_with_space(&self, _writer: &mut RawSerializer, _space: &Vec<u8>)
        ensures
            final(_writer).bytes@ == old(_writer).bytes@,
    {
    }

    /// Adopts the fill of `other`; the node has none, so nothing changes.
    pub fn recover_fill(&mut self, _other: &CafDataMacroDef)
        ensures
            *final(self) == *old(self),
    {
    }
}

} // verus!
