//! Byte-buffer serializer that syntax nodes write themselves into.
//!
//! Serialization is the mirror of parsing: each node first emits its captured
//! fill (or a caller-chosen default spacer), then its content bytes. Writing
//! into an in-memory buffer keeps the whole path free of I/O.

use vstd::prelude::*;

verus! {

/// Accumulates the serialized form of a document tree.
pub struct RawSerializer {
    /// Bytes written so far.
    pub bytes: Vec<u8>,
}

impl RawSerializer {
    /// Creates an empty serializer.
    pub fn new() -> (r: RawSerializer)
        ensures
            r.bytes@ == Seq::<u8>::empty(),
    {
        RawSerializer { bytes: Vec::new() }
    }

    /// Appends one byte.
    pub fn write_byte(&mut self, b: u8)
        ensures
            final(self).bytes@ == old(self).bytes@.push(b),
    {
        self.bytes.push(b);
    }

    /// Appends a run of bytes.
    pub fn write_bytes(&mut self, b: &Vec<u8>)
        ensures
            final(self).bytes@ == old(self).bytes@ + b@,
    {
        let mut i: usize = 0;
        while i < b.len()
            invariant
                i <= b.len(),
                self.bytes@ == old(self).bytes@ + b@.subrange(0, i as int),
            decreases b.len() - i,
        {
            self.bytes.push(b[i]);
            i = i + 1;
            assert(self.bytes@ == old(self).bytes@ + b@.subrange(0, i as int));
        }
        assert(b@.subrange(0, b.len() as int) == b@);
    }
}

} // verus!
