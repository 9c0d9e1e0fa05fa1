//! A document: the stream of values one source file parses to, with every
//! byte of fill captured, so that an untouched document serializes back to
//! its source byte for byte.

use vstd::prelude::*;
use crate::builtin::{
    CafBuiltin, hex_committed, spec_builtin_at, spec_builtin_content_end,
    lemma_builtin_content_end_bounds,
};
use crate::err::SpanError;
use crate::fill::{CafFill, spec_fill_end, spec_fill_or, lemma_fill_end_bounds};
use crate::hex::hex_end;
use crate::ser::RawSerializer;

verus! {

/// True when a value of the grammar can be read at `p` without error: some
/// builtin starts there, and a committed `#` carries a well-formed digit
/// run.
pub open spec fn spec_value_readable(s: Seq<u8>, p: int) -> bool {
    spec_builtin_at(s, p) && !(hex_committed(s, p) && hex_end(s, p + 1) - p - 1 != 6 && hex_end(
        s,
        p + 1,
    ) - p - 1 != 8)
}

/// Scans the input as the parser does: fill, then one value, repeated.
/// `None` means the whole input is a syntactically valid document; `Some(p)`
/// is the first offset where neither the input's end nor a readable value
/// follows the fill.
pub open spec fn spec_doc_scan(s: Seq<u8>, pos: int) -> Option<int>
    decreases s.len() - pos
        when 0 <= pos <= s.len()
        via spec_doc_scan_decreases
{
    let p = spec_fill_end(s, pos, false);
    if p == s.len() {
        None
    } else if spec_value_readable(s, p) {
        spec_doc_scan(s, spec_builtin_content_end(s, p))
    } else {
        Some(p)
    }
}

#[via_fn]
proof fn spec_doc_scan_decreases(s: Seq<u8>, pos: int) {
    lemma_fill_end_bounds(s, pos, false);
    let p = spec_fill_end(s, pos, false);
    if p != s.len() && spec_value_readable(s, p) {
        lemma_builtin_content_end_bounds(s, p);
    }
}

/// True when the whole input is one syntactically valid document.
pub open spec fn spec_doc_valid(s: Seq<u8>) -> bool {
    spec_doc_scan(s, 0) is None
}

/// What a list of nodes serializes as: each node's fill, then its content.
pub open spec fn spec_ser_nodes(nodes: Seq<CafBuiltin>) -> Seq<u8>
    decreases nodes.len(),
{
    if nodes.len() == 0 {
        Seq::empty()
    } else {
        spec_ser_nodes(nodes.drop_last()) + spec_fill_or(
            nodes.last().spec_fill_bytes(),
            Seq::<u8>::empty(),
        ) + nodes.last().spec_content()
    }
}

/// A fully parsed source file: its values in order, plus the fill after the
/// last value.
#[derive(Debug)]
pub struct CobDocument {
    /// The values, in source order, each carrying the fill ahead of it.
    pub nodes: Vec<CafBuiltin>,
    /// The fill after the last value, up to the end of the file.
    pub trailing: CafFill,
}

impl CobDocument {
    /// The document's invariant.
    pub open spec fn wf(&self) -> bool {
        forall|i: int| 0 <= i < self.nodes@.len() ==> (#[trigger] self.nodes@[i]).wf()
    }

    /// What the document serializes as.
    pub open spec fn spec_bytes(&self) -> Seq<u8> {
        spec_ser_nodes(self.nodes@) + self.trailing.bytes@
    }

    /// Parses a whole source file as a stream of values.
    ///
    /// Succeeds exactly on syntactically valid input, and then the parsed
    /// document serializes back to the input bytes, byte for byte; malformed
    /// input is reported with the first offset where no value could be read.
    pub fn parse(src: &Vec<u8>) -> (r: Result<CobDocument, SpanError>)
        ensures
            r is Ok <==> spec_doc_valid(src@),
            r matches Ok(doc) ==> doc.wf() && doc.spec_bytes() == src@,
            r matches Err(e) ==> spec_doc_scan(src@, 0) == Some(e.pos as int),
    {
        let ghost s = src@;
        let ghost mut scan_pos: int = 0;
        let (mut fill, mut pos) = CafFill::parse(src, 0);
        let mut nodes: Vec<CafBuiltin> = Vec::new();
        proof {
            assert(spec_ser_nodes(nodes@) + fill.bytes@ =~= s.subrange(0, pos as int));
        }
        loop
            invariant
                0 <= scan_pos <= pos <= s.len(),
                src@ == s,
                spec_fill_end(s, scan_pos, false) == pos as int,
                spec_doc_scan(s, 0) == spec_doc_scan(s, scan_pos),
                spec_ser_nodes(nodes@) + fill.bytes@ == s.subrange(0, pos as int),
                forall|i: int| 0 <= i < nodes@.len() ==> (#[trigger] nodes@[i]).wf(),
            ensures
                pos == s.len(),
                spec_doc_scan(s, 0) is None,
                spec_ser_nodes(nodes@) + fill.bytes@ == s.subrange(0, pos as int),
                forall|i: int| 0 <= i < nodes@.len() ==> (#[trigger] nodes@[i]).wf(),
            decreases s.len() - pos,
        {
            let ghost fill_bytes = fill.bytes@;
            let (node, next_fill, next_pos) = match CafBuiltin::try_parse(fill, src, pos) {
                Ok(ok) => ok,
                Err(e) => {
                    proof {
                        assert(!spec_value_readable(s, pos as int));
                        assert(spec_doc_scan(s, scan_pos) == Some(pos as int));
                    }
                    return Err(e);
                },
            };
            match node {
                Some(b) => {
                    let ghost pre_nodes = nodes@;
                    let ghost bf = b.spec_fill_bytes();
                    let ghost bc = b.spec_content();
                    let ghost ce = spec_builtin_content_end(s, pos as int);
                    nodes.push(b);
                    proof {
                        assert(nodes@.drop_last() =~= pre_nodes);
                        assert(nodes@.last().spec_fill_bytes() == bf);
                        assert(spec_fill_or(bf, Seq::<u8>::empty()) =~= bf);
                        assert(spec_ser_nodes(nodes@) == spec_ser_nodes(pre_nodes) + bf + bc);
                        assert(spec_ser_nodes(nodes@) + next_fill.bytes@ =~= s.subrange(
                            0,
                            next_pos as int,
                        ));
                        assert(spec_value_readable(s, pos as int));
                        assert(spec_doc_scan(s, scan_pos) == spec_doc_scan(s, ce));
                        scan_pos = ce;
                    }
                    fill = next_fill;
                    pos = next_pos;
                },
                None => {
                    fill = next_fill;
                    if pos == src.len() {
                        proof {
                            assert(spec_doc_scan(s, scan_pos) is None);
                        }
                        break ;
                    }
                    proof {
                        assert(!spec_value_readable(s, pos as int));
                        assert(spec_doc_scan(s, scan_pos) == Some(pos as int));
                    }
                    return Err(SpanError { pos });
                },
            }
        }
        proof {
            assert(s.subrange(0, pos as int) =~= s);
        }
        Ok(CobDocument { nodes, trailing: fill })
    }

    /// Serializes the document: each value with its captured fill, then the
    /// trailing fill. For a document parsed from a file this reproduces the
    /// file exactly.
    pub fn write_to(&self, writer: &mut RawSerializer)
        ensures
            final(writer).bytes@ == old(writer).bytes@ + self.spec_bytes(),
    {
        let mut i: usize = 0;
        proof {
            assert(spec_ser_nodes(self.nodes@.take(0)) =~= Seq::<u8>::empty());
            assert(writer.bytes@ =~= old(writer).bytes@ + spec_ser_nodes(self.nodes@.take(0)));
        }
        while i < self.nodes.len()
            invariant
                i <= self.nodes@.len(),
                writer.bytes@ == old(writer).bytes@ + spec_ser_nodes(self.nodes@.take(i as int)),
            decreases self.nodes@.len() - i,
        {
            proof {
                assert(self.nodes@.take(i + 1).drop_last() =~= self.nodes@.take(i as int));
                assert(self.nodes@.take(i + 1).last() == self.nodes@[i as int]);
            }
            self.nodes[i].write_to(writer);
            i = i + 1;
            proof {
                assert(writer.bytes@ =~= old(writer).bytes@ + spec_ser_nodes(
                    self.nodes@.take(i as int),
                ));
            }
        }
        proof {
            assert(self.nodes@.take(self.nodes@.len() as int) =~= self.nodes@);
        }
        self.trailing.write_to(writer);
        proof {
            assert(writer.bytes@ =~= old(writer).bytes@ + self.spec_bytes());
        }
    }
}

} // verus!
