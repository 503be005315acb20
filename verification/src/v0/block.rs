//! Basic-block records: the fixed-size entries of the blocks section.
use vstd::prelude::*;
use crate::v0::bytes::{
    lemma_le_bytes_complete_u16, lemma_le_bytes_complete_u32, lemma_le_bytes_complete_u64,
    lemma_u16_le_inverse, lemma_u32_le_inverse, lemma_u64_le_inverse, push_u16_le, push_u32_le,
    push_u64_le, read_u16_le, read_u32_le, read_u64_le, u16_le_bytes, u32_le_bytes, u64_le_bytes,
};
use crate::v0::edge::AlcovBlockEdges;
use crate::v0::edge::AlcovBlockEdgesMetadata;
use crate::v0::error::Error;

verus! {

/// The wire size of one block record.
pub const BLOCK_RECORD_SIZE: usize = 40;

/// One observed basic block: where it lives and how often it was taken.
#[derive(Debug, Clone, Copy, PartialEq, Eq, Structural)]
pub struct AlcovBlock {
    pub module_id: u16,
    pub segment_id: u16,
    pub segment_offset: u64,
    pub size: u32,
    pub nb_taken: u64,
}

/// The edge back-reference a block record carries on disk.
#[derive(Debug, Clone, Copy, PartialEq, Eq, Structural)]
pub struct AlcovBlockMetadata {
    pub nb_out_edges: u64,
    pub out_edges_offset: u64,
}

/// The forty bytes of a block record with its edge back-reference.
pub open spec fn block_record_bytes(b: AlcovBlock, md: AlcovBlockMetadata) -> Seq<u8> {
    u64_le_bytes(b.segment_offset) + u32_le_bytes(b.size) + u16_le_bytes(b.module_id)
        + u16_le_bytes(b.segment_id) + u64_le_bytes(md.nb_out_edges) + u64_le_bytes(
        md.out_edges_offset,
    ) + u64_le_bytes(b.nb_taken)
}

/// Each field of a block record can be read back from its slice of the bytes.
pub proof fn lemma_block_record_fields(b: AlcovBlock, md: AlcovBlockMetadata)
    ensures
        block_record_bytes(b, md).len() == 40,
        block_record_bytes(b, md).subrange(0, 8) == u64_le_bytes(b.segment_offset),
        block_record_bytes(b, md).subrange(8, 12) == u32_le_bytes(b.size),
        block_record_bytes(b, md).subrange(12, 14) == u16_le_bytes(b.module_id),
        block_record_bytes(b, md).subrange(14, 16) == u16_le_bytes(b.segment_id),
        block_record_bytes(b, md).subrange(16, 24) == u64_le_bytes(md.nb_out_edges),
        block_record_bytes(b, md).subrange(24, 32) == u64_le_bytes(md.out_edges_offset),
        block_record_bytes(b, md).subrange(32, 40) == u64_le_bytes(b.nb_taken),
{
    let r = block_record_bytes(b, md);
    assert(r.subrange(0, 8) =~= u64_le_bytes(b.segment_offset));
    assert(r.subrange(8, 12) =~= u32_le_bytes(b.size));
    assert(r.subrange(12, 14) =~= u16_le_bytes(b.module_id));
    assert(r.subrange(14, 16) =~= u16_le_bytes(b.segment_id));
    assert(r.subrange(16, 24) =~= u64_le_bytes(md.nb_out_edges));
    assert(r.subrange(24, 32) =~= u64_le_bytes(md.out_edges_offset));
    assert(r.subrange(32, 40) =~= u64_le_bytes(b.nb_taken));
}

/// Two block records with the same bytes are equal.
pub proof fn lemma_block_record_injective(
    a: AlcovBlock,
    amd: AlcovBlockMetadata,
    b: AlcovBlock,
    bmd: AlcovBlockMetadata,
)
    requires
        block_record_bytes(a, amd) == block_record_bytes(b, bmd),
    ensures
        a == b,
        amd == bmd,
{
    lemma_block_record_fields(a, amd);
    lemma_block_record_fields(b, bmd);
    lemma_u64_le_inverse(a.segment_offset);
    lemma_u64_le_inverse(b.segment_offset);
    lemma_u32_le_inverse(a.size);
    lemma_u32_le_inverse(b.size);
    lemma_u16_le_inverse(a.module_id);
    lemma_u16_le_inverse(b.module_id);
    lemma_u16_le_inverse(a.segment_id);
    lemma_u16_le_inverse(b.segment_id);
    lemma_u64_le_inverse(amd.nb_out_edges);
    lemma_u64_le_inverse(bmd.nb_out_edges);
    lemma_u64_le_inverse(amd.out_edges_offset);
    lemma_u64_le_inverse(bmd.out_edges_offset);
    lemma_u64_le_inverse(a.nb_taken);
    lemma_u64_le_inverse(b.nb_taken);
}

impl AlcovBlock {
    /// A block observation in the given module and segment.
    pub fn new(module_id: u16, segment_id: u16, segment_offset: u64, size: u32, nb_taken: u64) -> (r:
        AlcovBlock)
        ensures
            r == (AlcovBlock { module_id, segment_id, segment_offset, size, nb_taken }),
    {
        AlcovBlock { module_id, segment_id, segment_offset, size, nb_taken }
    }

    /// The edge back-reference this block writes: the adjacency's length and
    /// offset when one is given, zeros otherwise.
    pub open spec fn spec_edge_md(out_edges: Option<(&AlcovBlockEdges, &AlcovBlockEdgesMetadata)>) -> AlcovBlockMetadata {
        match out_edges {
            Some(oe) => AlcovBlockMetadata {
                nb_out_edges: oe.0@.len() as u64,
                out_edges_offset: oe.1.out_edges_offset,
            },
            None => AlcovBlockMetadata { nb_out_edges: 0, out_edges_offset: 0 },
        }
    }

    /// Appends the block's record, with its adjacency's length and offset.
    pub fn write(
        &self,
        buf: &mut Vec<u8>,
        out_edges: Option<(&AlcovBlockEdges, &AlcovBlockEdgesMetadata)>,
    )
        requires
            out_edges matches Some(oe) ==> oe.0@.len() <= u64::MAX,
        ensures
            final(buf)@ == old(buf)@ + block_record_bytes(*self, AlcovBlock::spec_edge_md(out_edges)),
    {
        push_u64_le(buf, self.segment_offset);
        push_u32_le(buf, self.size);
        push_u16_le(buf, self.module_id);
        push_u16_le(buf, self.segment_id);
        match out_edges {
            Some((edges, edges_md)) => {
                push_u64_le(buf, edges.entries.len() as u64);
                push_u64_le(buf, edges_md.out_edges_offset);
            },
            None => {
                push_u64_le(buf, 0);
                push_u64_le(buf, 0);
            },
        }
        push_u64_le(buf, self.nb_taken);
        assert(buf@ =~= old(buf)@ + block_record_bytes(
            *self,
            AlcovBlock::spec_edge_md(out_edges),
        ));
    }

    /// Parses the block record at `pos`.
    pub fn read(buf: &Vec<u8>, pos: usize) -> (r: Result<(AlcovBlock, AlcovBlockMetadata, usize), Error>)
        ensures
            r is Ok <==> pos + 40 <= buf@.len(),
            r matches Ok(t) ==> {
                &&& t.2 == pos + 40
                &&& block_record_bytes(t.0, t.1) == buf@.subrange(pos as int, pos + 40)
            },
            r is Err ==> r == (Err::<(AlcovBlock, AlcovBlockMetadata, usize), Error>(Error::Io)),
    {
        let n: usize = buf.len();
        if n < 40 || pos > n - 40 {
            return Err(Error::Io);
        }
        let segment_offset = read_u64_le(buf, pos);
        let size = read_u32_le(buf, pos + 8);
        let module_id = read_u16_le(buf, pos + 12);
        let segment_id = read_u16_le(buf, pos + 14);
        let nb_out_edges = read_u64_le(buf, pos + 16);
        let out_edges_offset = read_u64_le(buf, pos + 24);
        let nb_taken = read_u64_le(buf, pos + 32);
        let b = AlcovBlock { module_id, segment_id, segment_offset, size, nb_taken };
        let md = AlcovBlockMetadata { nb_out_edges, out_edges_offset };
        proof {
            lemma_le_bytes_complete_u64(buf@.subrange(pos as int, pos + 8));
            lemma_le_bytes_complete_u32(buf@.subrange(pos + 8, pos + 12));
            lemma_le_bytes_complete_u16(buf@.subrange(pos + 12, pos + 14));
            lemma_le_bytes_complete_u16(buf@.subrange(pos + 14, pos + 16));
            lemma_le_bytes_complete_u64(buf@.subrange(pos + 16, pos + 24));
            lemma_le_bytes_complete_u64(buf@.subrange(pos + 24, pos + 32));
            lemma_le_bytes_complete_u64(buf@.subrange(pos + 32, pos + 40));
            assert(block_record_bytes(b, md) =~= buf@.subrange(pos as int, pos + 40));
        }
        Ok((b, md, pos + 40))
    }
}

} // verus!
