//! The snapshot orchestrator: a whole container written to and read from bytes.
use vstd::prelude::*;
use crate::v0::block::{
    block_record_bytes, lemma_block_record_fields, lemma_block_record_injective, AlcovBlock,
    AlcovBlockMetadata,
};
use crate::v0::chunks::{
    lemma_flatten_index_fixed, lemma_flatten_index_var, lemma_flatten_take_all,
    lemma_flatten_take_succ,
};
use crate::v0::edge::{
    lemma_pairs_bytes_injective, lemma_pairs_bytes_len, pairs_bytes, total_edges, AlcovBlockEdges,
    AlcovBlockEdgesMetadata, AlcovEdges, EdgePair,
};
use crate::v0::error::Error;
use crate::v0::bytes::{u16_from_le, u64_from_le};
use crate::v0::header::{
    header_bytes, AlcovFlags, AlcovHeader, AlcovHeaderMetadata, HeaderV, ALCOV_MAGIC,
    FLAG_COMPRESS, FLAG_EDGES, FLAG_INPUT_PATH, FLAGS_ALL,
};
use crate::v0::lzma::{lzma2_compress_bytes, lzma2_decompress_bytes, lzma2_of};
use crate::v0::module::{
    module_record_bytes, module_wf, module_parses_at, path_at, path_entry,
    read_path,
    valid_path, AlcovModule, ModuleV, PATH_OFFSET_LIMIT, PATH_OFFSET_NONE,
};

verus! {

/// The ghost shape of a whole snapshot.
#[verifier::ext_equal]
pub ghost struct SnapV {
    pub hdr: HeaderV,
    pub modules: Seq<ModuleV>,
    pub blocks: Seq<AlcovBlock>,
    pub edges: Option<Seq<Seq<EdgePair>>>,
}

/// A whole coverage snapshot: header, modules, blocks, optional edge graph.
#[derive(Debug, PartialEq, Eq)]
pub struct Alcov {
    pub hdr: AlcovHeader,
    pub modules: Vec<AlcovModule>,
    pub blocks: Vec<AlcovBlock>,
    pub edges: Option<AlcovEdges>,
}

impl View for Alcov {
    type V = SnapV;

    open spec fn view(&self) -> SnapV {
        SnapV {
            hdr: self.hdr@,
            modules: Seq::new(self.modules@.len(), |i: int| self.modules@[i]@),
            blocks: self.blocks@,
            edges: match self.edges {
                Some(e) => Some(e@),
                None => None,
            },
        }
    }
}

/// The flag bits a snapshot's populated fields call for.
pub open spec fn spec_flags_bits(v: SnapV) -> u16 {
    ((if v.edges is Some {
        FLAG_EDGES as int
    } else {
        0
    }) + (if v.hdr.compress {
        FLAG_COMPRESS as int
    } else {
        0
    }) + (if v.hdr.input_path is Some {
        FLAG_INPUT_PATH as int
    } else {
        0
    })) as u16
}

/// The NUL-terminated entries the modules contribute to the paths chunk.
pub open spec fn path_entries(v: SnapV) -> Seq<Seq<u8>> {
    Seq::new(v.modules.len(), |i: int| path_entry(v.modules[i].path))
}

/// The paths chunk: the input path's entry first, then each module's.
pub open spec fn paths_chunk(v: SnapV) -> Seq<u8> {
    path_entry(v.hdr.input_path) + path_entries(v).flatten()
}

/// Where module `i`'s path entry begins inside the paths chunk.
pub open spec fn module_path_off(v: SnapV, i: int) -> int {
    path_entry(v.hdr.input_path).len() + path_entries(v).take(i).flatten().len() as int
}

/// The `path_offset` field module `i`'s record carries.
pub open spec fn wire_path_off(v: SnapV, i: int) -> u64 {
    if v.modules[i].path is Some {
        module_path_off(v, i) as u64
    } else {
        PATH_OFFSET_NONE
    }
}

/// The module records, each with its path offset.
pub open spec fn module_records(v: SnapV) -> Seq<Seq<u8>> {
    Seq::new(v.modules.len(), |i: int| module_record_bytes(v.modules[i], wire_path_off(v, i)))
}

/// The modules chunk.
pub open spec fn modules_chunk(v: SnapV) -> Seq<u8> {
    module_records(v).flatten()
}

/// Whether the snapshot carries an edge graph.
pub open spec fn has_edges(v: SnapV) -> bool {
    v.edges is Some
}

/// The per-block adjacencies of the edge graph.
pub open spec fn adjs(v: SnapV) -> Seq<Seq<EdgePair>>
    recommends
        has_edges(v),
{
    v.edges->0
}

/// The wire form of each adjacency.
pub open spec fn adj_records(v: SnapV) -> Seq<Seq<u8>> {
    Seq::new(adjs(v).len(), |i: int| pairs_bytes(adjs(v)[i]))
}

/// The edges chunk: every adjacency in block order.
pub open spec fn edges_chunk(v: SnapV) -> Seq<u8> {
    adj_records(v).flatten()
}

/// Where block `i`'s adjacency begins inside the edges chunk.
pub open spec fn adj_off(v: SnapV, i: int) -> int {
    adj_records(v).take(i).flatten().len() as int
}

/// The edge back-reference block `i`'s record carries.
pub open spec fn block_md_of(v: SnapV, i: int) -> AlcovBlockMetadata {
    if has_edges(v) && adjs(v)[i].len() > 0 {
        AlcovBlockMetadata {
            nb_out_edges: adjs(v)[i].len() as u64,
            out_edges_offset: adj_off(v, i) as u64,
        }
    } else {
        AlcovBlockMetadata { nb_out_edges: 0, out_edges_offset: 0 }
    }
}

/// The block records with their edge back-references.
pub open spec fn block_records(v: SnapV) -> Seq<Seq<u8>> {
    Seq::new(v.blocks.len(), |i: int| block_record_bytes(v.blocks[i], block_md_of(v, i)))
}

/// The blocks chunk, before compression.
pub open spec fn blocks_chunk(v: SnapV) -> Seq<u8> {
    block_records(v).flatten()
}

/// The blocks section as it stands in the file.
pub open spec fn blocks_section(v: SnapV) -> Seq<u8> {
    if v.hdr.compress {
        lzma2_of(blocks_chunk(v))
    } else {
        blocks_chunk(v)
    }
}

/// The edges section as it stands in the file.
pub open spec fn edges_section(v: SnapV) -> Seq<u8> {
    if v.hdr.compress {
        lzma2_of(edges_chunk(v))
    } else {
        edges_chunk(v)
    }
}

/// The total edge count the header records.
pub open spec fn spec_nb_edges(v: SnapV) -> int {
    if has_edges(v) {
        total_edges(adjs(v))
    } else {
        0
    }
}

/// Where the paths chunk starts in the file.
pub open spec fn spec_paths_start(v: SnapV) -> int {
    74 + modules_chunk(v).len() as int
}

/// Where the blocks section starts in the file.
pub open spec fn spec_blocks_start(v: SnapV) -> int {
    spec_paths_start(v) + paths_chunk(v).len() as int
}

/// Where the edges section starts in the file; zero without edges.
pub open spec fn spec_edges_start(v: SnapV) -> int {
    if has_edges(v) {
        spec_blocks_start(v) + blocks_section(v).len() as int
    } else {
        0
    }
}

/// The header record the writer computes for `v`.
pub open spec fn hdr_md_of(v: SnapV) -> AlcovHeaderMetadata {
    AlcovHeaderMetadata {
        version_major: v.hdr.version_major,
        version_minor: v.hdr.version_minor,
        nb_modules: v.modules.len() as u32,
        nb_blocks: v.blocks.len() as u32,
        nb_edges: spec_nb_edges(v) as u64,
        modules_start: 74,
        paths_start: spec_paths_start(v) as u64,
        blocks_start: spec_blocks_start(v) as u64,
        edges_start: spec_edges_start(v) as u64,
        flags: AlcovFlags { bits: spec_flags_bits(v) },
    }
}

/// The whole file.
pub open spec fn wire_of(v: SnapV) -> Seq<u8> {
    header_bytes(hdr_md_of(v)) + modules_chunk(v) + paths_chunk(v) + blocks_section(v) + (if has_edges(v) {
        edges_section(v)
    } else {
        Seq::empty()
    })
}

/// Every stored path is printable ASCII.
pub open spec fn paths_ok(v: SnapV) -> bool {
    &&& (v.hdr.input_path matches Some(p) ==> valid_path(p))
    &&& forall|i: int|
        0 <= i < v.modules.len() ==> ((#[trigger] v.modules[i]).path matches Some(p)
            ==> valid_path(p))
}

/// The counts the header stores fit their fields.
pub open spec fn counts_ok(v: SnapV) -> bool {
    &&& v.modules.len() <= u32::MAX
    &&& v.blocks.len() <= u32::MAX
    &&& (has_edges(v) ==> total_edges(adjs(v)) <= u64::MAX)
}

/// Every module's segment count fits the record's byte.
pub open spec fn segs_ok(v: SnapV) -> bool {
    forall|i: int| 0 <= i < v.modules.len() ==> (#[trigger] v.modules[i]).segments.len() <= 255
}

/// The section offsets fit their fields and every path offset is
/// representable as a nonnegative signed value.
pub open spec fn offsets_ok(v: SnapV) -> bool {
    &&& spec_paths_start(v) <= u64::MAX
    &&& spec_blocks_start(v) <= u64::MAX
    &&& (has_edges(v) ==> spec_blocks_start(v) + blocks_section(v).len() <= u64::MAX)
    &&& forall|i: int|
        0 <= i < v.modules.len() && (#[trigger] v.modules[i]).path is Some ==> module_path_off(v, i)
            < PATH_OFFSET_LIMIT
}

/// Everything `write` checks: on exactly these snapshots it succeeds.
pub open spec fn write_ok(v: SnapV) -> bool {
    &&& counts_ok(v)
    &&& paths_ok(v)
    &&& segs_ok(v)
    &&& offsets_ok(v)
}

/// A snapshot the format can carry and bring back: every module has one to
/// 255 well-formed segments, paths are ASCII, counts and offsets fit, and an
/// edge graph has one adjacency per block.
pub open spec fn snap_wf(v: SnapV) -> bool {
    &&& counts_ok(v)
    &&& paths_ok(v)
    &&& offsets_ok(v)
    &&& (has_edges(v) ==> 16 * total_edges(adjs(v)) <= u64::MAX)
    &&& forall|i: int| 0 <= i < v.modules.len() ==> module_wf(#[trigger] v.modules[i])
    &&& (v.edges matches Some(a) ==> a.len() == v.blocks.len())
}

/// A well-formed snapshot is writable.
pub proof fn lemma_snap_wf_write_ok(v: SnapV)
    requires
        snap_wf(v),
    ensures
        write_ok(v),
{
    assert forall|i: int| 0 <= i < v.modules.len() implies (#[trigger] v.modules[i]).segments.len()
        <= 255 by {
        assert(module_wf(v.modules[i]));
    }
}

/// Appends a copy of `src`.
pub fn extend_vec(dst: &mut Vec<u8>, src: &Vec<u8>)
    ensures
        final(dst)@ == old(dst)@ + src@,
{
    let n: usize = src.len();
    let mut i: usize = 0;
    proof {
        assert(dst@ =~= old(dst)@ + src@.take(0));
    }
    while i < n
        invariant
            i <= n,
            n == src@.len(),
            dst@ == old(dst)@ + src@.take(i as int),
        decreases n - i,
    {
        dst.push(src[i]);
        proof {
            assert(dst@ =~= old(dst)@ + src@.take(i + 1));
        }
        i = i + 1;
    }
    proof {
        assert(src@.take(n as int) =~= src@);
    }
}

/// Copies `len` bytes of `data` starting at `start`.
pub fn take_sub(data: &Vec<u8>, start: usize, len: usize) -> (r: Vec<u8>)
    requires
        start + len <= data@.len(),
    ensures
        r@ == data@.subrange(start as int, start as int + len as int),
{
    let n: usize = data.len();
    let mut out: Vec<u8> = Vec::new();
    let mut i: usize = 0;
    while i < len
        invariant
            i <= len,
            n == data@.len(),
            start + len <= n,
            out@ == data@.subrange(start as int, start as int + i as int),
        decreases len - i,
    {
        out.push(data[start + i]);
        proof {
            assert(out@ =~= data@.subrange(start as int, start as int + i + 1));
        }
        i = i + 1;
    }
    out
}

/// True when every byte of `p` may stand in a stored path.
pub fn check_path(p: &Vec<u8>) -> (r: bool)
    ensures
        r == valid_path(p@),
{
    let n: usize = p.len();
    let mut i: usize = 0;
    while i < n
        invariant
            i <= n,
            n == p@.len(),
            forall|k: int| 0 <= k < i ==> crate::v0::module::valid_path_byte(#[trigger] p@[k]),
        decreases n - i,
    {
        let b = p[i];
        if b == 0 || b >= 0x80 {
            return false;
        }
        i = i + 1;
    }
    true
}

/// Validates `p` and appends its NUL-terminated entry, handing back the
/// offset at which it begins.
pub fn push_path_entry(paths_buf: &mut Vec<u8>, p: &Vec<u8>) -> (r: Result<u64, Error>)
    ensures
        !valid_path(p@) ==> r == (Err::<u64, Error>(Error::PathEncodingError)) && final(paths_buf)@
            == old(paths_buf)@,
        valid_path(p@) && old(paths_buf)@.len() >= PATH_OFFSET_LIMIT ==> r == (Err::<u64, Error>(
            Error::SizeError,
        )) && final(paths_buf)@ == old(paths_buf)@,
        valid_path(p@) && old(paths_buf)@.len() < PATH_OFFSET_LIMIT ==> (r matches Ok(off)
            && off == old(paths_buf)@.len() && final(paths_buf)@ == old(paths_buf)@ + path_entry(
            Some(p@),
        )),
    {
        if !check_path(p) {
            return Err(Error::PathEncodingError);
        }
        let n: usize = paths_buf.len();
        if n as u64 >= PATH_OFFSET_LIMIT {
            return Err(Error::SizeError);
        }
        let off: u64 = n as u64;
        extend_vec(paths_buf, p);
        paths_buf.push(0);
        proof {
            assert(paths_buf@ =~= old(paths_buf)@ + path_entry(Some(p@)));
        }
        Ok(off)
    }

/// The edges chunk holds sixteen bytes per recorded edge.
pub proof fn lemma_edges_chunk_prefix_len(s: Seq<Seq<EdgePair>>, k: int)
    requires
        0 <= k <= s.len(),
    ensures
        Seq::new(s.len(), |i: int| pairs_bytes(s[i])).take(k).flatten().len() == 16 * total_edges(
            s.take(k),
        ),
    decreases k,
{
    let recs = Seq::new(s.len(), |i: int| pairs_bytes(s[i]));
    if k == 0 {
        assert(recs.take(0).flatten() =~= Seq::<u8>::empty());
        assert(s.take(0) =~= Seq::<Seq<EdgePair>>::empty());
    } else {
        lemma_edges_chunk_prefix_len(s, k - 1);
        lemma_flatten_take_succ(recs, k - 1);
        crate::v0::edge::lemma_total_edges_take_succ(s, k - 1);
        lemma_pairs_bytes_len(s[k - 1]);
    }
}

/// The edges chunk's length is sixteen times the edge count.
pub proof fn lemma_edges_chunk_len(v: SnapV)
    requires
        has_edges(v),
    ensures
        edges_chunk(v).len() == 16 * total_edges(adjs(v)),
{
    let s = adjs(v);
    lemma_edges_chunk_prefix_len(s, s.len() as int);
    assert(s.take(s.len() as int) =~= s);
    assert(Seq::new(s.len(), |i: int| pairs_bytes(s[i])).take(s.len() as int) =~= adj_records(v));
}

/// The five parts of a concatenation each sit between their offsets.
pub proof fn lemma_concat5(a: Seq<u8>, b: Seq<u8>, c: Seq<u8>, d: Seq<u8>, e: Seq<u8>)
    ensures
        (a + b + c + d + e).len() == a.len() + b.len() + c.len() + d.len() + e.len(),
        (a + b + c + d + e).subrange(0, a.len() as int) == a,
        (a + b + c + d + e).subrange(a.len() as int, a.len() + b.len() as int) == b,
        (a + b + c + d + e).subrange(a.len() + b.len() as int, a.len() + b.len() + c.len() as int) == c,
        (a + b + c + d + e).subrange(
            a.len() + b.len() + c.len() as int,
            a.len() + b.len() + c.len() + d.len() as int,
        ) == d,
        (a + b + c + d + e).subrange(
            a.len() + b.len() + c.len() + d.len() as int,
            a.len() + b.len() + c.len() + d.len() + e.len() as int,
        ) == e,
{
    let w = a + b + c + d + e;
    assert(w.subrange(0, a.len() as int) =~= a);
    assert(w.subrange(a.len() as int, a.len() + b.len() as int) =~= b);
    assert(w.subrange(a.len() + b.len() as int, a.len() + b.len() + c.len() as int) =~= c);
    assert(w.subrange(a.len() + b.len() + c.len() as int, a.len() + b.len() + c.len() + d.len() as int) =~= d);
    assert(w.subrange(
        a.len() + b.len() + c.len() + d.len() as int,
        a.len() + b.len() + c.len() + d.len() + e.len() as int,
    ) =~= e);
}

/// A subrange of the second part of a concatenation, shifted by the first.
pub proof fn lemma_concat_sub(a: Seq<u8>, b: Seq<u8>, x: int, y: int)
    requires
        0 <= x <= y <= b.len(),
    ensures
        (a + b).subrange(a.len() + x, a.len() + y) == b.subrange(x, y),
{
    assert((a + b).subrange(a.len() + x, a.len() + y) =~= b.subrange(x, y));
}

/// The ghost shapes of a run of modules.
pub open spec fn mods_view(ms: Seq<AlcovModule>) -> Seq<ModuleV> {
    Seq::new(ms.len(), |i: int| ms[i]@)
}

/// The ghost shapes of a run of adjacencies.
pub open spec fn adj_view(rs: Seq<AlcovBlockEdges>) -> Seq<Seq<EdgePair>> {
    Seq::new(rs.len(), |i: int| rs[i]@)
}

/// `data` is the file a well-formed snapshot `v` writes.
pub open spec fn is_wire_image(v: SnapV, data: Seq<u8>) -> bool {
    snap_wf(v) && data == wire_of(v)
}

/// Each flag bit is set exactly when the field it stands for is populated.
pub proof fn lemma_flag_bits(v: SnapV)
    ensures
        spec_flags_bits(v) <= 7,
        spec_flags_bits(v) & FLAG_EDGES != 0 <==> has_edges(v),
        spec_flags_bits(v) & FLAG_COMPRESS != 0 <==> v.hdr.compress,
        spec_flags_bits(v) & FLAG_INPUT_PATH != 0 <==> v.hdr.input_path is Some,
{
    let e: u16 = if has_edges(v) {
        1
    } else {
        0
    };
    let c: u16 = if v.hdr.compress {
        2
    } else {
        0
    };
    let p: u16 = if v.hdr.input_path is Some {
        4
    } else {
        0
    };
    assert(spec_flags_bits(v) == (e + c + p) as u16);
    assert(e + c + p <= 7 && (((e + c + p) as u16) & 1 != 0 <==> e == 1) && (((e + c
        + p) as u16) & 2 != 0 <==> c == 2) && (((e + c + p) as u16) & 4 != 0 <==> p == 4))
        by (bit_vector)
        requires
            (e == 0 || e == 1) && (c == 0 || c == 2) && (p == 0 || p == 4),
    ;
}

/// How a well-formed snapshot's file splits into its sections: the header
/// bytes come first, each section sits between its offsets, and the offsets
/// never run backwards.
pub proof fn lemma_wire_shape(v: SnapV)
    requires
        snap_wf(v),
    ensures
        wire_of(v).len() == 74 + modules_chunk(v).len() + paths_chunk(v).len() + blocks_section(
            v,
        ).len() + (if has_edges(v) {
            edges_section(v).len() as int
        } else {
            0
        }),
        wire_of(v).subrange(0, 74) == header_bytes(hdr_md_of(v)),
        hdr_md_of(v).flags.spec_recognized(),
        hdr_md_of(v).modules_start == 74,
        hdr_md_of(v).paths_start == spec_paths_start(v),
        hdr_md_of(v).blocks_start == spec_blocks_start(v),
        has_edges(v) ==> hdr_md_of(v).edges_start == spec_edges_start(v),
        !has_edges(v) ==> hdr_md_of(v).edges_start == 0,
        hdr_md_of(v).nb_modules == v.modules.len(),
        hdr_md_of(v).nb_blocks == v.blocks.len(),
        74 <= spec_paths_start(v) <= spec_blocks_start(v) <= wire_of(v).len(),
        wire_of(v).subrange(74, spec_paths_start(v)) == modules_chunk(v),
        wire_of(v).subrange(spec_paths_start(v), spec_blocks_start(v)) == paths_chunk(v),
        has_edges(v) ==> spec_blocks_start(v) <= spec_edges_start(v) <= wire_of(v).len()
            && wire_of(v).subrange(spec_blocks_start(v), spec_edges_start(v)) == blocks_section(v)
            && wire_of(v).subrange(spec_edges_start(v), wire_of(v).len() as int) == edges_section(
            v,
        ),
        !has_edges(v) ==> wire_of(v).subrange(spec_blocks_start(v), wire_of(v).len() as int)
            == blocks_section(v),
{
    crate::v0::header::lemma_header_fields(hdr_md_of(v));
    lemma_flag_bits(v);
    let fb = hdr_md_of(v).flags.bits;
    assert(fb & !crate::v0::header::FLAGS_ALL == 0) by (bit_vector)
        requires
            fb <= 7,
    ;
    let a = header_bytes(hdr_md_of(v));
    let b = modules_chunk(v);
    let c = paths_chunk(v);
    let d = blocks_section(v);
    let e = if has_edges(v) {
        edges_section(v)
    } else {
        Seq::<u8>::empty()
    };
    assert(wire_of(v) == a + b + c + d + e);
    lemma_concat5(a, b, c, d, e);
}

/// Module `k`'s path reads back from the paths chunk at its offset.
pub proof fn lemma_paths_chunk_entry(v: SnapV, k: int)
    requires
        snap_wf(v),
        0 <= k < v.modules.len(),
        v.modules[k].path is Some,
    ensures
        path_at(paths_chunk(v), module_path_off(v, k)) == Some(v.modules[k].path->0),
{
    let p = v.modules[k].path->0;
    let ents = path_entries(v);
    crate::v0::chunks::lemma_flatten_index_var(ents, k);
    assert(ents[k] == p + seq![0u8]);
    let off = ents.take(k).flatten().len() as int;
    let mpo = module_path_off(v, k);
    lemma_concat_sub(path_entry(v.hdr.input_path), ents.flatten(), off, off + ents[k].len());
    assert(paths_chunk(v).subrange(mpo, mpo + p.len() + 1) == p + seq![0u8]);
    assert(valid_path(p));
    assert forall|i: int| 0 <= i < p.len() implies #[trigger] p[i] != 0 by {
        assert(crate::v0::module::valid_path_byte(p[i]));
    }
    crate::v0::module::lemma_path_at_entry(paths_chunk(v), mpo, p);
}

impl Alcov {
    /// A snapshot from its parts.
    pub fn new(
        hdr: AlcovHeader,
        modules: Vec<AlcovModule>,
        blocks: Vec<AlcovBlock>,
        edges: Option<AlcovEdges>,
    ) -> (r: Alcov)
        ensures
            r.hdr == hdr,
            r.modules == modules,
            r.blocks == blocks,
            r.edges == edges,
    {
        Alcov { hdr, modules, blocks, edges }
    }

    /// Derives the flag set from the populated fields.
    pub fn get_flags(&self) -> (r: AlcovFlags)
        ensures
            r.bits == spec_flags_bits(self@),
            r.spec_recognized(),
    {
        let mut bits: u16 = 0;
        if self.edges.is_some() {
            bits = bits + FLAG_EDGES;
        }
        if self.hdr.compress {
            bits = bits + FLAG_COMPRESS;
        }
        if self.hdr.input_path.is_some() {
            bits = bits + FLAG_INPUT_PATH;
        }
        proof {
            assert(bits & !crate::v0::header::FLAGS_ALL == 0) by (bit_vector)
                requires
                    bits <= 7,
            ;
        }
        AlcovFlags { bits }
    }

    /// True when writing will compress the blocks and edges sections.
    pub fn should_compress(&self) -> (r: bool)
        ensures
            r == self@.hdr.compress,
    {
        self.hdr.compress
    }

    /// True when the snapshot carries an edge graph.
    pub fn has_edges(&self) -> (r: bool)
        ensures
            r == has_edges(self@),
    {
        self.edges.is_some()
    }

    /// True when the header names the profiled binary.
    pub fn has_input(&self) -> (r: bool)
        ensures
            r == (self@.hdr.input_path is Some),
    {
        self.hdr.input_path.is_some()
    }

    /// Serializes the snapshot: header, modules, paths, blocks, edges, the
    /// last two LZMA2-compressed when the header asks for it.
    #[verifier::rlimit(100)]
    pub fn write(&self) -> (r: Result<Vec<u8>, Error>)
        requires
            self.edges matches Some(e) ==> e.adj_list@.len() == self.blocks@.len(),
        ensures
            r matches Ok(out) ==> out@ == wire_of(self@),
            r is Ok <==> write_ok(self@),
            !counts_ok(self@) ==> r == (Err::<Vec<u8>, Error>(Error::SizeError)),
            counts_ok(self@) && offsets_ok(self@) && segs_ok(self@) && !paths_ok(self@) ==> r == (
            Err::<Vec<u8>, Error>(Error::PathEncodingError)),
            counts_ok(self@) && offsets_ok(self@) && paths_ok(self@) && !segs_ok(self@) ==> r == (
            Err::<Vec<u8>, Error>(Error::SizeError)),
            counts_ok(self@) && paths_ok(self@) && segs_ok(self@) && !offsets_ok(self@) ==> r == (
            Err::<Vec<u8>, Error>(Error::SizeError)),
            r matches Ok(out) ==> (has_edges(self@) && (self@.hdr.compress || spec_nb_edges(
                self@,
            ) > 0) ==> spec_edges_start(self@) < out@.len()),
    {
        let ghost v = self@;
        if self.modules.len() > u32::MAX as usize {
            return Err(Error::SizeError);
        }
        if self.blocks.len() > u32::MAX as usize {
            return Err(Error::SizeError);
        }
        let nb_edges: u64 = match &self.edges {
            Some(e) => {
                match e.try_nb_edges() {
                    Some(x) => x,
                    None => {
                        return Err(Error::SizeError);
                    },
                }
            },
            None => 0,
        };
        let mut paths_buf: Vec<u8> = Vec::new();
        match &self.hdr.input_path {
            Some(p) => {
                match push_path_entry(&mut paths_buf, p) {
                    Ok(_) => (),
                    Err(e) => {
                        return Err(e);
                    },
                }
            },
            None => (),
        }
        proof {
            assert(paths_buf@ =~= path_entry(v.hdr.input_path));
        }
        let mut mods_buf: Vec<u8> = Vec::new();
        let nm: usize = self.modules.len();
        let mut i: usize = 0;
        proof {
            assert(mods_buf@ =~= module_records(v).take(0).flatten());
            assert(paths_buf@ =~= path_entry(v.hdr.input_path) + path_entries(v).take(0).flatten());
        }
        while i < nm
            invariant
                i <= nm,
                nm == v.modules.len(),
                v == self@,
                counts_ok(v),
                self.edges matches Some(e) ==> e.adj_list@.len() == self.blocks@.len(),
                v.hdr.input_path matches Some(p) ==> valid_path(p),
                mods_buf@ == module_records(v).take(i as int).flatten(),
                paths_buf@ == path_entry(v.hdr.input_path) + path_entries(v).take(
                    i as int,
                ).flatten(),
                forall|k: int|
                    0 <= k < i ==> ((#[trigger] v.modules[k]).path matches Some(p) ==> valid_path(
                        p,
                    )),
                forall|k: int| 0 <= k < i ==> (#[trigger] v.modules[k]).segments.len() <= 255,
                forall|k: int|
                    0 <= k < i && (#[trigger] v.modules[k]).path is Some ==> module_path_off(v, k)
                        < PATH_OFFSET_LIMIT,
            decreases nm - i,
        {
            let m = &self.modules[i];
            proof {
                assert(m@ == v.modules[i as int]);
                assert(paths_buf@.len() == module_path_off(v, i as int));
            }
            let off: u64 = match &m.path {
                Some(p) => {
                    match push_path_entry(&mut paths_buf, p) {
                        Ok(o) => o,
                        Err(e) => {
                            proof {
                                if valid_path(p@) {
                                    assert(module_path_off(v, i as int) >= PATH_OFFSET_LIMIT);
                                    assert(!offsets_ok(v));
                                } else {
                                    assert(!paths_ok(v));
                                }
                            }
                            return Err(e);
                        },
                    }
                },
                None => PATH_OFFSET_NONE,
            };
            proof {
                assert(off == wire_path_off(v, i as int));
            }
            match m.write(&mut mods_buf, off) {
                Ok(()) => (),
                Err(e) => {
                    proof {
                        assert(v.modules[i as int].segments.len() > 255);
                        assert(!segs_ok(v));
                    }
                    return Err(e);
                },
            }
            proof {
                lemma_flatten_take_succ(module_records(v), i as int);
                assert(mods_buf@ =~= module_records(v).take(i + 1).flatten());
                lemma_flatten_take_succ(path_entries(v), i as int);
                assert(paths_buf@ =~= path_entry(v.hdr.input_path) + path_entries(v).take(
                    i + 1,
                ).flatten());
            }
            i = i + 1;
        }
        proof {
            lemma_flatten_take_all(module_records(v));
            lemma_flatten_take_all(path_entries(v));
            assert(mods_buf@ == modules_chunk(v));
            assert(paths_buf@ =~= paths_chunk(v));
            assert(paths_ok(v));
            assert(segs_ok(v));
        }
        let mods_len: u64 = mods_buf.len() as u64;
        if mods_len > u64::MAX - 74 {
            return Err(Error::SizeError);
        }
        let paths_start: u64 = 74 + mods_len;
        let paths_len: u64 = paths_buf.len() as u64;
        if paths_len > u64::MAX - paths_start {
            return Err(Error::SizeError);
        }
        let blocks_start: u64 = paths_start + paths_len;
        let nb: usize = self.blocks.len();
        let mut blocks_buf: Vec<u8> = Vec::new();
        let mut edges_buf: Vec<u8> = Vec::new();
        match &self.edges {
            Some(e) => {
                let mut j: usize = 0;
                proof {
                    assert(blocks_buf@ =~= block_records(v).take(0).flatten());
                    assert(edges_buf@ =~= adj_records(v).take(0).flatten());
                }
                while j < nb
                    invariant
                        j <= nb,
                        nb == v.blocks.len(),
                        v == self@,
                        has_edges(v),
                        e@ == adjs(v),
                        e.adj_list@.len() == nb,
                        blocks_buf@ == block_records(v).take(j as int).flatten(),
                        edges_buf@ == adj_records(v).take(j as int).flatten(),
                    decreases nb - j,
                {
                    let row = &e.adj_list[j];
                    let nrow = row.entries.len();
                    proof {
                        assert(row@ == adjs(v)[j as int]);
                        assert(edges_buf@.len() == adj_off(v, j as int));
                    }
                    let md = AlcovBlockEdgesMetadata {
                        out_edges_offset: if nrow == 0 {
                            0
                        } else {
                            edges_buf.len() as u64
                        },
                    };
                    self.blocks[j].write(&mut blocks_buf, Some((row, &md)));
                    row.write(&mut edges_buf);
                    proof {
                        assert(crate::v0::block::AlcovBlock::spec_edge_md(Some((row, &md)))
                            == block_md_of(v, j as int));
                        lemma_flatten_take_succ(block_records(v), j as int);
                        assert(blocks_buf@ =~= block_records(v).take(j + 1).flatten());
                        lemma_flatten_take_succ(adj_records(v), j as int);
                        assert(edges_buf@ =~= adj_records(v).take(j + 1).flatten());
                    }
                    j = j + 1;
                }
            },
            None => {
                let mut j: usize = 0;
                proof {
                    assert(blocks_buf@ =~= block_records(v).take(0).flatten());
                }
                while j < nb
                    invariant
                        j <= nb,
                        nb == v.blocks.len(),
                        v == self@,
                        !has_edges(v),
                        blocks_buf@ == block_records(v).take(j as int).flatten(),
                    decreases nb - j,
                {
                    self.blocks[j].write(&mut blocks_buf, None);
                    proof {
                        assert(crate::v0::block::AlcovBlock::spec_edge_md(None) == block_md_of(
                            v,
                            j as int,
                        ));
                        lemma_flatten_take_succ(block_records(v), j as int);
                        assert(blocks_buf@ =~= block_records(v).take(j + 1).flatten());
                    }
                    j = j + 1;
                }
            },
        }
        proof {
            lemma_flatten_take_all(block_records(v));
            assert(blocks_buf@ == blocks_chunk(v));
            if has_edges(v) {
                lemma_flatten_take_all(adj_records(v));
                assert(edges_buf@ == edges_chunk(v));
            }
        }
        let compress = self.hdr.compress;
        let has_e = self.edges.is_some();
        let blocks_sec: Vec<u8> = if compress {
            lzma2_compress_bytes(&blocks_buf)
        } else {
            blocks_buf
        };
        let blocks_sec_len: u64 = blocks_sec.len() as u64;
        let edges_start: u64 = if has_e {
            if blocks_sec_len > u64::MAX - blocks_start {
                return Err(Error::SizeError);
            }
            blocks_start + blocks_sec_len
        } else {
            0
        };
        let edges_sec: Option<Vec<u8>> = if has_e {
            let es: Vec<u8> = if compress {
                lzma2_compress_bytes(&edges_buf)
            } else {
                edges_buf
            };
            Some(es)
        } else {
            None
        };
        let md = AlcovHeaderMetadata {
            version_major: self.hdr.version_major,
            version_minor: self.hdr.version_minor,
            nb_modules: self.modules.len() as u32,
            nb_blocks: self.blocks.len() as u32,
            nb_edges,
            modules_start: 74,
            paths_start,
            blocks_start,
            edges_start,
            flags: self.get_flags(),
        };
        proof {
            assert(md == hdr_md_of(v));
        }
        let mut out: Vec<u8> = Vec::new();
        md.write(&mut out);
        extend_vec(&mut out, &mods_buf);
        extend_vec(&mut out, &paths_buf);
        extend_vec(&mut out, &blocks_sec);
        match &edges_sec {
            Some(es) => extend_vec(&mut out, es),
            None => (),
        }
        proof {
            assert(out@ =~= wire_of(v));
            assert(write_ok(v));
            if has_edges(v) && !v.hdr.compress && spec_nb_edges(v) > 0 {
                lemma_edges_chunk_len(v);
            }
        }
        Ok(out)
    }
}


/// The bytes already passed the header checks: the magic is in place and
/// every flag bit is recognized.
pub open spec fn data_header_ok(data: Seq<u8>) -> bool {
    &&& data.len() >= 74
    &&& u64_from_le(data.subrange(0, 8)) == ALCOV_MAGIC
    &&& u16_from_le(data.subrange(72, 74)) & !FLAGS_ALL == 0
}

/// Everything the reader learns about a candidate snapshot once the header
/// matched: the parsed header is the one `v` writes, and each section of
/// `data` is `v`'s.
pub open spec fn shaped(v: SnapV, data: Seq<u8>, md: AlcovHeaderMetadata) -> bool {
    &&& md == hdr_md_of(v)
    &&& md.modules_start == 74
    &&& md.paths_start == spec_paths_start(v)
    &&& md.blocks_start == spec_blocks_start(v)
    &&& md.nb_modules == v.modules.len()
    &&& md.nb_blocks == v.blocks.len()
    &&& (has_edges(v) ==> md.edges_start == spec_edges_start(v))
    &&& 74 <= spec_paths_start(v) <= spec_blocks_start(v) <= data.len()
    &&& data.subrange(74, spec_paths_start(v)) == modules_chunk(v)
    &&& data.subrange(spec_paths_start(v), spec_blocks_start(v)) == paths_chunk(v)
    &&& (has_edges(v) ==> spec_blocks_start(v) <= spec_edges_start(v) <= data.len()
        && data.subrange(spec_blocks_start(v), spec_edges_start(v)) == blocks_section(v)
        && data.subrange(spec_edges_start(v), data.len() as int) == edges_section(v))
    &&& (!has_edges(v) ==> data.subrange(spec_blocks_start(v), data.len() as int)
        == blocks_section(v))
    &&& (md.flags.bits & FLAG_EDGES != 0 <==> has_edges(v))
    &&& (md.flags.bits & FLAG_COMPRESS != 0 <==> v.hdr.compress)
    &&& (md.flags.bits & FLAG_INPUT_PATH != 0 <==> v.hdr.input_path is Some)
}

/// A well-formed snapshot's file is shaped around the header it wrote.
pub proof fn lemma_shaped(v: SnapV, data: Seq<u8>, md: AlcovHeaderMetadata)
    requires
        is_wire_image(v, data),
        header_bytes(md) == data.subrange(0, 74),
    ensures
        shaped(v, data, md),
{
    lemma_wire_shape(v);
    lemma_flag_bits(v);
    crate::v0::header::lemma_header_bytes_injective(md, hdr_md_of(v));
}

/// Module `k`'s record parses at its position in the modules chunk, and its
/// path offset resolves in the paths chunk.
pub proof fn lemma_module_parses_in_chunk(v: SnapV, k: int)
    requires
        snap_wf(v),
        0 <= k < v.modules.len(),
    ensures
        module_parses_at(
            v.modules[k],
            wire_path_off(v, k),
            modules_chunk(v),
            module_records(v).take(k).flatten().len() as int,
            paths_chunk(v),
        ),
{
    lemma_flatten_index_var(module_records(v), k);
    crate::v0::module::lemma_module_record_fields(v.modules[k], wire_path_off(v, k));
    if v.modules[k].path is Some {
        lemma_paths_chunk_entry(v, k);
    }
}

/// The blocks chunk is forty bytes per block, block `k`'s record at `40 * k`.
pub proof fn lemma_block_parses_in_chunk(v: SnapV, k: int)
    requires
        snap_wf(v),
        0 <= k < v.blocks.len(),
    ensures
        blocks_chunk(v).len() == 40 * v.blocks.len(),
        blocks_chunk(v).subrange(40 * k, 40 * k + 40) == block_record_bytes(
            v.blocks[k],
            block_md_of(v, k),
        ),
{
    assert forall|i: int| 0 <= i < block_records(v).len() implies (#[trigger] block_records(
        v,
    )[i]).len() == 40 by {
        lemma_block_record_fields(v.blocks[i], block_md_of(v, i));
    }
    lemma_flatten_index_fixed(block_records(v), 40, k);
}

/// Reading at block `k`'s recorded offset for its recorded length yields
/// exactly the adjacency the writer stored for block `k`.
pub proof fn lemma_adjacency_indexing(v: SnapV, k: int)
    requires
        snap_wf(v),
        has_edges(v),
        0 <= k < adjs(v).len(),
    ensures
        adj_off(v, k) >= 0,
        adj_off(v, k) + 16 * adjs(v)[k].len() <= edges_chunk(v).len(),
        edges_chunk(v).subrange(adj_off(v, k), adj_off(v, k) + 16 * adjs(v)[k].len())
            == pairs_bytes(adjs(v)[k]),
        block_md_of(v, k).nb_out_edges == adjs(v)[k].len(),
        block_md_of(v, k).nb_out_edges > 0 ==> block_md_of(v, k).out_edges_offset == adj_off(v, k),
{
    lemma_flatten_index_var(adj_records(v), k);
    lemma_pairs_bytes_len(adjs(v)[k]);
    lemma_edges_chunk_prefix_len(adjs(v), k);
    crate::v0::edge::lemma_total_edges_take_succ(adjs(v), k);
    crate::v0::edge::lemma_total_edges_take_le(adjs(v), k + 1);
    crate::v0::edge::lemma_total_edges_nonneg(adjs(v).take(k));
    assert(16 * total_edges(adjs(v).take(k + 1)) <= 16 * total_edges(adjs(v)))
        by (nonlinear_arith)
        requires
            total_edges(adjs(v).take(k + 1)) <= total_edges(adjs(v)),
    ;
}

/// The input path reads back from offset zero of the paths chunk.
pub proof fn lemma_input_path_at(v: SnapV)
    requires
        snap_wf(v),
        v.hdr.input_path is Some,
    ensures
        path_at(paths_chunk(v), 0) == Some(v.hdr.input_path->0),
{
    let p = v.hdr.input_path->0;
    assert(paths_chunk(v).subrange(0, p.len() + 1 as int) =~= p + seq![0u8]);
    assert forall|i: int| 0 <= i < p.len() implies #[trigger] p[i] != 0 by {
        assert(crate::v0::module::valid_path_byte(p[i]));
    }
    crate::v0::module::lemma_path_at_entry(paths_chunk(v), 0, p);
}

/// The flag bits `get_flags` derives are the ones the written header holds.
pub proof fn lemma_flags_in_wire(v: SnapV)
    requires
        snap_wf(v),
    ensures
        wire_of(v).subrange(72, 74) == crate::v0::bytes::u16_le_bytes(spec_flags_bits(v)),
{
    lemma_wire_shape(v);
    assert(wire_of(v).subrange(72, 74) =~= wire_of(v).subrange(0, 74).subrange(72, 74));
    assert(header_bytes(hdr_md_of(v)).subrange(72, 74) =~= crate::v0::bytes::u16_le_bytes(
        spec_flags_bits(v),
    ));
}

/// Parses `nmods` module records from the modules chunk, resolving paths.
fn read_modules(
    modules_buf: &Vec<u8>,
    paths_buf: &Vec<u8>,
    nmods: u32,
    Ghost(data): Ghost<Seq<u8>>,
    Ghost(md): Ghost<AlcovHeaderMetadata>,
) -> (r: Result<Vec<AlcovModule>, Error>)
    requires
        nmods == md.nb_modules,
        forall|v: SnapV|
            #[trigger] is_wire_image(v, data) ==> shaped(v, data, md) && modules_buf@
                == modules_chunk(v) && paths_buf@ == paths_chunk(v),
    ensures
        forall|v: SnapV|
            #[trigger] is_wire_image(v, data) ==> (r matches Ok(ms) && mods_view(ms@)
                == v.modules),
{
    let mut modules: Vec<AlcovModule> = Vec::new();
    let mut mpos: usize = 0;
    let mut k: u32 = 0;
    proof {
        assert forall|v: SnapV| #[trigger] is_wire_image(v, data) implies (mods_view(modules@)
            =~= v.modules.take(0) && module_records(v).take(0).flatten() =~= Seq::<u8>::empty()) by {
        }
    }
    while k < nmods
        invariant
            k <= nmods,
            modules@.len() == k,
            forall|v: SnapV|
                #[trigger] is_wire_image(v, data) ==> {
                    &&& shaped(v, data, md)
                    &&& nmods == md.nb_modules
                    &&& modules_buf@ == modules_chunk(v)
                    &&& paths_buf@ == paths_chunk(v)
                    &&& k <= v.modules.len()
                    &&& mods_view(modules@) == v.modules.take(k as int)
                    &&& mpos == module_records(v).take(k as int).flatten().len()
                },
        decreases nmods - k,
    {
        let mr = AlcovModule::read(modules_buf, mpos, paths_buf);
        match mr {
            Ok(pr) => {
                let (m, np) = pr;
                modules.push(m);
                proof {
                    assert forall|v: SnapV| #[trigger] is_wire_image(v, data) implies {
                        &&& k + 1 <= v.modules.len()
                        &&& mods_view(modules@) == v.modules.take(k + 1)
                        &&& np == module_records(v).take(k + 1).flatten().len()
                    } by {
                        assert(k < v.modules.len());
                        lemma_module_parses_in_chunk(v, k as int);
                        assert(module_parses_at(
                            v.modules[k as int],
                            wire_path_off(v, k as int),
                            modules_buf@,
                            mpos as int,
                            paths_buf@,
                        ));
                        crate::v0::module::lemma_module_record_fields(
                            v.modules[k as int],
                            wire_path_off(v, k as int),
                        );
                        lemma_flatten_take_succ(module_records(v), k as int);
                        assert(mods_view(modules@) =~= v.modules.take(k + 1));
                    }
                }
                mpos = np;
            },
            Err(e) => {
                proof {
                    assert forall|v: SnapV| !is_wire_image(v, data) by {
                        if is_wire_image(v, data) {
                            assert(k < v.modules.len());
                            lemma_module_parses_in_chunk(v, k as int);
                            assert(module_parses_at(
                                v.modules[k as int],
                                wire_path_off(v, k as int),
                                modules_buf@,
                                mpos as int,
                                paths_buf@,
                            ));
                        }
                    }
                }
                return Err(e);
            },
        }
        k = k + 1;
    }
    proof {
        assert forall|v: SnapV| #[trigger] is_wire_image(v, data) implies mods_view(modules@)
            == v.modules by {
            assert(v.modules.take(v.modules.len() as int) =~= v.modules);
        }
    }
    Ok(modules)
}

/// Parses `nblocks` block records and, for each, the adjacency its record
/// points at inside the edges chunk.
fn read_blocks_edges(
    blocks_buf: &Vec<u8>,
    edges_chunk_buf: &Vec<u8>,
    nblocks: u32,
    Ghost(data): Ghost<Seq<u8>>,
    Ghost(md): Ghost<AlcovHeaderMetadata>,
) -> (r: Result<(Vec<AlcovBlock>, Vec<AlcovBlockEdges>), Error>)
    requires
        nblocks == md.nb_blocks,
        forall|v: SnapV|
            #[trigger] is_wire_image(v, data) ==> shaped(v, data, md) && has_edges(v)
                && adjs(v).len() == v.blocks.len() && blocks_buf@ == blocks_chunk(v)
                && edges_chunk_buf@ == edges_chunk(v),
    ensures
        forall|v: SnapV|
            #[trigger] is_wire_image(v, data) ==> (r matches Ok(t) && t.0@ == v.blocks && adj_view(
                t.1@,
            ) == adjs(v)),
        r matches Ok(t) ==> t.0@.len() == t.1@.len(),
{
    let mut blocks: Vec<AlcovBlock> = Vec::new();
    let mut adj_list: Vec<AlcovBlockEdges> = Vec::new();
    let mut bpos: usize = 0;
    let mut k2: u32 = 0;
    proof {
        assert forall|v: SnapV| #[trigger] is_wire_image(v, data) implies (blocks@
            =~= v.blocks.take(0) && adj_view(adj_list@) =~= adjs(v).take(0)) by {
        }
    }
    while k2 < nblocks
        invariant
            k2 <= nblocks,
            blocks@.len() == k2,
            adj_list@.len() == k2,
            bpos == 40 * k2,
            forall|v: SnapV|
                #[trigger] is_wire_image(v, data) ==> {
                    &&& shaped(v, data, md)
                    &&& nblocks == md.nb_blocks
                    &&& has_edges(v)
                    &&& blocks_buf@ == blocks_chunk(v)
                    &&& edges_chunk_buf@ == edges_chunk(v)
                    &&& k2 <= v.blocks.len()
                    &&& adjs(v).len() == v.blocks.len()
                    &&& blocks@ == v.blocks.take(k2 as int)
                    &&& adj_view(adj_list@) == adjs(v).take(k2 as int)
                },
        decreases nblocks - k2,
    {
        let br = AlcovBlock::read(blocks_buf, bpos);
        match br {
            Ok(t) => {
                let (b, bmd, np) = t;
                let rowr = AlcovBlockEdges::read(edges_chunk_buf, &bmd);
                match rowr {
                    Ok(row) => {
                        blocks.push(b);
                        adj_list.push(row);
                        proof {
                            assert forall|v: SnapV| #[trigger] is_wire_image(v, data) implies {
                                &&& k2 + 1 <= v.blocks.len()
                                &&& blocks@ == v.blocks.take(k2 + 1)
                                &&& adj_view(adj_list@) == adjs(v).take(k2 + 1)
                            } by {
                                assert(k2 < v.blocks.len());
                                lemma_block_parses_in_chunk(v, k2 as int);
                                lemma_block_record_injective(
                                    b,
                                    bmd,
                                    v.blocks[k2 as int],
                                    block_md_of(v, k2 as int),
                                );
                                lemma_adjacency_indexing(v, k2 as int);
                                if adjs(v)[k2 as int].len() > 0 {
                                    lemma_pairs_bytes_injective(row@, adjs(v)[k2 as int]);
                                } else {
                                    assert(row@ =~= adjs(v)[k2 as int]);
                                }
                                assert(blocks@ =~= v.blocks.take(k2 + 1));
                                assert(adj_view(adj_list@) =~= adjs(v).take(k2 + 1));
                            }
                        }
                        bpos = np;
                    },
                    Err(e) => {
                        proof {
                            assert forall|v: SnapV| !is_wire_image(v, data) by {
                                if is_wire_image(v, data) {
                                    assert(k2 < v.blocks.len());
                                    lemma_block_parses_in_chunk(v, k2 as int);
                                    lemma_block_record_injective(
                                        b,
                                        bmd,
                                        v.blocks[k2 as int],
                                        block_md_of(v, k2 as int),
                                    );
                                    lemma_adjacency_indexing(v, k2 as int);
                                }
                            }
                        }
                        return Err(e);
                    },
                }
            },
            Err(e) => {
                proof {
                    assert forall|v: SnapV| !is_wire_image(v, data) by {
                        if is_wire_image(v, data) {
                            assert(k2 < v.blocks.len());
                            lemma_block_parses_in_chunk(v, k2 as int);
                        }
                    }
                }
                return Err(e);
            },
        }
        k2 = k2 + 1;
    }
    proof {
        assert forall|v: SnapV| #[trigger] is_wire_image(v, data) implies (blocks@ == v.blocks
            && adj_view(adj_list@) == adjs(v)) by {
            assert(v.blocks.take(v.blocks.len() as int) =~= v.blocks);
            assert(adjs(v).take(adjs(v).len() as int) =~= adjs(v));
        }
    }
    Ok((blocks, adj_list))
}

/// Parses `nblocks` block records, ignoring their edge back-references.
fn read_blocks_plain(
    blocks_buf: &Vec<u8>,
    nblocks: u32,
    Ghost(data): Ghost<Seq<u8>>,
    Ghost(md): Ghost<AlcovHeaderMetadata>,
) -> (r: Result<Vec<AlcovBlock>, Error>)
    requires
        nblocks == md.nb_blocks,
        forall|v: SnapV|
            #[trigger] is_wire_image(v, data) ==> shaped(v, data, md) && !has_edges(v)
                && blocks_buf@ == blocks_chunk(v),
    ensures
        forall|v: SnapV|
            #[trigger] is_wire_image(v, data) ==> (r matches Ok(bs) && bs@ == v.blocks),
{
    let mut blocks: Vec<AlcovBlock> = Vec::new();
    let mut bpos: usize = 0;
    let mut k2: u32 = 0;
    proof {
        assert forall|v: SnapV| #[trigger] is_wire_image(v, data) implies blocks@
            =~= v.blocks.take(0) by {
        }
    }
    while k2 < nblocks
        invariant
            k2 <= nblocks,
            blocks@.len() == k2,
            bpos == 40 * k2,
            forall|v: SnapV|
                #[trigger] is_wire_image(v, data) ==> {
                    &&& shaped(v, data, md)
                    &&& nblocks == md.nb_blocks
                    &&& !has_edges(v)
                    &&& blocks_buf@ == blocks_chunk(v)
                    &&& k2 <= v.blocks.len()
                    &&& blocks@ == v.blocks.take(k2 as int)
                },
        decreases nblocks - k2,
    {
        let br = AlcovBlock::read(blocks_buf, bpos);
        match br {
            Ok(t) => {
                let (b, bmd, np) = t;
                blocks.push(b);
                proof {
                    assert forall|v: SnapV| #[trigger] is_wire_image(v, data) implies {
                        &&& k2 + 1 <= v.blocks.len()
                        &&& blocks@ == v.blocks.take(k2 + 1)
                    } by {
                        assert(k2 < v.blocks.len());
                        lemma_block_parses_in_chunk(v, k2 as int);
                        lemma_block_record_injective(
                            b,
                            bmd,
                            v.blocks[k2 as int],
                            block_md_of(v, k2 as int),
                        );
                        assert(blocks@ =~= v.blocks.take(k2 + 1));
                    }
                }
                bpos = np;
            },
            Err(e) => {
                proof {
                    assert forall|v: SnapV| !is_wire_image(v, data) by {
                        if is_wire_image(v, data) {
                            assert(k2 < v.blocks.len());
                            lemma_block_parses_in_chunk(v, k2 as int);
                        }
                    }
                }
                return Err(e);
            },
        }
        k2 = k2 + 1;
    }
    proof {
        assert forall|v: SnapV| #[trigger] is_wire_image(v, data) implies blocks@ == v.blocks by {
            assert(v.blocks.take(v.blocks.len() as int) =~= v.blocks);
        }
    }
    Ok(blocks)
}

impl Alcov {
    /// Parses a whole container back from its bytes. Any file a well-formed
    /// snapshot writes comes back as that snapshot; a wrong magic, an
    /// unknown flag bit or a truncated header is rejected with its error.
    #[verifier::rlimit(100)]
    pub fn read(data: &Vec<u8>) -> (r: Result<Alcov, Error>)
        ensures
            forall|v: SnapV| #[trigger] is_wire_image(v, data@) ==> (r matches Ok(a) && a@ == v),
            data@.len() < 8 ==> r == (Err::<Alcov, Error>(Error::Io)),
            data@.len() >= 8 && u64_from_le(data@.subrange(0, 8)) != ALCOV_MAGIC ==> r == (
            Err::<Alcov, Error>(Error::WrongMagic)),
            data@.len() >= 74 && u64_from_le(data@.subrange(0, 8)) == ALCOV_MAGIC && u16_from_le(
                data@.subrange(72, 74),
            ) & !FLAGS_ALL != 0 ==> r == (Err::<Alcov, Error>(
                Error::WrongFlags(u16_from_le(data@.subrange(72, 74))),
            )),
            r matches Ok(a) ==> (a.edges matches Some(e) ==> e.adj_list@.len() == a.blocks@.len()),
    {
        let md = match AlcovHeaderMetadata::read(data) {
            Ok(m) => m,
            Err(e) => {
                proof {
                    assert forall|v: SnapV| !is_wire_image(v, data@) by {
                        if is_wire_image(v, data@) {
                            lemma_wire_shape(v);
                            crate::v0::header::lemma_header_fields(hdr_md_of(v));
                            assert(data@.subrange(0, 8) =~= data@.subrange(0, 74).subrange(0, 8));
                            assert(data@.subrange(72, 74) =~= data@.subrange(0, 74).subrange(
                                72,
                                74,
                            ));
                        }
                    }
                }
                return Err(e);
            },
        };
        proof {
            crate::v0::header::lemma_header_fields(md);
            assert(data@.subrange(0, 8) =~= data@.subrange(0, 74).subrange(0, 8));
            assert(data@.subrange(72, 74) =~= data@.subrange(0, 74).subrange(72, 74));
            assert(data_header_ok(data@));
            assert forall|v: SnapV| #[trigger] is_wire_image(v, data@) implies shaped(
                v,
                data@,
                md,
            ) by {
                lemma_shaped(v, data@, md);
            }
        }
        let n: usize = data.len();
        if md.paths_start < md.modules_start {
            return Err(Error::MalformedBinary);
        }
        let mlen64: u64 = md.paths_start - md.modules_start;
        if mlen64 > (n - 74) as u64 {
            return Err(Error::Io);
        }
        let mlen: usize = mlen64 as usize;
        let modules_buf = take_sub(data, 74, mlen);
        if md.blocks_start < md.paths_start {
            return Err(Error::MalformedBinary);
        }
        let plen64: u64 = md.blocks_start - md.paths_start;
        let pos1: usize = 74 + mlen;
        if plen64 > (n - pos1) as u64 {
            return Err(Error::Io);
        }
        let plen: usize = plen64 as usize;
        let paths_buf = take_sub(data, pos1, plen);
        proof {
            assert forall|v: SnapV| #[trigger] is_wire_image(v, data@) implies (modules_buf@
                == modules_chunk(v) && paths_buf@ == paths_chunk(v)) by {
                assert(shaped(v, data@, md));
                assert(modules_buf@ =~= modules_chunk(v));
                assert(paths_buf@ =~= paths_chunk(v));
            }
        }
        let input_path: Option<Vec<u8>> = if md.flags.has_input_path() {
            match read_path(&paths_buf, 0) {
                Ok(p) => Some(p),
                Err(e) => {
                    proof {
                        assert forall|v: SnapV| !is_wire_image(v, data@) by {
                            if is_wire_image(v, data@) {
                                assert(shaped(v, data@, md));
                                lemma_input_path_at(v);
                            }
                        }
                    }
                    return Err(e);
                },
            }
        } else {
            None
        };
        let hdr = AlcovHeader {
            version_major: md.version_major,
            version_minor: md.version_minor,
            compress: md.flags.has_compress(),
            input_path,
        };
        proof {
            assert forall|v: SnapV| #[trigger] is_wire_image(v, data@) implies hdr@ == v.hdr by {
                assert(shaped(v, data@, md));
                if v.hdr.input_path is Some {
                    lemma_input_path_at(v);
                }
                assert(hdr@ =~= v.hdr);
            }
        }
        let pos2: usize = pos1 + plen;
        let has_ed = md.flags.has_edges();
        let compressed = md.flags.has_compress();
        let (raw_blocks, blocks_end): (Vec<u8>, usize) = if has_ed {
            if md.edges_start < md.blocks_start {
                return Err(Error::MalformedBinary);
            }
            let blen64: u64 = md.edges_start - md.blocks_start;
            if blen64 > (n - pos2) as u64 {
                return Err(Error::Io);
            }
            let blen: usize = blen64 as usize;
            (take_sub(data, pos2, blen), pos2 + blen)
        } else {
            (take_sub(data, pos2, n - pos2), n)
        };
        proof {
            assert forall|v: SnapV| #[trigger] is_wire_image(v, data@) implies (raw_blocks@
                == blocks_section(v) && (has_ed == has_edges(v)) && (compressed == v.hdr.compress)
                && (has_edges(v) ==> blocks_end == spec_edges_start(v)) && blocks_end <= n) by {
                assert(shaped(v, data@, md));
                assert(raw_blocks@ =~= blocks_section(v));
            }
        }
        let blocks_buf: Vec<u8> = if compressed {
            match lzma2_decompress_bytes(&raw_blocks) {
                Ok(b) => b,
                Err(e) => {
                    proof {
                        assert forall|v: SnapV| !is_wire_image(v, data@) by {
                            if is_wire_image(v, data@) {
                                assert(raw_blocks@ == lzma2_of(blocks_chunk(v)));
                            }
                        }
                    }
                    return Err(e);
                },
            }
        } else {
            raw_blocks
        };
        proof {
            assert forall|v: SnapV| #[trigger] is_wire_image(v, data@) implies blocks_buf@
                == blocks_chunk(v) by {
                if v.hdr.compress {
                    assert(raw_blocks@ == lzma2_of(blocks_chunk(v)));
                }
            }
        }
        let modules = match read_modules(
            &modules_buf,
            &paths_buf,
            md.nb_modules,
            Ghost(data@),
            Ghost(md),
        ) {
            Ok(ms) => ms,
            Err(e) => {
                return Err(e);
            },
        };
        if has_ed {
            let raw_edges = take_sub(data, blocks_end, n - blocks_end);
            proof {
                assert forall|v: SnapV| #[trigger] is_wire_image(v, data@) implies raw_edges@
                    == edges_section(v) by {
                    assert(shaped(v, data@, md));
                    assert(raw_edges@ =~= edges_section(v));
                }
            }
            let edges_chunk_buf: Vec<u8> = if compressed {
                match lzma2_decompress_bytes(&raw_edges) {
                    Ok(b) => b,
                    Err(e) => {
                        proof {
                            assert forall|v: SnapV| !is_wire_image(v, data@) by {
                                if is_wire_image(v, data@) {
                                    assert(raw_edges@ == lzma2_of(edges_chunk(v)));
                                }
                            }
                        }
                        return Err(e);
                    },
                }
            } else {
                raw_edges
            };
            proof {
                assert forall|v: SnapV| #[trigger] is_wire_image(v, data@) implies (edges_chunk_buf@
                    == edges_chunk(v) && adjs(v).len() == v.blocks.len()) by {
                    if v.hdr.compress {
                        assert(raw_edges@ == lzma2_of(edges_chunk(v)));
                    }
                }
            }
            let (blocks, adj_list) = match read_blocks_edges(
                &blocks_buf,
                &edges_chunk_buf,
                md.nb_blocks,
                Ghost(data@),
                Ghost(md),
            ) {
                Ok(t) => t,
                Err(e) => {
                    return Err(e);
                },
            };
            let res = Alcov { hdr, modules, blocks, edges: Some(AlcovEdges { adj_list }) };
            proof {
                assert forall|v: SnapV| #[trigger] is_wire_image(v, data@) implies res@ == v by {
                    assert(res@.modules =~= v.modules);
                    assert(res@ =~~= v);
                }
            }
            Ok(res)
        } else {
            let blocks = match read_blocks_plain(
                &blocks_buf,
                md.nb_blocks,
                Ghost(data@),
                Ghost(md),
            ) {
                Ok(bs) => bs,
                Err(e) => {
                    return Err(e);
                },
            };
            let res = Alcov { hdr, modules, blocks, edges: None };
            proof {
                assert forall|v: SnapV| #[trigger] is_wire_image(v, data@) implies res@ == v by {
                    assert(res@.modules =~= v.modules);
                    assert(res@ =~~= v);
                }
            }
            Ok(res)
        }
    }
}

} // verus!
