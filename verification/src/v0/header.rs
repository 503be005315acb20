//! The fixed-size header that opens every container.
use vstd::prelude::*;
use crate::v0::bytes::{
    lemma_le_bytes_complete_u16, lemma_le_bytes_complete_u32, lemma_le_bytes_complete_u64,
    u16_from_le, u16_le_bytes, u32_from_le, u32_le_bytes, u64_from_le, u64_le_bytes,
    lemma_u16_le_inverse, lemma_u32_le_inverse, lemma_u64_le_inverse, push_u16_le, push_u32_le,
    push_u64_le, read_u16_le, read_u32_le, read_u64_le,
};
use crate::v0::error::Error;

verus! {

/// The eight magic bytes `ALCOVFMT`, read as a little-endian 64-bit value.
pub const ALCOV_MAGIC: u64 = 0x544d_4656_4f43_4c41;

/// The format major version this codec speaks.
pub const ALCOV_VERSION_MAJOR: u64 = 0;

/// The format minor version this codec emits; informational only.
pub const ALCOV_VERSION_MINOR: u64 = 1;

/// Flag bit: the container carries an edges section.
pub const FLAG_EDGES: u16 = 1;

/// Flag bit: the blocks and edges sections are LZMA2-compressed.
pub const FLAG_COMPRESS: u16 = 2;

/// Flag bit: the paths chunk begins with the input path.
pub const FLAG_INPUT_PATH: u16 = 4;

/// Every recognized flag bit.
pub const FLAGS_ALL: u16 = 7;

/// The wire size of the header; also the modules section's start offset.
pub const HEADER_SIZE: usize = 74;

/// The header's flags word.
#[derive(Debug, Clone, Copy, PartialEq, Eq, Structural)]
pub struct AlcovFlags {
    pub bits: u16,
}

impl AlcovFlags {
    /// True when no bit outside the recognized set is present.
    pub open spec fn spec_recognized(self) -> bool {
        self.bits & !FLAGS_ALL == 0
    }

    /// The flags word with no bit set.
    pub fn empty() -> (r: AlcovFlags)
        ensures
            r.bits == 0,
    {
        AlcovFlags { bits: 0 }
    }

    /// Accepts a raw word only when every bit is recognized.
    pub fn from_bits(bits: u16) -> (r: Option<AlcovFlags>)
        ensures
            bits & !FLAGS_ALL == 0 ==> r == Some(AlcovFlags { bits }),
            bits & !FLAGS_ALL != 0 ==> r is None,
    {
        if bits & !FLAGS_ALL == 0 {
            Some(AlcovFlags { bits })
        } else {
            None
        }
    }

    /// True when the edges bit is set.
    pub fn has_edges(&self) -> (r: bool)
        ensures
            r == (self.bits & FLAG_EDGES != 0),
    {
        self.bits & FLAG_EDGES != 0
    }

    /// True when the compression bit is set.
    pub fn has_compress(&self) -> (r: bool)
        ensures
            r == (self.bits & FLAG_COMPRESS != 0),
    {
        self.bits & FLAG_COMPRESS != 0
    }

    /// True when the input-path bit is set.
    pub fn has_input_path(&self) -> (r: bool)
        ensures
            r == (self.bits & FLAG_INPUT_PATH != 0),
    {
        self.bits & FLAG_INPUT_PATH != 0
    }
}

/// The header exactly as it stands on the wire, magic aside.
#[derive(Debug, Clone, Copy, PartialEq, Eq, Structural)]
pub struct AlcovHeaderMetadata {
    pub version_major: u64,
    pub version_minor: u64,
    pub nb_modules: u32,
    pub nb_blocks: u32,
    pub nb_edges: u64,
    pub modules_start: u64,
    pub paths_start: u64,
    pub blocks_start: u64,
    pub edges_start: u64,
    pub flags: AlcovFlags,
}

/// The ghost shape of the in-memory header.
#[verifier::ext_equal]
pub ghost struct HeaderV {
    pub version_major: u64,
    pub version_minor: u64,
    pub compress: bool,
    pub input_path: Option<Seq<u8>>,
}

/// The in-memory header of a snapshot.
#[derive(Debug, Clone, PartialEq, Eq)]
pub struct AlcovHeader {
    pub version_major: u64,
    pub version_minor: u64,
    pub compress: bool,
    pub input_path: Option<Vec<u8>>,
}

impl View for AlcovHeader {
    type V = HeaderV;

    open spec fn view(&self) -> HeaderV {
        HeaderV {
            version_major: self.version_major,
            version_minor: self.version_minor,
            compress: self.compress,
            input_path: match self.input_path {
                Some(p) => Some(p@),
                None => None,
            },
        }
    }
}

impl AlcovHeader {
    /// A header at the codec's own version.
    pub fn new(input_path: Option<Vec<u8>>, compress: bool) -> (r: AlcovHeader)
        ensures
            r.version_major == ALCOV_VERSION_MAJOR,
            r.version_minor == ALCOV_VERSION_MINOR,
            r.compress == compress,
            r.input_path == input_path,
    {
        AlcovHeader { version_major: ALCOV_VERSION_MAJOR, version_minor: ALCOV_VERSION_MINOR, compress, input_path }
    }
}

/// The 74 header bytes that `md` stands for.
pub open spec fn header_bytes(md: AlcovHeaderMetadata) -> Seq<u8> {
    u64_le_bytes(ALCOV_MAGIC) + u64_le_bytes(md.version_major) + u64_le_bytes(md.version_minor)
        + u32_le_bytes(md.nb_modules) + u32_le_bytes(md.nb_blocks) + u64_le_bytes(md.nb_edges)
        + u64_le_bytes(md.modules_start) + u64_le_bytes(md.paths_start)
        + u64_le_bytes(md.blocks_start) + u64_le_bytes(md.edges_start)
        + u16_le_bytes(md.flags.bits)
}

/// Two headers with the same bytes are equal.
pub proof fn lemma_header_bytes_injective(a: AlcovHeaderMetadata, b: AlcovHeaderMetadata)
    requires
        header_bytes(a) == header_bytes(b),
    ensures
        a == b,
{
    lemma_header_fields(a);
    lemma_header_fields(b);
}

/// Each field of the header can be read back from its slice of the bytes.
pub proof fn lemma_header_fields(md: AlcovHeaderMetadata)
    ensures
        header_bytes(md).len() == 74,
        u64_from_le(header_bytes(md).subrange(0, 8)) == ALCOV_MAGIC,
        u64_from_le(header_bytes(md).subrange(8, 16)) == md.version_major,
        u64_from_le(header_bytes(md).subrange(16, 24)) == md.version_minor,
        u32_from_le(header_bytes(md).subrange(24, 28)) == md.nb_modules,
        u32_from_le(header_bytes(md).subrange(28, 32)) == md.nb_blocks,
        u64_from_le(header_bytes(md).subrange(32, 40)) == md.nb_edges,
        u64_from_le(header_bytes(md).subrange(40, 48)) == md.modules_start,
        u64_from_le(header_bytes(md).subrange(48, 56)) == md.paths_start,
        u64_from_le(header_bytes(md).subrange(56, 64)) == md.blocks_start,
        u64_from_le(header_bytes(md).subrange(64, 72)) == md.edges_start,
        u16_from_le(header_bytes(md).subrange(72, 74)) == md.flags.bits,
{
    let h = header_bytes(md);
    assert(h.subrange(0, 8) =~= u64_le_bytes(ALCOV_MAGIC));
    assert(h.subrange(8, 16) =~= u64_le_bytes(md.version_major));
    assert(h.subrange(16, 24) =~= u64_le_bytes(md.version_minor));
    assert(h.subrange(24, 28) =~= u32_le_bytes(md.nb_modules));
    assert(h.subrange(28, 32) =~= u32_le_bytes(md.nb_blocks));
    assert(h.subrange(32, 40) =~= u64_le_bytes(md.nb_edges));
    assert(h.subrange(40, 48) =~= u64_le_bytes(md.modules_start));
    assert(h.subrange(48, 56) =~= u64_le_bytes(md.paths_start));
    assert(h.subrange(56, 64) =~= u64_le_bytes(md.blocks_start));
    assert(h.subrange(64, 72) =~= u64_le_bytes(md.edges_start));
    assert(h.subrange(72, 74) =~= u16_le_bytes(md.flags.bits));
    lemma_u64_le_inverse(ALCOV_MAGIC);
    lemma_u64_le_inverse(md.version_major);
    lemma_u64_le_inverse(md.version_minor);
    lemma_u32_le_inverse(md.nb_modules);
    lemma_u32_le_inverse(md.nb_blocks);
    lemma_u64_le_inverse(md.nb_edges);
    lemma_u64_le_inverse(md.modules_start);
    lemma_u64_le_inverse(md.paths_start);
    lemma_u64_le_inverse(md.blocks_start);
    lemma_u64_le_inverse(md.edges_start);
    lemma_u16_le_inverse(md.flags.bits);
}

impl AlcovHeaderMetadata {
    /// Appends the header's wire form.
    pub fn write(&self, buf: &mut Vec<u8>)
        ensures
            final(buf)@ == old(buf)@ + header_bytes(*self),
    {
        push_u64_le(buf, ALCOV_MAGIC);
        push_u64_le(buf, self.version_major);
        push_u64_le(buf, self.version_minor);
        push_u32_le(buf, self.nb_modules);
        push_u32_le(buf, self.nb_blocks);
        push_u64_le(buf, self.nb_edges);
        push_u64_le(buf, self.modules_start);
        push_u64_le(buf, self.paths_start);
        push_u64_le(buf, self.blocks_start);
        push_u64_le(buf, self.edges_start);
        push_u16_le(buf, self.flags.bits);
        assert(buf@ =~= old(buf)@ + header_bytes(*self));
    }

    /// Parses the header at the front of `buf`, checking magic and flags.
    pub fn read(buf: &Vec<u8>) -> (r: Result<AlcovHeaderMetadata, Error>)
        ensures
            r matches Ok(md) ==> {
                &&& buf@.len() >= 74
                &&& header_bytes(md) == buf@.subrange(0, 74)
                &&& md.flags.spec_recognized()
            },
            buf@.len() < 8 ==> r == (Err::<AlcovHeaderMetadata, Error>(Error::Io)),
            buf@.len() >= 8 && u64_from_le(buf@.subrange(0, 8)) != ALCOV_MAGIC ==> r == (
            Err::<AlcovHeaderMetadata, Error>(Error::WrongMagic)),
            8 <= buf@.len() < 74 && u64_from_le(buf@.subrange(0, 8)) == ALCOV_MAGIC ==> r == (
            Err::<AlcovHeaderMetadata, Error>(Error::Io)),
            buf@.len() >= 74 && u64_from_le(buf@.subrange(0, 8)) == ALCOV_MAGIC && u16_from_le(
                buf@.subrange(72, 74),
            ) & !FLAGS_ALL != 0 ==> r == (Err::<AlcovHeaderMetadata, Error>(
                Error::WrongFlags(u16_from_le(buf@.subrange(72, 74))),
            )),
            buf@.len() >= 74 && u64_from_le(buf@.subrange(0, 8)) == ALCOV_MAGIC && u16_from_le(
                buf@.subrange(72, 74),
            ) & !FLAGS_ALL == 0 ==> r is Ok,
    {
        let n: usize = buf.len();
        if n < 8 {
            return Err(Error::Io);
        }
        let magic = read_u64_le(buf, 0);
        if magic != ALCOV_MAGIC {
            return Err(Error::WrongMagic);
        }
        if n < 74 {
            return Err(Error::Io);
        }
        let version_major = read_u64_le(buf, 8);
        let version_minor = read_u64_le(buf, 16);
        let nb_modules = read_u32_le(buf, 24);
        let nb_blocks = read_u32_le(buf, 28);
        let nb_edges = read_u64_le(buf, 32);
        let modules_start = read_u64_le(buf, 40);
        let paths_start = read_u64_le(buf, 48);
        let blocks_start = read_u64_le(buf, 56);
        let edges_start = read_u64_le(buf, 64);
        let flags_int = read_u16_le(buf, 72);
        let flags = match AlcovFlags::from_bits(flags_int) {
            Some(f) => f,
            None => {
                return Err(Error::WrongFlags(flags_int));
            },
        };
        let md = AlcovHeaderMetadata {
            version_major,
            version_minor,
            nb_modules,
            nb_blocks,
            nb_edges,
            modules_start,
            paths_start,
            blocks_start,
            edges_start,
            flags,
        };
        proof {
            lemma_header_fields(md);
            assert(header_bytes(md) =~= buf@.subrange(0, 74)) by {
                lemma_header_bytes_agree(md, buf@);
            }
        }
        Ok(md)
    }
}

/// If every field of `md` decodes from its slice of `data`, the header bytes
/// of `md` are exactly the first 74 bytes of `data`.
proof fn lemma_header_bytes_agree(md: AlcovHeaderMetadata, data: Seq<u8>)
    requires
        data.len() >= 74,
        md.version_major == u64_from_le(data.subrange(8, 16)),
        md.version_minor == u64_from_le(data.subrange(16, 24)),
        md.nb_modules == u32_from_le(data.subrange(24, 28)),
        md.nb_blocks == u32_from_le(data.subrange(28, 32)),
        md.nb_edges == u64_from_le(data.subrange(32, 40)),
        md.modules_start == u64_from_le(data.subrange(40, 48)),
        md.paths_start == u64_from_le(data.subrange(48, 56)),
        md.blocks_start == u64_from_le(data.subrange(56, 64)),
        md.edges_start == u64_from_le(data.subrange(64, 72)),
        md.flags.bits == u16_from_le(data.subrange(72, 74)),
        u64_from_le(data.subrange(0, 8)) == ALCOV_MAGIC,
    ensures
        header_bytes(md) == data.subrange(0, 74),
{
    lemma_le_bytes_complete_u64(data.subrange(0, 8));
    lemma_le_bytes_complete_u64(data.subrange(8, 16));
    lemma_le_bytes_complete_u64(data.subrange(16, 24));
    lemma_le_bytes_complete_u32(data.subrange(24, 28));
    lemma_le_bytes_complete_u32(data.subrange(28, 32));
    lemma_le_bytes_complete_u64(data.subrange(32, 40));
    lemma_le_bytes_complete_u64(data.subrange(40, 48));
    lemma_le_bytes_complete_u64(data.subrange(48, 56));
    lemma_le_bytes_complete_u64(data.subrange(56, 64));
    lemma_le_bytes_complete_u64(data.subrange(64, 72));
    lemma_le_bytes_complete_u16(data.subrange(72, 74));
    assert(header_bytes(md) =~= data.subrange(0, 74));
}

} // verus!
