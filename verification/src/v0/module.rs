//! Modules and their segments: the variable-length records of the format.
use vstd::prelude::*;
use crate::v0::bytes::{
    lemma_le_bytes_complete_u64, lemma_u64_le_inverse, push_u64_le, read_u64_le, u64_from_le,
    u64_le_bytes,
};
use crate::v0::chunks::{lemma_flatten_index_fixed, lemma_flatten_take_all, lemma_flatten_take_succ};
use crate::v0::error::Error;

verus! {

/// The wire value of `path_offset` for a module without a path (-1 as i64).
pub const PATH_OFFSET_NONE: u64 = 0xffff_ffff_ffff_ffff;

/// The first `path_offset` value the reader treats as "no path": on the wire
/// the field is a signed 64-bit offset, negative when absent.
pub const PATH_OFFSET_LIMIT: u64 = 0x8000_0000_0000_0000;

/// A contiguous address range inside a loaded module.
#[derive(Debug, Clone, Copy, PartialEq, Eq, Structural)]
pub struct AlcovSegment {
    pub start: u64,
    pub end: u64,
}

impl AlcovSegment {
    /// A half-open range: the end never precedes the start.
    pub open spec fn wf(self) -> bool {
        self.start <= self.end
    }

    /// The range's byte count as stored on the wire.
    pub open spec fn spec_size(self) -> u64 {
        if self.start <= self.end {
            (self.end - self.start) as u64
        } else {
            0
        }
    }

    /// A segment covering `[start, end)`.
    pub fn new(start: u64, end: u64) -> (r: AlcovSegment)
        requires
            start <= end,
        ensures
            r.start == start,
            r.end == end,
    {
        AlcovSegment { start, end }
    }

    /// Appends the segment's wire form: start, then size.
    pub fn write(&self, buf: &mut Vec<u8>)
        ensures
            final(buf)@ == old(buf)@ + segment_bytes(*self),
    {
        let size: u64 = if self.end >= self.start {
            self.end - self.start
        } else {
            0
        };
        push_u64_le(buf, self.start);
        push_u64_le(buf, size);
        assert(buf@ =~= old(buf)@ + segment_bytes(*self));
    }

    /// Parses the segment record at `pos`.
    pub fn read(buf: &Vec<u8>, pos: usize) -> (r: Result<(AlcovSegment, usize), Error>)
        ensures
            r matches Ok(p) ==> {
                &&& pos + 16 <= buf@.len()
                &&& p.1 == pos + 16
                &&& p.0.wf()
                &&& segment_bytes(p.0) == buf@.subrange(pos as int, pos + 16)
            },
            r is Ok <==> pos + 16 <= buf@.len() && u64_from_le(
                buf@.subrange(pos as int, pos + 8),
            ) + u64_from_le(buf@.subrange(pos + 8, pos + 16)) <= u64::MAX,
            pos + 16 > buf@.len() ==> r == (Err::<(AlcovSegment, usize), Error>(Error::Io)),
            r is Err && pos + 16 <= buf@.len() ==> r == (Err::<(AlcovSegment, usize), Error>(
                Error::MalformedBinary,
            )),
    {
        let n: usize = buf.len();
        if n < 16 || pos > n - 16 {
            return Err(Error::Io);
        }
        let start = read_u64_le(buf, pos);
        let size = read_u64_le(buf, pos + 8);
        if size > u64::MAX - start {
            return Err(Error::MalformedBinary);
        }
        let seg = AlcovSegment { start, end: start + size };
        proof {
            lemma_le_bytes_complete_u64(buf@.subrange(pos as int, pos + 8));
            lemma_le_bytes_complete_u64(buf@.subrange(pos + 8, pos + 16));
            assert(segment_bytes(seg) =~= buf@.subrange(pos as int, pos + 16));
        }
        Ok((seg, pos + 16))
    }
}

/// The sixteen bytes of a segment record.
pub open spec fn segment_bytes(s: AlcovSegment) -> Seq<u8> {
    u64_le_bytes(s.start) + u64_le_bytes(s.spec_size())
}

/// Two well-formed segments with the same bytes are equal.
pub proof fn lemma_segment_bytes_injective(a: AlcovSegment, b: AlcovSegment)
    requires
        a.wf(),
        b.wf(),
        segment_bytes(a) == segment_bytes(b),
    ensures
        a == b,
{
    assert(segment_bytes(a).subrange(0, 8) =~= u64_le_bytes(a.start));
    assert(segment_bytes(a).subrange(8, 16) =~= u64_le_bytes(a.spec_size()));
    assert(segment_bytes(b).subrange(0, 8) =~= u64_le_bytes(b.start));
    assert(segment_bytes(b).subrange(8, 16) =~= u64_le_bytes(b.spec_size()));
    lemma_u64_le_inverse(a.start);
    lemma_u64_le_inverse(b.start);
    lemma_u64_le_inverse(a.spec_size());
    lemma_u64_le_inverse(b.spec_size());
}

/// The concatenated wire form of a run of segments.
pub open spec fn segs_bytes(ss: Seq<AlcovSegment>) -> Seq<u8> {
    Seq::new(ss.len(), |i: int| segment_bytes(ss[i])).flatten()
}

/// A byte a stored path may hold: printable ASCII, never NUL.
pub open spec fn valid_path_byte(b: u8) -> bool {
    0 < b < 0x80
}

/// A path the writer accepts: ASCII bytes with no NUL among them.
pub open spec fn valid_path(p: Seq<u8>) -> bool {
    forall|i: int| 0 <= i < p.len() ==> valid_path_byte(#[trigger] p[i])
}

/// What a path contributes to the paths chunk: its bytes and a NUL, or nothing.
pub open spec fn path_entry(p: Option<Seq<u8>>) -> Seq<u8> {
    match p {
        Some(q) => q + seq![0u8],
        None => Seq::empty(),
    }
}

/// The path stored at `off` in a paths chunk: the bytes up to the first NUL,
/// or nothing when no NUL follows.
pub open spec fn path_at(c: Seq<u8>, off: int) -> Option<Seq<u8>>
    decreases c.len() - off,
{
    if off < 0 || off >= c.len() {
        None
    } else if c[off] == 0 {
        Some(Seq::empty())
    } else {
        match path_at(c, off + 1) {
            Some(rest) => Some(seq![c[off]] + rest),
            None => None,
        }
    }
}

/// A NUL-terminated run of nonzero bytes reads back exactly.
pub proof fn lemma_path_at_entry(c: Seq<u8>, off: int, p: Seq<u8>)
    requires
        0 <= off,
        off + p.len() + 1 <= c.len(),
        c.subrange(off, off + p.len() + 1) == p + seq![0u8],
        forall|i: int| 0 <= i < p.len() ==> #[trigger] p[i] != 0,
    ensures
        path_at(c, off) == Some(p),
    decreases p.len(),
{
    assert(c[off] == (p + seq![0u8])[0]);
    if p.len() == 0 {
        assert(c[off] == 0);
        assert(path_at(c, off) == Some(Seq::<u8>::empty()));
        assert(Seq::<u8>::empty() =~= p);
    } else {
        assert(c[off] == p[0]);
        assert(p[0] != 0);
        let rest = p.drop_first();
        assert forall|i: int| 0 <= i < rest.len() + 1 implies c.subrange(
            off + 1,
            off + rest.len() + 2,
        )[i] == (rest + seq![0u8])[i] by {
            assert(c.subrange(off, off + p.len() + 1)[1 + i] == c[off + 1 + i]);
            assert((p + seq![0u8])[1 + i] == (rest + seq![0u8])[i]);
        }
        assert(c.subrange(off + 1, off + rest.len() + 1 + 1) =~= rest + seq![0u8]);
        assert(forall|i: int| 0 <= i < rest.len() ==> #[trigger] rest[i] != 0);
        lemma_path_at_entry(c, off + 1, rest);
        assert(seq![c[off]] + rest =~= p);
    }
}

/// With no NUL ahead, no path can be read.
pub proof fn lemma_path_at_none(c: Seq<u8>, off: int)
    requires
        0 <= off <= c.len(),
        forall|i: int| off <= i < c.len() ==> #[trigger] c[i] != 0,
    ensures
        path_at(c, off) is None,
    decreases c.len() - off,
{
    if off < c.len() {
        lemma_path_at_none(c, off + 1);
    }
}

/// Reads the NUL-terminated path starting at `off`, without the NUL.
pub fn read_path(paths: &Vec<u8>, off: usize) -> (r: Result<Vec<u8>, Error>)
    ensures
        r matches Ok(p) ==> path_at(paths@, off as int) == Some(p@),
        r is Err ==> r == (Err::<Vec<u8>, Error>(Error::PathReadError)) && path_at(
            paths@,
            off as int,
        ) is None,
{
    let n: usize = paths.len();
    if off > n {
        proof {
            assert(path_at(paths@, off as int) is None);
        }
        return Err(Error::PathReadError);
    }
    let mut acc: Vec<u8> = Vec::new();
    let mut k: usize = off;
    while k < n
        invariant
            off <= k <= n,
            n == paths@.len(),
            acc@ == paths@.subrange(off as int, k as int),
            forall|i: int| off <= i < k ==> #[trigger] paths@[i] != 0,
        decreases n - k,
    {
        let b = paths[k];
        if b == 0 {
            proof {
                assert(paths@.subrange(off as int, k + 1) =~= acc@ + seq![0u8]);
                lemma_path_at_entry(paths@, off as int, acc@);
            }
            return Ok(acc);
        }
        acc.push(b);
        proof {
            assert(acc@ =~= paths@.subrange(off as int, k + 1));
        }
        k = k + 1;
    }
    proof {
        lemma_path_at_none(paths@, off as int);
    }
    Err(Error::PathReadError)
}

/// The ghost shape of a module.
#[verifier::ext_equal]
pub ghost struct ModuleV {
    pub base_address: u64,
    pub path: Option<Seq<u8>>,
    pub segments: Seq<AlcovSegment>,
}

/// A loaded binary image: base address, optional path, segments.
#[derive(Debug, Clone, PartialEq, Eq)]
pub struct AlcovModule {
    pub base_address: u64,
    pub path: Option<Vec<u8>>,
    pub segments: Vec<AlcovSegment>,
}

impl View for AlcovModule {
    type V = ModuleV;

    open spec fn view(&self) -> ModuleV {
        ModuleV {
            base_address: self.base_address,
            path: match self.path {
                Some(p) => Some(p@),
                None => None,
            },
            segments: self.segments@,
        }
    }
}

/// A module's record can hold its segments and they are all well formed.
pub open spec fn module_wf(m: ModuleV) -> bool {
    &&& 1 <= m.segments.len() <= 255
    &&& forall|i: int| 0 <= i < m.segments.len() ==> (#[trigger] m.segments[i]).wf()
}

/// The record's byte count: a 17-byte head, then 16 bytes per segment.
pub open spec fn module_record_len(m: ModuleV) -> int {
    17 + 16 * (m.segments.len() as int)
}

/// The wire form of one module record, with the path offset it carries.
pub open spec fn module_record_bytes(m: ModuleV, path_off: u64) -> Seq<u8>
    recommends
        m.segments.len() <= 255,
{
    u64_le_bytes(m.base_address) + u64_le_bytes(path_off) + seq![m.segments.len() as u8]
        + segs_bytes(m.segments)
}

/// How a module record relates to the bytes it was parsed from: its bytes
/// stand at `pos` and its path offset resolves in the paths chunk.
pub open spec fn module_parses_at(
    m: ModuleV,
    path_off: u64,
    data: Seq<u8>,
    pos: int,
    paths: Seq<u8>,
) -> bool {
    &&& module_wf(m)
    &&& 0 <= pos
    &&& pos + module_record_len(m) <= data.len()
    &&& data.subrange(pos, pos + module_record_len(m)) == module_record_bytes(m, path_off)
    &&& match m.path {
        Some(p) => path_off < PATH_OFFSET_LIMIT && path_at(paths, path_off as int) == Some(p),
        None => path_off >= PATH_OFFSET_LIMIT,
    }
}

/// The head fields of a record can be read back from its bytes.
pub proof fn lemma_module_record_fields(m: ModuleV, path_off: u64)
    requires
        m.segments.len() <= 255,
    ensures
        module_record_bytes(m, path_off).len() == module_record_len(m),
        u64_from_le(module_record_bytes(m, path_off).subrange(0, 8)) == m.base_address,
        u64_from_le(module_record_bytes(m, path_off).subrange(8, 16)) == path_off,
        module_record_bytes(m, path_off)[16] == m.segments.len() as u8,
        forall|j: int|
            0 <= j < m.segments.len() ==> module_record_bytes(m, path_off).subrange(
                17 + 16 * j,
                17 + 16 * j + 16,
            ) == segment_bytes(#[trigger] m.segments[j]),
{
    let r = module_record_bytes(m, path_off);
    let recs = Seq::new(m.segments.len(), |i: int| segment_bytes(m.segments[i]));
    assert(forall|k: int| 0 <= k < recs.len() ==> (#[trigger] recs[k]).len() == 16);
    if m.segments.len() > 0 {
        lemma_flatten_index_fixed(recs, 16, 0);
    } else {
        assert(recs.flatten() =~= Seq::<u8>::empty());
    }
    assert(r.subrange(0, 8) =~= u64_le_bytes(m.base_address));
    assert(r.subrange(8, 16) =~= u64_le_bytes(path_off));
    lemma_u64_le_inverse(m.base_address);
    lemma_u64_le_inverse(path_off);
    assert forall|j: int| 0 <= j < m.segments.len() implies r.subrange(
        17 + 16 * j,
        17 + 16 * j + 16,
    ) == segment_bytes(m.segments[j]) by {
        lemma_flatten_index_fixed(recs, 16, j);
        assert(r.subrange(17 + 16 * j, 17 + 16 * j + 16) =~= recs.flatten().subrange(
            16 * j,
            16 * j + 16,
        ));
    }
}

impl AlcovModule {
    /// A module must own at least one segment.
    pub fn new(base_address: u64, path: Option<Vec<u8>>, segments: Vec<AlcovSegment>) -> (r:
        Result<AlcovModule, Error>)
        ensures
            segments@.len() == 0 ==> r == (Err::<AlcovModule, Error>(Error::EmptyModule)),
            segments@.len() != 0 ==> (r matches Ok(m) && m.base_address == base_address
                && m@.path == path_view(path) && m.segments@ == segments@),
    {
        if segments.len() == 0 {
            return Err(Error::EmptyModule);
        }
        Ok(AlcovModule { base_address, path, segments })
    }

    /// Appends the module's record, carrying the given path offset.
    pub fn write(&self, buf: &mut Vec<u8>, path_offset: u64) -> (r: Result<(), Error>)
        ensures
            self.segments@.len() > 255 ==> r == (Err::<(), Error>(Error::SizeError))
                && final(buf)@ == old(buf)@,
            self.segments@.len() <= 255 ==> r is Ok && final(buf)@ == old(buf)@
                + module_record_bytes(self@, path_offset),
    {
        let nseg = self.segments.len();
        if nseg > 255 {
            return Err(Error::SizeError);
        }
        push_u64_le(buf, self.base_address);
        push_u64_le(buf, path_offset);
        buf.push(nseg as u8);
        let ghost head = old(buf)@ + u64_le_bytes(self.base_address) + u64_le_bytes(path_offset)
            + seq![self.segments@.len() as u8];
        let ghost recs = Seq::new(
            self.segments@.len(),
            |i: int| segment_bytes(self.segments@[i]),
        );
        assert(buf@ =~= head + recs.take(0).flatten());
        let mut i: usize = 0;
        while i < nseg
            invariant
                i <= nseg,
                nseg == self.segments@.len(),
                recs == Seq::new(self.segments@.len(), |k: int| segment_bytes(self.segments@[k])),
                head == old(buf)@ + u64_le_bytes(self.base_address) + u64_le_bytes(path_offset)
                    + seq![self.segments@.len() as u8],
                buf@ == head + recs.take(i as int).flatten(),
            decreases nseg - i,
        {
            self.segments[i].write(buf);
            proof {
                lemma_flatten_take_succ(recs, i as int);
                assert(buf@ =~= head + recs.take(i + 1).flatten());
            }
            i = i + 1;
        }
        proof {
            lemma_flatten_take_all(recs);
            assert(buf@ =~= old(buf)@ + module_record_bytes(self@, path_offset));
        }
        Ok(())
    }

    /// Parses the module record at `pos`, resolving its path in `paths`.
    #[verifier::rlimit(100)]
    pub fn read(buf: &Vec<u8>, pos: usize, paths: &Vec<u8>) -> (r: Result<
        (AlcovModule, usize),
        Error,
    >)
        ensures
            r matches Ok(p) ==> {
                &&& module_wf(p.0@)
                &&& p.1 == pos + module_record_len(p.0@)
                &&& p.1 <= buf@.len()
                &&& exists|po: u64| module_parses_at(p.0@, po, buf@, pos as int, paths@)
            },
            forall|m: ModuleV, po: u64|
                module_parses_at(m, po, buf@, pos as int, paths@) ==> (r matches Ok(p) && p.0@
                    == m && p.1 == pos + module_record_len(m)),
    {
        let n: usize = buf.len();
        let pn: usize = paths.len();
        if n < 17 || pos > n - 17 {
            proof {
                assert forall|m: ModuleV, po: u64|
                    !module_parses_at(m, po, buf@, pos as int, paths@) by {
                    if module_parses_at(m, po, buf@, pos as int, paths@) {
                        assert(module_record_len(m) >= 33);
                    }
                }
            }
            return Err(Error::Io);
        }
        let base_address = read_u64_le(buf, pos);
        let path_off = read_u64_le(buf, pos + 8);
        let nseg = buf[pos + 16];
        proof {
            assert forall|m: ModuleV, po: u64|
                #[trigger] module_parses_at(m, po, buf@, pos as int, paths@) implies m.segments.len()
                == nseg as int && po == path_off && m.base_address == base_address by {
                lemma_module_record_fields(m, po);
                let rec = buf@.subrange(pos as int, pos + module_record_len(m));
                assert(rec[16] == buf@[pos + 16]);
                assert(rec.subrange(0, 8) =~= buf@.subrange(pos as int, pos + 8));
                assert(rec.subrange(8, 16) =~= buf@.subrange(pos + 8, pos + 16));
            }
        }
        if nseg == 0 {
            return Err(Error::EmptyModule);
        }
        let mut segments: Vec<AlcovSegment> = Vec::new();
        let mut cur: usize = pos + 17;
        let mut j: usize = 0;
        proof {
            assert(Seq::new(segments@.len(), |k: int| segment_bytes(segments@[k])).flatten()
                =~= buf@.subrange(pos + 17, cur as int));
        }
        while j < nseg as usize
            invariant
                j <= nseg as usize,
                nseg > 0,
                pos + 17 <= buf@.len(),
                cur == pos + 17 + 16 * j,
                cur <= buf@.len(),
                segments@.len() == j,
                forall|k: int| 0 <= k < j ==> (#[trigger] segments@[k]).wf(),
                Seq::new(segments@.len(), |k: int| segment_bytes(segments@[k])).flatten()
                    == buf@.subrange(pos + 17, cur as int),
                forall|m: ModuleV, po: u64|
                    #[trigger] module_parses_at(m, po, buf@, pos as int, paths@)
                        ==> m.segments.len() == nseg as int && segments@ == m.segments.take(
                        j as int,
                    ),
            decreases nseg as usize - j,
        {
            let ghost recs_old = Seq::new(segments@.len(), |k: int| segment_bytes(segments@[k]));
            let seg_r = AlcovSegment::read(buf, cur);
            match seg_r {
                Ok((seg, newpos)) => {
                    segments.push(seg);
                    proof {
                        let recs_new = Seq::new(
                            segments@.len(),
                            |k: int| segment_bytes(segments@[k]),
                        );
                        assert(recs_new =~= recs_old.push(segment_bytes(seg)));
                        recs_old.lemma_flatten_push(segment_bytes(seg));
                        assert(recs_new.flatten() =~= buf@.subrange(pos + 17, newpos as int));
                        assert forall|m: ModuleV, po: u64|
                            #[trigger] module_parses_at(m, po, buf@, pos as int, paths@) implies
                            segments@ == m.segments.take(j + 1) by {
                            lemma_module_record_fields(m, po);
                            assert(16 * j + 16 <= 16 * m.segments.len()) by (nonlinear_arith)
                                requires
                                    j < m.segments.len(),
                            ;
                            let rec = buf@.subrange(pos as int, pos + module_record_len(m));
                            assert(rec.subrange(17 + 16 * j, 17 + 16 * j + 16) =~= buf@.subrange(
                                pos + 17 + 16 * j,
                                pos + 17 + 16 * j + 16,
                            ));
                            assert(segment_bytes(seg) == segment_bytes(m.segments[j as int]));
                            lemma_segment_bytes_injective(seg, m.segments[j as int]);
                            assert(segments@ =~= m.segments.take(j + 1));
                        }
                    }
                    cur = newpos;
                },
                Err(e) => {
                    proof {
                        assert forall|m: ModuleV, po: u64|
                            !module_parses_at(m, po, buf@, pos as int, paths@) by {
                            if module_parses_at(m, po, buf@, pos as int, paths@) {
                                lemma_module_record_fields(m, po);
                                assert(16 * j + 16 <= 16 * m.segments.len()) by (nonlinear_arith)
                                    requires
                                        j < m.segments.len(),
                                ;
                                let rec = buf@.subrange(pos as int, pos + module_record_len(m));
                                assert(rec.subrange(17 + 16 * j, 17 + 16 * j + 16) =~= buf@.subrange(
                                    pos + 17 + 16 * j,
                                    pos + 17 + 16 * j + 16,
                                ));
                                let sj = m.segments[j as int];
                                assert(buf@.subrange(cur as int, cur + 16) == segment_bytes(sj));
                                assert(segment_bytes(sj).subrange(0, 8) =~= u64_le_bytes(sj.start));
                                assert(segment_bytes(sj).subrange(8, 16) =~= u64_le_bytes(
                                    sj.spec_size(),
                                ));
                                assert(buf@.subrange(cur as int, cur + 8) =~= segment_bytes(
                                    sj,
                                ).subrange(0, 8));
                                assert(buf@.subrange(cur + 8, cur + 16) =~= segment_bytes(
                                    sj,
                                ).subrange(8, 16));
                                lemma_u64_le_inverse(sj.start);
                                lemma_u64_le_inverse(sj.spec_size());
                            }
                        }
                    }
                    return Err(e);
                },
            }
            j = j + 1;
        }
        let path: Option<Vec<u8>> = if path_off < PATH_OFFSET_LIMIT {
            let off_us: usize = if path_off <= usize::MAX as u64 {
                path_off as usize
            } else {
                proof {
                    assert forall|m: ModuleV, po: u64|
                        !module_parses_at(m, po, buf@, pos as int, paths@) by {
                        if module_parses_at(m, po, buf@, pos as int, paths@) {
                            assert(po == path_off);
                            assert(path_at(paths@, path_off as int) is None);
                        }
                    }
                }
                return Err(Error::PathReadError);
            };
            match read_path(paths, off_us) {
                Ok(p) => Some(p),
                Err(e) => {
                    proof {
                        assert forall|m: ModuleV, po: u64|
                            !module_parses_at(m, po, buf@, pos as int, paths@) by {
                            if module_parses_at(m, po, buf@, pos as int, paths@) {
                                assert(po == path_off);
                                assert(path_at(paths@, path_off as int) is None);
                            }
                        }
                    }
                    return Err(e);
                },
            }
        } else {
            None
        };
        let m_read = AlcovModule { base_address, path, segments };
        proof {
            lemma_le_bytes_complete_u64(buf@.subrange(pos as int, pos + 8));
            lemma_le_bytes_complete_u64(buf@.subrange(pos + 8, pos + 16));
            assert(module_record_bytes(m_read@, path_off) =~= buf@.subrange(pos as int, cur as int));
            assert(module_parses_at(m_read@, path_off, buf@, pos as int, paths@));
            assert forall|m: ModuleV, po: u64|
                #[trigger] module_parses_at(m, po, buf@, pos as int, paths@) implies m_read@ == m by {
                assert(m.segments.take(nseg as int) =~= m.segments);
                assert(m_read@.segments == m.segments);
                assert(m_read@ =~= m);
            }
        }
        let res = (m_read, cur);
        proof {
            assert(module_parses_at(res.0@, path_off, buf@, pos as int, paths@));
            assert(exists|po: u64| module_parses_at(res.0@, po, buf@, pos as int, paths@));
        }
        Ok(res)
    }
}

/// The view of an optional path.
pub open spec fn path_view(p: Option<Vec<u8>>) -> Option<Seq<u8>> {
    match p {
        Some(q) => Some(q@),
        None => None,
    }
}

} // verus!
