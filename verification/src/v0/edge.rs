//! The edge graph: per-block adjacencies and the edges section's records.
use vstd::prelude::*;
use crate::v0::bytes::{
    lemma_le_bytes_complete_u64, lemma_u64_le_inverse, push_u64_le, read_u64_le, u64_le_bytes,
};
use crate::v0::block::AlcovBlockMetadata;
use crate::v0::chunks::lemma_flatten_index_fixed;
use crate::v0::error::Error;

verus! {

/// One outgoing edge: the destination block's index in the block list.
#[derive(Debug, Clone, Copy, PartialEq, Eq, Structural, Hash)]
pub struct AlcovDstBlockEdge {
    pub dst_block_id: u64,
}

/// What the graph knows of one edge: how often it was taken.
#[derive(Debug, Clone, Copy, PartialEq, Eq, Structural)]
pub struct AlcovDstBlockEdgeMetadata {
    pub nb_taken: u64,
}

/// Where a block's adjacency begins inside the edges chunk.
pub struct AlcovBlockEdgesMetadata {
    pub out_edges_offset: u64,
}

/// One stored edge: destination and taken count.
pub type EdgePair = (AlcovDstBlockEdge, AlcovDstBlockEdgeMetadata);

/// The sixteen bytes of one edge record.
pub open spec fn pair_bytes(p: EdgePair) -> Seq<u8> {
    u64_le_bytes(p.0.dst_block_id) + u64_le_bytes(p.1.nb_taken)
}

/// The concatenated wire form of an adjacency.
pub open spec fn pairs_bytes(ps: Seq<EdgePair>) -> Seq<u8> {
    Seq::new(ps.len(), |i: int| pair_bytes(ps[i])).flatten()
}

/// An adjacency's wire form is sixteen bytes per edge.
pub proof fn lemma_pairs_bytes_len(ps: Seq<EdgePair>)
    ensures
        pairs_bytes(ps).len() == 16 * ps.len(),
{
    let recs = Seq::new(ps.len(), |i: int| pair_bytes(ps[i]));
    crate::v0::chunks::lemma_flatten_fixed_len(recs, 16);
    assert(ps.len() * 16 == 16 * ps.len()) by (nonlinear_arith);
}

/// Adjacencies of one length with the same bytes are equal.
pub proof fn lemma_pairs_bytes_injective(a: Seq<EdgePair>, b: Seq<EdgePair>)
    requires
        a.len() == b.len(),
        pairs_bytes(a) == pairs_bytes(b),
    ensures
        a == b,
{
    let ra = Seq::new(a.len(), |i: int| pair_bytes(a[i]));
    let rb = Seq::new(b.len(), |i: int| pair_bytes(b[i]));
    assert forall|j: int| 0 <= j < a.len() implies a[j] == b[j] by {
        lemma_flatten_index_fixed(ra, 16, j);
        lemma_flatten_index_fixed(rb, 16, j);
        assert(pair_bytes(a[j]) == pair_bytes(b[j]));
        assert(pair_bytes(a[j]).subrange(0, 8) =~= u64_le_bytes(a[j].0.dst_block_id));
        assert(pair_bytes(a[j]).subrange(8, 16) =~= u64_le_bytes(a[j].1.nb_taken));
        assert(pair_bytes(b[j]).subrange(0, 8) =~= u64_le_bytes(b[j].0.dst_block_id));
        assert(pair_bytes(b[j]).subrange(8, 16) =~= u64_le_bytes(b[j].1.nb_taken));
        lemma_u64_le_inverse(a[j].0.dst_block_id);
        lemma_u64_le_inverse(b[j].0.dst_block_id);
        lemma_u64_le_inverse(a[j].1.nb_taken);
        lemma_u64_le_inverse(b[j].1.nb_taken);
    }
    assert(a =~= b);
}

impl AlcovDstBlockEdge {
    /// Appends the destination's eight bytes.
    pub fn write(&self, buf: &mut Vec<u8>)
        ensures
            final(buf)@ == old(buf)@ + u64_le_bytes(self.dst_block_id),
    {
        push_u64_le(buf, self.dst_block_id);
    }

    /// Parses a destination at `pos`.
    pub fn read(buf: &Vec<u8>, pos: usize) -> (r: Result<(AlcovDstBlockEdge, usize), Error>)
        ensures
            r is Ok <==> pos + 8 <= buf@.len(),
            r matches Ok(p) ==> p.1 == pos + 8 && u64_le_bytes(p.0.dst_block_id) == buf@.subrange(
                pos as int,
                pos + 8,
            ),
            r is Err ==> r == (Err::<(AlcovDstBlockEdge, usize), Error>(Error::Io)),
    {
        let n: usize = buf.len();
        if n < 8 || pos > n - 8 {
            return Err(Error::Io);
        }
        let dst_block_id = read_u64_le(buf, pos);
        proof {
            lemma_le_bytes_complete_u64(buf@.subrange(pos as int, pos + 8));
        }
        Ok((AlcovDstBlockEdge { dst_block_id }, pos + 8))
    }
}

impl AlcovDstBlockEdgeMetadata {
    /// Appends the taken count's eight bytes.
    pub fn write(&self, buf: &mut Vec<u8>)
        ensures
            final(buf)@ == old(buf)@ + u64_le_bytes(self.nb_taken),
    {
        push_u64_le(buf, self.nb_taken);
    }

    /// Parses a taken count at `pos`.
    pub fn read(buf: &Vec<u8>, pos: usize) -> (r: Result<(AlcovDstBlockEdgeMetadata, usize), Error>)
        ensures
            r is Ok <==> pos + 8 <= buf@.len(),
            r matches Ok(p) ==> p.1 == pos + 8 && u64_le_bytes(p.0.nb_taken) == buf@.subrange(
                pos as int,
                pos + 8,
            ),
            r is Err ==> r == (Err::<(AlcovDstBlockEdgeMetadata, usize), Error>(Error::Io)),
    {
        let n: usize = buf.len();
        if n < 8 || pos > n - 8 {
            return Err(Error::Io);
        }
        let nb_taken = read_u64_le(buf, pos);
        proof {
            lemma_le_bytes_complete_u64(buf@.subrange(pos as int, pos + 8));
        }
        Ok((AlcovDstBlockEdgeMetadata { nb_taken }, pos + 8))
    }
}

/// One block's outgoing edges, each destination held once.
#[derive(Debug, PartialEq, Eq)]
pub struct AlcovBlockEdges {
    pub entries: Vec<EdgePair>,
}

impl View for AlcovBlockEdges {
    type V = Seq<EdgePair>;

    open spec fn view(&self) -> Seq<EdgePair> {
        self.entries@
    }
}

/// The first index holding `dst`, or -1 when none does.
pub open spec fn find_dst(a: Seq<EdgePair>, dst: u64) -> int
    decreases a.len(),
{
    if a.len() == 0 {
        -1
    } else if a[0].0.dst_block_id == dst {
        0
    } else {
        let r = find_dst(a.drop_first(), dst);
        if r < 0 {
            -1
        } else {
            r + 1
        }
    }
}

/// What `find_dst` finds: the first occurrence, or proof there is none.
pub proof fn lemma_find_dst_props(a: Seq<EdgePair>, dst: u64)
    ensures
        -1 <= find_dst(a, dst) < a.len(),
        find_dst(a, dst) >= 0 ==> a[find_dst(a, dst)].0.dst_block_id == dst,
        find_dst(a, dst) == -1 ==> forall|k: int|
            0 <= k < a.len() ==> (#[trigger] a[k]).0.dst_block_id != dst,
    decreases a.len(),
{
    if a.len() > 0 && a[0].0.dst_block_id != dst {
        lemma_find_dst_props(a.drop_first(), dst);
        if find_dst(a, dst) == -1 {
            assert forall|k: int| 0 <= k < a.len() implies (#[trigger] a[k]).0.dst_block_id
                != dst by {
                if k > 0 {
                    assert(a.drop_first()[k - 1] == a[k]);
                }
            }
        }
    }
}

/// Ahead of the first match, no index holds `dst`.
pub proof fn lemma_find_dst_first(a: Seq<EdgePair>, dst: u64, j: int)
    requires
        0 <= j < a.len(),
        a[j].0.dst_block_id == dst,
        forall|k: int| 0 <= k < j ==> (#[trigger] a[k]).0.dst_block_id != dst,
    ensures
        find_dst(a, dst) == j,
    decreases a.len(),
{
    if j > 0 {
        lemma_find_dst_first(a.drop_first(), dst, j - 1);
    }
}

/// An adjacency after recording one more traversal of `dst`: the matching
/// entry's count grows by one, or a fresh entry with count one appears.
pub open spec fn adj_add(a: Seq<EdgePair>, dst: u64) -> Seq<EdgePair> {
    let j = find_dst(a, dst);
    if j < 0 {
        a.push((AlcovDstBlockEdge { dst_block_id: dst }, AlcovDstBlockEdgeMetadata { nb_taken: 1 }))
    } else {
        a.update(j, (a[j].0, AlcovDstBlockEdgeMetadata { nb_taken: (a[j].1.nb_taken + 1) as u64 }))
    }
}

/// Every entry holding `dst` still has room to count one more traversal.
pub open spec fn can_count(a: Seq<EdgePair>, dst: u64) -> bool {
    forall|j: int|
        0 <= j < a.len() && (#[trigger] a[j]).0.dst_block_id == dst ==> a[j].1.nb_taken < u64::MAX
}

impl AlcovBlockEdges {
    /// An empty adjacency.
    pub fn new() -> (r: AlcovBlockEdges)
        ensures
            r@.len() == 0,
    {
        AlcovBlockEdges { entries: Vec::new() }
    }

    /// Records one traversal of the edge to `dst`.
    pub fn bump(&mut self, dst: u64)
        requires
            can_count(old(self)@, dst),
        ensures
            final(self)@ == adj_add(old(self)@, dst),
    {
        let n: usize = self.entries.len();
        let mut j: usize = 0;
        while j < n
            invariant
                j <= n,
                n == self.entries@.len(),
                self@ == old(self)@,
                can_count(old(self)@, dst),
                forall|k: int| 0 <= k < j ==> (#[trigger] self.entries@[k]).0.dst_block_id != dst,
            decreases n - j,
        {
            if self.entries[j].0.dst_block_id == dst {
                proof {
                    lemma_find_dst_first(self@, dst, j as int);
                }
                let p = self.entries.remove(j);
                self.entries.insert(j, (p.0, AlcovDstBlockEdgeMetadata { nb_taken: p.1.nb_taken + 1 }));
                proof {
                    assert(self@ =~= adj_add(old(self)@, dst));
                }
                return ;
            }
            j = j + 1;
        }
        proof {
            lemma_find_dst_props(self@, dst);
        }
        self.entries.push(
            (AlcovDstBlockEdge { dst_block_id: dst }, AlcovDstBlockEdgeMetadata { nb_taken: 1 }),
        );
    }

    /// Appends the adjacency's records in order.
    pub fn write(&self, buf: &mut Vec<u8>)
        ensures
            final(buf)@ == old(buf)@ + pairs_bytes(self@),
    {
        let n: usize = self.entries.len();
        let mut i: usize = 0;
        let ghost recs = Seq::new(self.entries@.len(), |k: int| pair_bytes(self.entries@[k]));
        proof {
            assert(buf@ =~= old(buf)@ + recs.take(0).flatten());
        }
        while i < n
            invariant
                i <= n,
                n == self.entries@.len(),
                recs == Seq::new(self.entries@.len(), |k: int| pair_bytes(self.entries@[k])),
                buf@ == old(buf)@ + recs.take(i as int).flatten(),
            decreases n - i,
        {
            let p = self.entries[i];
            push_u64_le(buf, p.0.dst_block_id);
            push_u64_le(buf, p.1.nb_taken);
            proof {
                crate::v0::chunks::lemma_flatten_take_succ(recs, i as int);
                assert(buf@ =~= old(buf)@ + recs.take(i + 1).flatten());
            }
            i = i + 1;
        }
        proof {
            crate::v0::chunks::lemma_flatten_take_all(recs);
            assert(buf@ =~= old(buf)@ + pairs_bytes(self@));
        }
    }

    /// Parses the adjacency that `info` points at inside the edges chunk.
    pub fn read(edges_buf: &Vec<u8>, info: &AlcovBlockMetadata) -> (r: Result<
        AlcovBlockEdges,
        Error,
    >)
        ensures
            r is Ok <==> info.out_edges_offset + 16 * info.nb_out_edges <= edges_buf@.len(),
            r matches Ok(e) ==> {
                &&& e@.len() == info.nb_out_edges
                &&& pairs_bytes(e@) == edges_buf@.subrange(
                    info.out_edges_offset as int,
                    info.out_edges_offset + 16 * info.nb_out_edges,
                )
            },
            r is Err ==> r == (Err::<AlcovBlockEdges, Error>(Error::Io)),
    {
        let n: usize = edges_buf.len();
        let off64 = info.out_edges_offset;
        let nb = info.nb_out_edges;
        if off64 > n as u64 {
            proof {
                assert(16 * nb >= 0) by (nonlinear_arith);
            }
            return Err(Error::Io);
        }
        let avail: u64 = n as u64 - off64;
        if nb > avail / 16 {
            proof {
                assert(16 * nb > avail) by (nonlinear_arith)
                    requires
                        nb > avail / 16,
                        nb >= 0,
                        avail >= 0,
                ;
            }
            return Err(Error::Io);
        }
        proof {
            assert(16 * nb <= avail) by (nonlinear_arith)
                requires
                    nb <= avail / 16,
                    nb >= 0,
                    avail >= 0,
            ;
        }
        let off: usize = off64 as usize;
        let cnt: usize = nb as usize;
        let mut entries: Vec<EdgePair> = Vec::new();
        let mut i: usize = 0;
        proof {
            assert(Seq::new(entries@.len(), |k: int| pair_bytes(entries@[k])).flatten()
                =~= edges_buf@.subrange(off as int, off as int));
        }
        while i < cnt
            invariant
                i <= cnt,
                n == edges_buf@.len(),
                off + 16 * cnt <= n,
                entries@.len() == i,
                Seq::new(entries@.len(), |k: int| pair_bytes(entries@[k])).flatten()
                    == edges_buf@.subrange(off as int, off + 16 * i),
            decreases cnt - i,
        {
            let ghost recs_old = Seq::new(entries@.len(), |k: int| pair_bytes(entries@[k]));
            proof {
                assert(16 * i + 16 <= 16 * cnt) by (nonlinear_arith)
                    requires
                        i < cnt,
                ;
            }
            let cur = off + 16 * i;
            let dst = read_u64_le(edges_buf, cur);
            let taken = read_u64_le(edges_buf, cur + 8);
            let p = (AlcovDstBlockEdge { dst_block_id: dst }, AlcovDstBlockEdgeMetadata {
                nb_taken: taken,
            });
            entries.push(p);
            proof {
                lemma_le_bytes_complete_u64(edges_buf@.subrange(cur as int, cur + 8));
                lemma_le_bytes_complete_u64(edges_buf@.subrange(cur + 8, cur + 16));
                assert(pair_bytes(p) =~= edges_buf@.subrange(cur as int, cur + 16));
                let recs_new = Seq::new(entries@.len(), |k: int| pair_bytes(entries@[k]));
                assert(recs_new =~= recs_old.push(pair_bytes(p)));
                recs_old.lemma_flatten_push(pair_bytes(p));
                assert(recs_new.flatten() =~= edges_buf@.subrange(off as int, off + 16 * (i + 1)));
            }
            i = i + 1;
        }
        let e = AlcovBlockEdges { entries };
        Ok(e)
    }
}

/// The total number of stored edges over every adjacency.
pub open spec fn total_edges(s: Seq<Seq<EdgePair>>) -> int
    decreases s.len(),
{
    if s.len() == 0 {
        0
    } else {
        total_edges(s.drop_last()) + s.last().len()
    }
}

/// No adjacency counts negatively.
pub proof fn lemma_total_edges_nonneg(s: Seq<Seq<EdgePair>>)
    ensures
        total_edges(s) >= 0,
    decreases s.len(),
{
    if s.len() > 0 {
        lemma_total_edges_nonneg(s.drop_last());
    }
}

/// Counting one more adjacency adds its length.
pub proof fn lemma_total_edges_take_succ(s: Seq<Seq<EdgePair>>, i: int)
    requires
        0 <= i < s.len(),
    ensures
        total_edges(s.take(i + 1)) == total_edges(s.take(i)) + s[i].len(),
{
    assert(s.take(i + 1).drop_last() =~= s.take(i));
    assert(s.take(i + 1).last() == s[i]);
}

/// No prefix counts more edges than the whole.
pub proof fn lemma_total_edges_take_le(s: Seq<Seq<EdgePair>>, i: int)
    requires
        0 <= i <= s.len(),
    ensures
        total_edges(s.take(i)) <= total_edges(s),
    decreases s.len() - i,
{
    if i == s.len() {
        assert(s.take(i) =~= s);
    } else {
        lemma_total_edges_take_succ(s, i);
        lemma_total_edges_take_le(s, i + 1);
    }
}

/// The ghost shape of the whole edge graph.
pub open spec fn edges_add(s: Seq<Seq<EdgePair>>, src: int, dst: u64) -> Seq<Seq<EdgePair>>
    recommends
        0 <= src,
{
    let padded = if src < s.len() {
        s
    } else {
        s + Seq::new((src + 1 - s.len()) as nat, |i: int| Seq::<EdgePair>::empty())
    };
    padded.update(src, adj_add(padded[src], dst))
}

/// The in-memory edge graph: one adjacency per source block.
#[derive(Debug, PartialEq, Eq)]
pub struct AlcovEdges {
    pub adj_list: Vec<AlcovBlockEdges>,
}

impl View for AlcovEdges {
    type V = Seq<Seq<EdgePair>>;

    open spec fn view(&self) -> Seq<Seq<EdgePair>> {
        Seq::new(self.adj_list@.len(), |i: int| self.adj_list@[i]@)
    }
}

impl AlcovEdges {
    /// An empty graph.
    pub fn new() -> (r: AlcovEdges)
        ensures
            r@.len() == 0,
    {
        AlcovEdges { adj_list: Vec::new() }
    }

    /// Records one traversal of the edge from `src_block` to `dst_block`,
    /// growing the adjacency list so the source's row exists.
    pub fn add(&mut self, src_block: u64, dst_block: u64)
        requires
            src_block < usize::MAX as u64,
            src_block < old(self)@.len() ==> can_count(old(self)@[src_block as int], dst_block),
        ensures
            final(self)@ == edges_add(old(self)@, src_block as int, dst_block),
    {
        let src: usize = src_block as usize;
        while self.adj_list.len() <= src
            invariant
                src < usize::MAX,
                old(self)@.len() <= self.adj_list@.len(),
                self.adj_list@.len() <= old(self)@.len() || self.adj_list@.len() <= src + 1,
                self@ == old(self)@ + Seq::new(
                    (self.adj_list@.len() - old(self)@.len()) as nat,
                    |i: int| Seq::<EdgePair>::empty(),
                ),
                src_block < old(self)@.len() ==> can_count(old(self)@[src_block as int], dst_block),
            decreases src + 1 - self.adj_list@.len(),
        {
            let ghost prev = self@;
            let ghost prev_adj = self.adj_list@;
            self.adj_list.push(AlcovBlockEdges::new());
            proof {
                let target = old(self)@ + Seq::new(
                    (self.adj_list@.len() - old(self)@.len()) as nat,
                    |i: int| Seq::<EdgePair>::empty(),
                );
                assert(self@.len() == target.len());
                assert forall|i: int| 0 <= i < self@.len() implies self@[i] == target[i] by {
                    if i < prev_adj.len() {
                        assert(self.adj_list@[i] == prev_adj[i]);
                        assert(self@[i] == prev[i]);
                    } else {
                        assert(self@[i] =~= Seq::<EdgePair>::empty());
                    }
                }
                assert(self@ =~= target);
            }
        }
        let ghost padded = self@;
        proof {
            let s = old(self)@;
            if src < s.len() {
                assert(padded =~~= s);
            } else {
                assert(padded =~~= s + Seq::new(
                    (src + 1 - s.len()) as nat,
                    |i: int| Seq::<EdgePair>::empty(),
                ));
            }
        }
        let mut row = self.adj_list.remove(src);
        proof {
            assert(row@ == padded[src as int]);
            assert(src as int == src_block as int);
            if (src_block as int) < old(self)@.len() {
                assert(padded[src as int] == old(self)@[src_block as int]);
            } else {
                assert(padded[src as int] =~= Seq::<EdgePair>::empty());
            }
            assert(can_count(row@, dst_block));
        }
        row.bump(dst_block);
        self.adj_list.insert(src, row);
        proof {
            assert(self@ =~~= padded.update(src as int, adj_add(padded[src as int], dst_block)));
            assert(self@ =~~= edges_add(old(self)@, src_block as int, dst_block));
        }
    }

    /// The total number of recorded edges.
    pub fn nb_edges(&self) -> (r: u64)
        requires
            total_edges(self@) <= u64::MAX,
        ensures
            r == total_edges(self@),
    {
        let n: usize = self.adj_list.len();
        let mut acc: u64 = 0;
        let mut i: usize = 0;
        proof {
            assert(self@.take(0) =~= Seq::<Seq<EdgePair>>::empty());
        }
        while i < n
            invariant
                i <= n,
                n == self.adj_list@.len(),
                total_edges(self@) <= u64::MAX,
                acc == total_edges(self@.take(i as int)),
            decreases n - i,
        {
            let l = self.adj_list[i].entries.len();
            proof {
                lemma_total_edges_take_succ(self@, i as int);
                lemma_total_edges_take_le(self@, i + 1);
            }
            acc = acc + l as u64;
            i = i + 1;
        }
        proof {
            assert(self@.take(n as int) =~= self@);
        }
        acc
    }

    /// The total number of recorded edges, or nothing when the count
    /// overflows the header's 64-bit field.
    pub fn try_nb_edges(&self) -> (r: Option<u64>)
        ensures
            r matches Some(v) ==> v == total_edges(self@) && total_edges(self@) <= u64::MAX,
            r is None ==> total_edges(self@) > u64::MAX,
    {
        let n: usize = self.adj_list.len();
        let mut acc: u64 = 0;
        let mut i: usize = 0;
        proof {
            assert(self@.take(0) =~= Seq::<Seq<EdgePair>>::empty());
        }
        while i < n
            invariant
                i <= n,
                n == self.adj_list@.len(),
                acc == total_edges(self@.take(i as int)),
            decreases n - i,
        {
            let l = self.adj_list[i].entries.len();
            proof {
                lemma_total_edges_take_succ(self@, i as int);
            }
            if l as u64 > u64::MAX - acc {
                proof {
                    lemma_total_edges_take_le(self@, i + 1);
                }
                return None;
            }
            acc = acc + l as u64;
            i = i + 1;
        }
        proof {
            assert(self@.take(n as int) =~= self@);
        }
        Some(acc)
    }
}

} // verus!
