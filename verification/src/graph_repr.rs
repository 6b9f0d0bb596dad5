use vstd::prelude::*;
use vstd::bytes::*;
use vstd::slice::slice_subrange;

verus! {

/// One outgoing edge in compressed-sparse-row form. The weight is stored as
/// the IEEE-754 bit pattern of the (non-negative) `f64` weight, so that the
/// graph and its binary encoding can be handled exactly.
#[derive(Clone, Copy, Debug, PartialEq, Eq, Structural)]
pub struct AosEdge {
    pub weight_bits: u64,
    pub target: u32,
}

/// A directed graph in compressed-sparse-row layout: the out-edges of node `u`
/// are `edges[offsets[u]..offsets[u + 1]]`.
pub struct CsrAosGraph {
    pub offsets: Vec<u32>,
    pub edges: Vec<AosEdge>,
    pub node_count: usize,
}

/// Why a byte string is not the binary encoding of a graph.
#[derive(Clone, Copy, Debug, PartialEq, Eq, Structural)]
pub enum GraphReadError {
    /// The first four bytes are not `DUAN`.
    BadMagic,
    /// The format version is not 1.
    UnknownVersion,
    /// The bytes end before the header or the arrays that it announces.
    UnexpectedEof,
}

/// Total number of edges in a list of adjacency lists.
pub open spec fn total_edges(adj: Seq<Vec<AosEdge>>) -> nat
    decreases adj.len(),
{
    if adj.len() == 0 {
        0
    } else {
        total_edges(adj.drop_last()) + adj.last()@.len()
    }
}

proof fn lemma_total_edges_prefix(adj: Seq<Vec<AosEdge>>, i: int)
    requires
        0 <= i < adj.len(),
    ensures
        total_edges(adj.take(i + 1)) == total_edges(adj.take(i)) + adj[i]@.len(),
        total_edges(adj.take(i + 1)) <= total_edges(adj),
    decreases adj.len(),
{
    assert(adj.take(i + 1).drop_last() =~= adj.take(i));
    if i + 1 < adj.len() {
        lemma_total_edges_prefix(adj.drop_last(), i);
        assert(adj.drop_last().take(i + 1) =~= adj.take(i + 1));
    } else {
        assert(adj.take(i + 1) =~= adj);
    }
}

impl CsrAosGraph {
    /// The offsets describe `node_count` consecutive, non-overlapping ranges
    /// that cover the edge array from its start to its end.
    pub open spec fn wf(&self) -> bool {
        &&& self.offsets@.len() == self.node_count + 1
        &&& self.offsets@[0] == 0
        &&& self.offsets@[self.node_count as int] == self.edges@.len()
        &&& forall|i: int, j: int|
            0 <= i <= j <= self.node_count ==> self.offsets@[i] <= self.offsets@[j]
    }

    /// The out-edges of node `u`.
    pub open spec fn out_edges(&self, u: int) -> Seq<AosEdge> {
        self.edges@.subrange(self.offsets@[u] as int, self.offsets@[u + 1] as int)
    }

    /// Builds the graph whose node `u` has exactly the out-edges `adj[u]`, in
    /// that order. The edge count must fit the 32-bit offsets.
    pub fn from_adjacency(adj: &Vec<Vec<AosEdge>>) -> (res: Self)
        requires
            total_edges(adj@) <= u32::MAX,
        ensures
            res.wf(),
            res.node_count == adj@.len(),
            res.edges@.len() == total_edges(adj@),
            forall|u: int| 0 <= u < adj@.len() ==> #[trigger] res.out_edges(u) == adj@[u]@,
    {
        let n = adj.len();
        let mut offsets: Vec<u32> = Vec::new();
        let mut edges: Vec<AosEdge> = Vec::new();
        offsets.push(0);
        let mut u: usize = 0;
        assert(adj@.take(0) =~= Seq::<Vec<AosEdge>>::empty());
        while u < n
            invariant
                n == adj@.len(),
                u <= n,
                total_edges(adj@) <= u32::MAX,
                offsets@.len() == u + 1,
                offsets@[0] == 0,
                offsets@[u as int] == edges@.len(),
                edges@.len() == total_edges(adj@.take(u as int)),
                forall|i: int, j: int| 0 <= i <= j <= u ==> offsets@[i] <= offsets@[j],
                forall|w: int|
                    0 <= w < u ==> edges@.subrange(offsets@[w] as int, offsets@[w + 1] as int)
                        == #[trigger] adj@[w]@,
            decreases n - u,
        {
            proof {
                lemma_total_edges_prefix(adj@, u as int);
            }
            let ghost before = edges@;
            let list = &adj[u];
            let mut k: usize = 0;
            while k < list.len()
                invariant
                    list@ == adj@[u as int]@,
                    k <= list@.len(),
                    edges@.len() == before.len() + k,
                    edges@.subrange(0, before.len() as int) == before,
                    edges@.subrange(before.len() as int, edges@.len() as int) == list@.take(k as int),
                    before.len() + list@.len() <= u32::MAX,
                decreases list@.len() - k,
            {
                edges.push(list[k]);
                k = k + 1;
                assert(edges@.subrange(before.len() as int, edges@.len() as int) =~= list@.take(k as int));
                assert(edges@.subrange(0, before.len() as int) =~= before);
            }
            assert(list@.take(k as int) =~= list@);
            let end = edges.len() as u32;
            offsets.push(end);
            proof {
                assert forall|w: int| 0 <= w < u + 1 implies edges@.subrange(
                    offsets@[w] as int,
                    offsets@[w + 1] as int,
                ) == #[trigger] adj@[w]@ by {
                    if w < u {
                        assert(offsets@[w + 1] <= before.len());
                        assert(edges@.subrange(offsets@[w] as int, offsets@[w + 1] as int)
                            =~= before.subrange(offsets@[w] as int, offsets@[w + 1] as int));
                    }
                }
            }
            u = u + 1;
        }
        assert(adj@.take(n as int) =~= adj@);
        CsrAosGraph { offsets, edges, node_count: n }
    }

    /// Whether the offsets describe the edge array (as `wf` says); a graph
    /// read from bytes is taken as it stands and may fail this.
    pub fn offsets_valid(&self) -> (b: bool)
        ensures
            b == self.wf(),
    {
        let n = self.node_count;
        if self.offsets.len() == 0 || self.offsets.len() - 1 != n || self.offsets[0] != 0 {
            return false;
        }
        if self.offsets[n] as usize != self.edges.len() {
            return false;
        }
        let mut i: usize = 0;
        while i < n
            invariant
                i <= n,
                self.offsets@.len() == n + 1,
                n == self.node_count,
                forall|a: int, b: int| 0 <= a <= b <= i ==> self.offsets@[a] <= self.offsets@[b],
            decreases n - i,
        {
            if self.offsets[i] > self.offsets[i + 1] {
                return false;
            }
            assert forall|a: int, b: int| 0 <= a <= b <= i + 1 implies self.offsets@[a] <= self.offsets@[b] by {
                if b == i + 1 && a <= i {
                    assert(self.offsets@[a] <= self.offsets@[i as int]);
                }
            }
            i = i + 1;
        }
        true
    }

    /// The out-edges of node `u`.
    pub fn edges(&self, u: usize) -> (res: &[AosEdge])
        requires
            self.wf(),
            u < self.node_count,
        ensures
            res@ == self.out_edges(u as int),
    {
        let start = self.offsets[u] as usize;
        let end = self.offsets[u + 1] as usize;
        slice_subrange(self.edges.as_slice(), start, end)
    }
}


/// The magic number `DUAN` that opens every encoded graph.
pub open spec fn magic_bytes() -> Seq<u8> {
    seq![0x44u8, 0x55u8, 0x41u8, 0x4eu8]
}

/// The 24-byte header: magic, version 1, node count and edge count.
pub open spec fn header_bytes(node_count: u64, edge_count: u64) -> Seq<u8> {
    magic_bytes() + spec_u32_to_le_bytes(1) + spec_u64_to_le_bytes(node_count)
        + spec_u64_to_le_bytes(edge_count)
}

/// The offsets, each as four little-endian bytes.
pub open spec fn offsets_bytes(s: Seq<u32>) -> Seq<u8>
    decreases s.len(),
{
    if s.len() == 0 {
        seq![]
    } else {
        offsets_bytes(s.drop_last()) + spec_u32_to_le_bytes(s.last())
    }
}

/// One edge: its target as four bytes, then its weight bits as eight bytes.
pub open spec fn edge_bytes(e: AosEdge) -> Seq<u8> {
    spec_u32_to_le_bytes(e.target) + spec_u64_to_le_bytes(e.weight_bits)
}

/// The edges, each as twelve bytes.
pub open spec fn edges_bytes(s: Seq<AosEdge>) -> Seq<u8>
    decreases s.len(),
{
    if s.len() == 0 {
        seq![]
    } else {
        edges_bytes(s.drop_last()) + edge_bytes(s.last())
    }
}

/// The binary encoding of a graph with the given fields.
pub open spec fn encoding(offsets: Seq<u32>, edges: Seq<AosEdge>, node_count: nat) -> Seq<u8> {
    header_bytes(node_count as u64, edges.len() as u64) + offsets_bytes(offsets) + edges_bytes(edges)
}

/// The `i`-th offset read from an encoding whose offsets start at `start`.
pub open spec fn decoded_offset(bytes: Seq<u8>, start: int, i: int) -> u32 {
    spec_u32_from_le_bytes(bytes.subrange(start + 4 * i, start + 4 * i + 4))
}

/// The `j`-th edge read from an encoding whose edges start at `start`.
pub open spec fn decoded_edge(bytes: Seq<u8>, start: int, j: int) -> AosEdge {
    AosEdge {
        target: spec_u32_from_le_bytes(bytes.subrange(start + 12 * j, start + 12 * j + 4)),
        weight_bits: spec_u64_from_le_bytes(bytes.subrange(start + 12 * j + 4, start + 12 * j + 12)),
    }
}

/// Node count announced by the header.
pub open spec fn header_node_count(bytes: Seq<u8>) -> u64 {
    spec_u64_from_le_bytes(bytes.subrange(8, 16))
}

/// Edge count announced by the header.
pub open spec fn header_edge_count(bytes: Seq<u8>) -> u64 {
    spec_u64_from_le_bytes(bytes.subrange(16, 24))
}

/// Number of bytes that an encoding with the given header occupies.
pub open spec fn encoded_len(node_count: int, edge_count: int) -> int {
    24 + 4 * (node_count + 1) + 12 * edge_count
}

/// The bytes hold a complete encoding: right magic, version 1, and all the
/// offsets and edges that the header announces (anything after is ignored).
pub open spec fn well_formed_encoding(bytes: Seq<u8>) -> bool {
    &&& bytes.len() >= 24
    &&& bytes.subrange(0, 4) == magic_bytes()
    &&& spec_u32_from_le_bytes(bytes.subrange(4, 8)) == 1
    &&& bytes.len() >= encoded_len(
        header_node_count(bytes) as int,
        header_edge_count(bytes) as int,
    )
}

/// The error that reading the bytes as a stream stops with, if the encoding is
/// not well formed: a short read before the magic is complete, a wrong magic,
/// a short read before the version, a wrong version, and otherwise a short read.
pub open spec fn read_error(bytes: Seq<u8>) -> GraphReadError {
    if bytes.len() < 4 {
        GraphReadError::UnexpectedEof
    } else if bytes.subrange(0, 4) != magic_bytes() {
        GraphReadError::BadMagic
    } else if bytes.len() < 8 {
        GraphReadError::UnexpectedEof
    } else if spec_u32_from_le_bytes(bytes.subrange(4, 8)) != 1 {
        GraphReadError::UnknownVersion
    } else {
        GraphReadError::UnexpectedEof
    }
}

proof fn lemma_offsets_bytes(s: Seq<u32>)
    ensures
        offsets_bytes(s).len() == 4 * s.len(),
        forall|i: int| 0 <= i < s.len() ==>
            #[trigger] offsets_bytes(s).subrange(4 * i, 4 * i + 4) == spec_u32_to_le_bytes(s[i]),
    decreases s.len(),
{
    lemma_auto_spec_u32_to_from_le_bytes();
    if s.len() > 0 {
        let p = s.drop_last();
        lemma_offsets_bytes(p);
        assert forall|i: int| 0 <= i < s.len() implies #[trigger] offsets_bytes(s).subrange(
            4 * i,
            4 * i + 4,
        ) == spec_u32_to_le_bytes(s[i]) by {
            if i < p.len() {
                assert(offsets_bytes(s).subrange(4 * i, 4 * i + 4) =~= offsets_bytes(p).subrange(
                    4 * i,
                    4 * i + 4,
                ));
            } else {
                assert(offsets_bytes(s).subrange(4 * i, 4 * i + 4) =~= spec_u32_to_le_bytes(
                    s.last(),
                ));
            }
        }
    }
}

proof fn lemma_edges_bytes(s: Seq<AosEdge>)
    ensures
        edges_bytes(s).len() == 12 * s.len(),
        forall|j: int| 0 <= j < s.len() ==>
            #[trigger] edges_bytes(s).subrange(12 * j, 12 * j + 12) == edge_bytes(s[j]),
    decreases s.len(),
{
    lemma_auto_spec_u32_to_from_le_bytes();
    lemma_auto_spec_u64_to_from_le_bytes();
    if s.len() > 0 {
        let p = s.drop_last();
        lemma_edges_bytes(p);
        assert(edge_bytes(s.last()).len() == 12);
        assert forall|j: int| 0 <= j < s.len() implies #[trigger] edges_bytes(s).subrange(
            12 * j,
            12 * j + 12,
        ) == edge_bytes(s[j]) by {
            if j < p.len() {
                assert(edges_bytes(s).subrange(12 * j, 12 * j + 12) =~= edges_bytes(p).subrange(
                    12 * j,
                    12 * j + 12,
                ));
            } else {
                assert(edges_bytes(s).subrange(12 * j, 12 * j + 12) =~= edge_bytes(s.last()));
            }
        }
    }
}

/// Decoding an encoding gives back the graph that was encoded: the encoding of
/// a graph with `node_count + 1` offsets is well formed, and the node count,
/// offsets and edges read from it are the graph's own.
pub proof fn lemma_encoding_round_trip(offsets: Seq<u32>, edges: Seq<AosEdge>, node_count: nat)
    requires
        offsets.len() == node_count + 1,
        node_count <= u64::MAX,
        edges.len() <= u64::MAX,
    ensures
        ({
            let bytes = encoding(offsets, edges, node_count);
            &&& well_formed_encoding(bytes)
            &&& header_node_count(bytes) == node_count
            &&& header_edge_count(bytes) == edges.len()
            &&& forall|i: int| 0 <= i < offsets.len() ==> #[trigger] decoded_offset(bytes, 24, i) == offsets[i]
            &&& forall|j: int| 0 <= j < edges.len() ==>
                #[trigger] decoded_edge(bytes, 24 + 4 * offsets.len() as int, j) == edges[j]
        }),
{
    lemma_auto_spec_u32_to_from_le_bytes();
    lemma_auto_spec_u64_to_from_le_bytes();
    lemma_offsets_bytes(offsets);
    lemma_edges_bytes(edges);
    let h = header_bytes(node_count as u64, edges.len() as u64);
    let ob = offsets_bytes(offsets);
    let eb = edges_bytes(edges);
    let bytes = encoding(offsets, edges, node_count);
    assert(h.len() == 24);
    assert(bytes.subrange(0, 4) =~= magic_bytes());
    assert(bytes.subrange(4, 8) =~= spec_u32_to_le_bytes(1));
    assert(bytes.subrange(8, 16) =~= spec_u64_to_le_bytes(node_count as u64));
    assert(bytes.subrange(16, 24) =~= spec_u64_to_le_bytes(edges.len() as u64));
    assert forall|i: int| 0 <= i < offsets.len() implies #[trigger] decoded_offset(bytes, 24, i)
        == offsets[i] by {
        assert(bytes.subrange(24 + 4 * i, 24 + 4 * i + 4) =~= ob.subrange(4 * i, 4 * i + 4));
    }
    let start: int = 24 + 4 * offsets.len() as int;
    assert forall|j: int| 0 <= j < edges.len() implies #[trigger] decoded_edge(bytes, start, j)
        == edges[j] by {
        let e = edge_bytes(edges[j]);
        assert(bytes.subrange(start + 12 * j, start + 12 * j + 12) =~= eb.subrange(12 * j, 12 * j + 12));
        assert(bytes.subrange(start + 12 * j, start + 12 * j + 4) =~= e.subrange(0, 4));
        assert(e.subrange(0, 4) =~= spec_u32_to_le_bytes(edges[j].target));
        assert(bytes.subrange(start + 12 * j + 4, start + 12 * j + 12) =~= e.subrange(4, 12));
        assert(e.subrange(4, 12) =~= spec_u64_to_le_bytes(edges[j].weight_bits));
    }
}


impl CsrAosGraph {
    /// The binary encoding of the graph: the header, every offset, then every
    /// edge, all little-endian.
    pub fn to_bytes(&self) -> (res: Vec<u8>)
        ensures
            res@ == encoding(self.offsets@, self.edges@, self.node_count as nat),
    {
        let mut out: Vec<u8> = Vec::new();
        out.push(0x44u8);
        out.push(0x55u8);
        out.push(0x41u8);
        out.push(0x4eu8);
        let mut version = u32_to_le_bytes(1);
        out.append(&mut version);
        let mut n = u64_to_le_bytes(self.node_count as u64);
        out.append(&mut n);
        let mut m = u64_to_le_bytes(self.edges.len() as u64);
        out.append(&mut m);
        let ghost header = header_bytes(self.node_count as u64, self.edges@.len() as u64);
        assert(out@ =~= header);
        let mut i: usize = 0;
        while i < self.offsets.len()
            invariant
                i <= self.offsets@.len(),
                out@ == header + offsets_bytes(self.offsets@.take(i as int)),
            decreases self.offsets@.len() - i,
        {
            let mut b = u32_to_le_bytes(self.offsets[i]);
            out.append(&mut b);
            assert(self.offsets@.take(i + 1).drop_last() =~= self.offsets@.take(i as int));
            assert(out@ =~= header + offsets_bytes(self.offsets@.take(i + 1)));
            i = i + 1;
        }
        assert(self.offsets@.take(i as int) =~= self.offsets@);
        let ghost prefix = out@;
        let mut j: usize = 0;
        while j < self.edges.len()
            invariant
                j <= self.edges@.len(),
                out@ == prefix + edges_bytes(self.edges@.take(j as int)),
            decreases self.edges@.len() - j,
        {
            let e = self.edges[j];
            let mut t = u32_to_le_bytes(e.target);
            out.append(&mut t);
            let mut w = u64_to_le_bytes(e.weight_bits);
            out.append(&mut w);
            assert(self.edges@.take(j + 1).drop_last() =~= self.edges@.take(j as int));
            assert(out@ =~= prefix + edges_bytes(self.edges@.take(j + 1)));
            j = j + 1;
        }
        assert(self.edges@.take(j as int) =~= self.edges@);
        out
    }

    /// Reads a graph from its binary encoding. Bytes after the announced edges
    /// are ignored; the offsets are taken as they stand, without checking them.
    pub fn from_bytes(bytes: &[u8]) -> (res: Result<Self, GraphReadError>)
        ensures
            match res {
                Ok(g) => {
                    &&& well_formed_encoding(bytes@)
                    &&& g.node_count == header_node_count(bytes@)
                    &&& g.offsets@.len() == g.node_count + 1
                    &&& g.edges@.len() == header_edge_count(bytes@)
                    &&& forall|i: int| 0 <= i < g.offsets@.len() ==>
                        #[trigger] g.offsets@[i] == decoded_offset(bytes@, 24, i)
                    &&& forall|j: int| 0 <= j < g.edges@.len() ==>
                        #[trigger] g.edges@[j] == decoded_edge(bytes@, 24 + 4 * g.offsets@.len() as int, j)
                },
                Err(e) => !well_formed_encoding(bytes@) && e == read_error(bytes@),
            },
    {
        if bytes.len() < 4 {
            return Err(GraphReadError::UnexpectedEof);
        }
        let magic_ok = bytes[0] == 0x44u8 && bytes[1] == 0x55u8 && bytes[2] == 0x41u8
            && bytes[3] == 0x4eu8;
        assert(magic_ok <==> bytes@.subrange(0, 4) =~= magic_bytes());
        if !magic_ok {
            return Err(GraphReadError::BadMagic);
        }
        if bytes.len() < 8 {
            return Err(GraphReadError::UnexpectedEof);
        }
        let version = u32_from_le_bytes(slice_subrange(bytes, 4, 8));
        if version != 1 {
            return Err(GraphReadError::UnknownVersion);
        }
        if bytes.len() < 24 {
            return Err(GraphReadError::UnexpectedEof);
        }
        let n = u64_from_le_bytes(slice_subrange(bytes, 8, 16));
        let m = u64_from_le_bytes(slice_subrange(bytes, 16, 24));
        let need: u128 = 24 + 4 * (n as u128 + 1) + 12 * (m as u128);
        if (bytes.len() as u128) < need {
            return Err(GraphReadError::UnexpectedEof);
        }
        let len = bytes.len();
        let node_count = n as usize;
        let count = node_count + 1;
        let mut offsets: Vec<u32> = Vec::new();
        let mut i: usize = 0;
        while i < count
            invariant
                count == n + 1,
                i <= count,
                24 + 4 * count + 12 * m <= bytes@.len(),
                len == bytes@.len(),
                offsets@.len() == i,
                forall|k: int| 0 <= k < i ==> #[trigger] offsets@[k] == decoded_offset(bytes@, 24, k),
            decreases count - i,
        {
            let pos = 24 + 4 * i;
            offsets.push(u32_from_le_bytes(slice_subrange(bytes, pos, pos + 4)));
            i = i + 1;
        }
        let base = 24 + 4 * count;
        let edge_count = m as usize;
        let mut edges: Vec<AosEdge> = Vec::new();
        let mut j: usize = 0;
        while j < edge_count
            invariant
                edge_count == m,
                base == 24 + 4 * count,
                j <= edge_count,
                base + 12 * m <= bytes@.len(),
                len == bytes@.len(),
                edges@.len() == j,
                forall|k: int| 0 <= k < j ==> #[trigger] edges@[k] == decoded_edge(bytes@, base as int, k),
            decreases edge_count - j,
        {
            let pos = base + 12 * j;
            let target = u32_from_le_bytes(slice_subrange(bytes, pos, pos + 4));
            let weight_bits = u64_from_le_bytes(slice_subrange(bytes, pos + 4, pos + 12));
            edges.push(AosEdge { weight_bits, target });
            j = j + 1;
        }
        Ok(CsrAosGraph { offsets, edges, node_count })
    }
}

} // verus!
