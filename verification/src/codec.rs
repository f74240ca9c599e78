//! Persistence codec, native format: the node and edge sequences are
//! framed as length-prefixed little-endian records, and the frame is
//! compressed with a zlib stream (flate2) at best compression. The
//! frame layout, per graph: the node count, then id/lon/lat per node
//! (eight bytes each); the edge count, then source/target/weight and
//! a length-prefixed tag per edge. Decoding is exact: a frame
//! determines the graph, byte for byte (`lemma_frame_injective`).

use vstd::prelude::*;

use crate::model::{edge_models, Edge, Node, SerializableGraph};
use crate::GraphError;
use std::io::Read;
use std::io::Write;

verus! {

/// Eight little-endian bytes of a 64-bit value.
pub open spec fn u64le(x: u64) -> Seq<u8> {
    vstd::bytes::spec_u64_to_le_bytes(x)
}

/// The 24 frame bytes of one node.
pub open spec fn node_bytes(n: Node) -> Seq<u8> {
    u64le(n.id as u64) + (u64le(n.lon as u64) + u64le(n.lat as u64))
}

/// The frame bytes of a node sequence.
pub open spec fn nodes_bytes(ns: Seq<Node>) -> Seq<u8>
    decreases ns.len(),
{
    if ns.len() == 0 {
        Seq::empty()
    } else {
        nodes_bytes(ns.drop_last()) + node_bytes(ns.last())
    }
}

/// The frame bytes of one edge: three fixed words, then the tag
/// prefixed by its length.
pub open spec fn edge_bytes(e: Edge) -> Seq<u8> {
    u64le(e.source as u64) + (u64le(e.target as u64) + (u64le(e.weight) + (u64le(
        e.highway_tag@.len() as u64,
    ) + e.highway_tag@)))
}

/// The frame bytes of an edge sequence.
pub open spec fn edges_bytes(es: Seq<Edge>) -> Seq<u8>
    decreases es.len(),
{
    if es.len() == 0 {
        Seq::empty()
    } else {
        edges_bytes(es.drop_last()) + edge_bytes(es.last())
    }
}

/// The whole frame of a graph.
pub open spec fn frame_spec(g: SerializableGraph) -> Seq<u8> {
    u64le(g.nodes@.len() as u64) + (nodes_bytes(g.nodes@) + (u64le(g.edges@.len() as u64)
        + edges_bytes(g.edges@)))
}

/// All counts and tags of the graph fit the machine: true of every
/// graph held in vectors, and needed for a frame to determine its
/// graph.
pub open spec fn frame_sized(g: SerializableGraph) -> bool {
    &&& g.nodes@.len() <= usize::MAX
    &&& g.edges@.len() <= usize::MAX
    &&& forall|x: int|
        0 <= x < g.edges@.len() ==> (#[trigger] g.edges@[x]).highway_tag@.len() <= usize::MAX
}

/// Concatenation is associative.
proof fn lemma_add_assoc(x: Seq<u8>, y: Seq<u8>, z: Seq<u8>)
    ensures
        x + (y + z) == (x + y) + z,
{
    assert(x + (y + z) =~= (x + y) + z);
}

/// Splitting equal concatenations at equal lengths.
proof fn lemma_concat_split(a: Seq<u8>, b: Seq<u8>, c: Seq<u8>, d: Seq<u8>)
    requires
        a + b == c + d,
        a.len() == c.len(),
    ensures
        a == c,
        b == d,
{
    assert((a + b).len() == a.len() + b.len());
    assert((c + d).len() == c.len() + d.len());
    assert forall|i: int| 0 <= i < a.len() implies a[i] == c[i] by {
        assert((a + b)[i] == a[i]);
        assert((c + d)[i] == c[i]);
    }
    assert(a =~= c);
    assert forall|i: int| 0 <= i < b.len() implies b[i] == d[i] by {
        assert((a + b)[a.len() as int + i] == b[i]);
        assert((c + d)[c.len() as int + i] == d[i]);
    }
    assert(b =~= d);
}

/// Peeling one 64-bit word off the front of equal byte streams.
proof fn lemma_peel_u64(v: u64, r: Seq<u8>, w: u64, r2: Seq<u8>)
    requires
        u64le(v) + r == u64le(w) + r2,
    ensures
        v == w,
        r == r2,
{
    vstd::bytes::lemma_auto_spec_u64_to_from_le_bytes();
    lemma_concat_split(u64le(v), r, u64le(w), r2);
}

/// Casting to `u64` loses no information about an `i64`.
proof fn lemma_i64_cast_inj(x: i64, y: i64)
    requires
        x as u64 == y as u64,
    ensures
        x == y,
{
    assert(x as u64 == y as u64 ==> x == y) by (bit_vector);
}

/// Node frames have 24 bytes per node.
proof fn lemma_nodes_bytes_len(ns: Seq<Node>)
    ensures
        nodes_bytes(ns).len() == 24 * ns.len(),
    decreases ns.len(),
{
    vstd::bytes::lemma_auto_spec_u64_to_from_le_bytes();
    if ns.len() > 0 {
        lemma_nodes_bytes_len(ns.drop_last());
    }
}

/// One edge frame holds 32 bytes plus its tag.
proof fn lemma_edge_bytes_len(e: Edge)
    ensures
        edge_bytes(e).len() == 32 + e.highway_tag@.len(),
{
    vstd::bytes::lemma_auto_spec_u64_to_from_le_bytes();
}

/// A node frame starts with its first node.
proof fn lemma_nodes_bytes_front(ns: Seq<Node>)
    requires
        ns.len() > 0,
    ensures
        nodes_bytes(ns) == node_bytes(ns[0]) + nodes_bytes(ns.drop_first()),
    decreases ns.len(),
{
    if ns.len() == 1 {
        assert(ns.drop_last() =~= Seq::<Node>::empty());
        assert(ns.drop_first() =~= Seq::<Node>::empty());
        assert(ns.last() == ns[0]);
        assert(nodes_bytes(ns) =~= node_bytes(ns[0]) + nodes_bytes(ns.drop_first()));
    } else {
        let h = ns.drop_last();
        lemma_nodes_bytes_front(h);
        assert(h[0] == ns[0]);
        assert(h.drop_first() =~= ns.drop_first().drop_last());
        assert(ns.drop_first().last() == ns.last());
        assert(nodes_bytes(ns.drop_first()) == nodes_bytes(ns.drop_first().drop_last())
            + node_bytes(ns.last()));
        assert(nodes_bytes(ns) =~= node_bytes(ns[0]) + nodes_bytes(ns.drop_first()));
    }
}

/// An edge frame starts with its first edge.
proof fn lemma_edges_bytes_front(es: Seq<Edge>)
    requires
        es.len() > 0,
    ensures
        edges_bytes(es) == edge_bytes(es[0]) + edges_bytes(es.drop_first()),
    decreases es.len(),
{
    if es.len() == 1 {
        assert(es.drop_last() =~= Seq::<Edge>::empty());
        assert(es.drop_first() =~= Seq::<Edge>::empty());
        assert(es.last() == es[0]);
        assert(edges_bytes(es) =~= edge_bytes(es[0]) + edges_bytes(es.drop_first()));
    } else {
        let h = es.drop_last();
        lemma_edges_bytes_front(h);
        assert(h[0] == es[0]);
        assert(h.drop_first() =~= es.drop_first().drop_last());
        assert(es.drop_first().last() == es.last());
        assert(edges_bytes(es.drop_first()) == edges_bytes(es.drop_first().drop_last())
            + edge_bytes(es.last()));
        assert(edges_bytes(es) =~= edge_bytes(es[0]) + edges_bytes(es.drop_first()));
    }
}

/// Equal-length node sequences with matching frames are equal, and
/// whatever follows the frames matches too.
proof fn lemma_nodes_bytes_split(a: Seq<Node>, r: Seq<u8>, b: Seq<Node>, r2: Seq<u8>)
    requires
        nodes_bytes(a) + r == nodes_bytes(b) + r2,
        a.len() == b.len(),
    ensures
        a == b,
        r == r2,
    decreases a.len(),
{
    if a.len() == 0 {
        assert(nodes_bytes(a) + r =~= r);
        assert(nodes_bytes(b) + r2 =~= r2);
        assert(a =~= b);
    } else {
        lemma_nodes_bytes_front(a);
        lemma_nodes_bytes_front(b);
        vstd::bytes::lemma_auto_spec_u64_to_from_le_bytes();
        let a0 = a[0];
        let b0 = b[0];
        assert((node_bytes(a0) + nodes_bytes(a.drop_first())) + r == (node_bytes(b0)
            + nodes_bytes(b.drop_first())) + r2);
        assert(node_bytes(a0) + (nodes_bytes(a.drop_first()) + r) =~= (node_bytes(a0)
            + nodes_bytes(a.drop_first())) + r);
        assert(node_bytes(b0) + (nodes_bytes(b.drop_first()) + r2) =~= (node_bytes(b0)
            + nodes_bytes(b.drop_first())) + r2);
        lemma_concat_split(
            node_bytes(a0),
            nodes_bytes(a.drop_first()) + r,
            node_bytes(b0),
            nodes_bytes(b.drop_first()) + r2,
        );
        assert(u64le(a0.id as u64) + (u64le(a0.lon as u64) + u64le(a0.lat as u64)) == u64le(
            b0.id as u64,
        ) + (u64le(b0.lon as u64) + u64le(b0.lat as u64)));
        lemma_peel_u64(
            a0.id as u64,
            u64le(a0.lon as u64) + u64le(a0.lat as u64),
            b0.id as u64,
            u64le(b0.lon as u64) + u64le(b0.lat as u64),
        );
        lemma_peel_u64(a0.lon as u64, u64le(a0.lat as u64), b0.lon as u64, u64le(b0.lat as u64));
        assert(a0.lat as u64 == b0.lat as u64) by {
            assert(vstd::bytes::spec_u64_from_le_bytes(u64le(a0.lat as u64)) == a0.lat as u64);
            assert(vstd::bytes::spec_u64_from_le_bytes(u64le(b0.lat as u64)) == b0.lat as u64);
        }
        lemma_i64_cast_inj(a0.id, b0.id);
        lemma_i64_cast_inj(a0.lon, b0.lon);
        lemma_i64_cast_inj(a0.lat, b0.lat);
        assert(a0 == b0);
        lemma_nodes_bytes_split(a.drop_first(), r, b.drop_first(), r2);
        assert forall|i: int| 0 <= i < a.len() implies a[i] == b[i] by {
            if i > 0 {
                assert(a.drop_first()[i - 1] == b.drop_first()[i - 1]);
            }
        }
        assert(a =~= b);
    }
}

/// A shorter edge sequence whose frame is a prefix of another's
/// matches that other's edges, field for field, and the remainder is
/// the frame of the remaining edges.
proof fn lemma_edges_bytes_split(a: Seq<Edge>, r: Seq<u8>, b: Seq<Edge>, r2: Seq<u8>)
    requires
        edges_bytes(a) + r == edges_bytes(b) + r2,
        a.len() <= b.len(),
        forall|x: int| 0 <= x < a.len() ==> (#[trigger] a[x]).highway_tag@.len() <= usize::MAX,
        forall|x: int| 0 <= x < b.len() ==> (#[trigger] b[x]).highway_tag@.len() <= usize::MAX,
    ensures
        forall|x: int| 0 <= x < a.len() ==> edge_models(a[x], b[x]),
        r == edges_bytes(b.skip(a.len() as int)) + r2,
    decreases a.len(),
{
    if a.len() == 0 {
        assert(edges_bytes(a) + r =~= r);
        assert(b.skip(0) =~= b);
    } else {
        lemma_edges_bytes_front(a);
        lemma_edges_bytes_front(b);
        vstd::bytes::lemma_auto_spec_u64_to_from_le_bytes();
        let a0 = a[0];
        let b0 = b[0];
        let ta = a0.highway_tag@;
        let tb = b0.highway_tag@;
        let ra = edges_bytes(a.drop_first()) + r;
        let rb = edges_bytes(b.drop_first()) + r2;
        lemma_add_assoc(edge_bytes(a0), edges_bytes(a.drop_first()), r);
        lemma_add_assoc(edge_bytes(b0), edges_bytes(b.drop_first()), r2);
        assert(edge_bytes(a0) + ra == edge_bytes(b0) + rb);

        let pa1 = u64le(a0.target as u64) + (u64le(a0.weight) + (u64le(ta.len() as u64) + ta));
        let pb1 = u64le(b0.target as u64) + (u64le(b0.weight) + (u64le(tb.len() as u64) + tb));
        lemma_add_assoc(u64le(a0.source as u64), pa1, ra);
        lemma_add_assoc(u64le(b0.source as u64), pb1, rb);
        lemma_peel_u64(a0.source as u64, pa1 + ra, b0.source as u64, pb1 + rb);

        let pa2 = u64le(a0.weight) + (u64le(ta.len() as u64) + ta);
        let pb2 = u64le(b0.weight) + (u64le(tb.len() as u64) + tb);
        lemma_add_assoc(u64le(a0.target as u64), pa2, ra);
        lemma_add_assoc(u64le(b0.target as u64), pb2, rb);
        lemma_peel_u64(a0.target as u64, pa2 + ra, b0.target as u64, pb2 + rb);

        let pa3 = u64le(ta.len() as u64) + ta;
        let pb3 = u64le(tb.len() as u64) + tb;
        lemma_add_assoc(u64le(a0.weight), pa3, ra);
        lemma_add_assoc(u64le(b0.weight), pb3, rb);
        lemma_peel_u64(a0.weight, pa3 + ra, b0.weight, pb3 + rb);

        lemma_add_assoc(u64le(ta.len() as u64), ta, ra);
        lemma_add_assoc(u64le(tb.len() as u64), tb, rb);
        lemma_peel_u64(ta.len() as u64, ta + ra, tb.len() as u64, tb + rb);
        assert(ta.len() == tb.len());
        lemma_concat_split(ta, ra, tb, rb);
        assert(a0.source == b0.source && a0.target == b0.target);
        assert(edge_models(a0, b0));
        lemma_edges_bytes_split(a.drop_first(), r, b.drop_first(), r2);
        assert forall|x: int| 0 <= x < a.len() implies edge_models(a[x], b[x]) by {
            if x > 0 {
                assert(edge_models(a.drop_first()[x - 1], b.drop_first()[x - 1]));
            }
        }
        assert(b.drop_first().skip(a.len() - 1) =~= b.skip(a.len() as int));
    }
}

/// A frame determines its graph: two well-formed graphs with the
/// same frame agree node for node and edge for edge.
pub proof fn lemma_frame_injective(g1: SerializableGraph, g2: SerializableGraph)
    requires
        frame_spec(g1) == frame_spec(g2),
        frame_sized(g1),
        frame_sized(g2),
    ensures
        g1.nodes@ == g2.nodes@,
        g1.edges@.len() == g2.edges@.len(),
        forall|x: int| 0 <= x < g1.edges@.len() ==> edge_models(g1.edges@[x], g2.edges@[x]),
{
    vstd::bytes::lemma_auto_spec_u64_to_from_le_bytes();
    lemma_peel_u64(
        g1.nodes@.len() as u64,
        nodes_bytes(g1.nodes@) + (u64le(g1.edges@.len() as u64) + edges_bytes(g1.edges@)),
        g2.nodes@.len() as u64,
        nodes_bytes(g2.nodes@) + (u64le(g2.edges@.len() as u64) + edges_bytes(g2.edges@)),
    );
    assert(g1.nodes@.len() == g2.nodes@.len());
    lemma_nodes_bytes_split(
        g1.nodes@,
        u64le(g1.edges@.len() as u64) + edges_bytes(g1.edges@),
        g2.nodes@,
        u64le(g2.edges@.len() as u64) + edges_bytes(g2.edges@),
    );
    lemma_peel_u64(
        g1.edges@.len() as u64,
        edges_bytes(g1.edges@),
        g2.edges@.len() as u64,
        edges_bytes(g2.edges@),
    );
    assert(g1.edges@.len() == g2.edges@.len());
    assert(edges_bytes(g1.edges@) + Seq::<u8>::empty() =~= edges_bytes(g1.edges@));
    assert(edges_bytes(g2.edges@) + Seq::<u8>::empty() =~= edges_bytes(g2.edges@));
    lemma_edges_bytes_split(g1.edges@, Seq::empty(), g2.edges@, Seq::empty());
}

/// The total length of a frame.
proof fn lemma_frame_len(g: SerializableGraph)
    ensures
        frame_spec(g).len() == 16 + 24 * g.nodes@.len() + edges_bytes(g.edges@).len(),
{
    vstd::bytes::lemma_auto_spec_u64_to_from_le_bytes();
    lemma_nodes_bytes_len(g.nodes@);
}

/// Reading the frame's head: the first word of a graph's frame is
/// its node count.
proof fn lemma_frame_head(g: SerializableGraph, bytes: Seq<u8>, n8: u64)
    requires
        frame_spec(g) == bytes,
        frame_sized(g),
        bytes.len() >= 8,
        u64le(n8) == bytes.subrange(0, 8),
    ensures
        g.nodes@.len() == n8,
        bytes.len() == 16 + 24 * g.nodes@.len() + edges_bytes(g.edges@).len(),
{
    vstd::bytes::lemma_auto_spec_u64_to_from_le_bytes();
    lemma_frame_len(g);
    assert(bytes =~= bytes.subrange(0, 8) + bytes.skip(8));
    lemma_peel_u64(
        n8,
        bytes.skip(8),
        g.nodes@.len() as u64,
        nodes_bytes(g.nodes@) + (u64le(g.edges@.len() as u64) + edges_bytes(g.edges@)),
    );
}

/// Relating a parse in progress to a hypothetical graph with this
/// frame: the parsed counts, nodes and edges so far are the graph's
/// own, and what remains to read is the frame of its remaining
/// edges.
proof fn lemma_frame_stage(
    g: SerializableGraph,
    bytes: Seq<u8>,
    n8: u64,
    nds: Seq<Node>,
    m8: u64,
    eacc: Seq<Edge>,
    pos: int,
)
    requires
        frame_spec(g) == bytes,
        frame_sized(g),
        nds.len() == n8,
        eacc.len() <= m8,
        0 <= pos <= bytes.len(),
        forall|x: int|
            0 <= x < eacc.len() ==> (#[trigger] eacc[x]).highway_tag@.len() <= usize::MAX,
        ((u64le(n8) + nodes_bytes(nds)) + u64le(m8)) + edges_bytes(eacc) == bytes.subrange(
            0,
            pos,
        ),
    ensures
        g.nodes@.len() == n8,
        g.nodes@ == nds,
        g.edges@.len() == m8,
        forall|x: int| 0 <= x < eacc.len() ==> edge_models(eacc[x], g.edges@[x]),
        bytes.skip(pos) == edges_bytes(g.edges@.skip(eacc.len() as int)),
{
    vstd::bytes::lemma_auto_spec_u64_to_from_le_bytes();
    assert(bytes =~= bytes.subrange(0, pos) + bytes.skip(pos));
    let tail0 = bytes.skip(pos);
    let ea = edges_bytes(eacc);
    let nb = nodes_bytes(nds);
    lemma_add_assoc((u64le(n8) + nb) + u64le(m8), ea, tail0);
    lemma_add_assoc(u64le(n8) + nb, u64le(m8), ea + tail0);
    lemma_add_assoc(u64le(n8), nb, u64le(m8) + (ea + tail0));
    assert(u64le(n8) + (nb + (u64le(m8) + (ea + tail0))) == bytes);
    lemma_peel_u64(
        n8,
        nb + (u64le(m8) + (ea + tail0)),
        g.nodes@.len() as u64,
        nodes_bytes(g.nodes@) + (u64le(g.edges@.len() as u64) + edges_bytes(g.edges@)),
    );
    assert(g.nodes@.len() == n8);
    lemma_nodes_bytes_split(
        nds,
        u64le(m8) + (ea + tail0),
        g.nodes@,
        u64le(g.edges@.len() as u64) + edges_bytes(g.edges@),
    );
    lemma_peel_u64(m8, ea + tail0, g.edges@.len() as u64, edges_bytes(g.edges@));
    assert(g.edges@.len() == m8);
    assert(edges_bytes(g.edges@) + Seq::<u8>::empty() =~= edges_bytes(g.edges@));
    lemma_edges_bytes_split(eacc, tail0, g.edges@, Seq::empty());
    assert(tail0 =~= edges_bytes(g.edges@.skip(eacc.len() as int)) + Seq::<u8>::empty());
    assert(edges_bytes(g.edges@.skip(eacc.len() as int)) + Seq::<u8>::empty()
        =~= edges_bytes(g.edges@.skip(eacc.len() as int)));
}

/// Reading one edge's head off a frame remainder.
proof fn lemma_edge_head(
    e: Edge,
    rest: Seq<u8>,
    s8: u64,
    t8: u64,
    w8: u64,
    tl8: u64,
    rr: Seq<u8>,
)
    requires
        edge_bytes(e) + rest == u64le(s8) + (u64le(t8) + (u64le(w8) + (u64le(tl8) + rr))),
    ensures
        e.source as u64 == s8,
        e.target as u64 == t8,
        e.weight == w8,
        e.highway_tag@.len() as u64 == tl8,
        e.highway_tag@ + rest == rr,
{
    vstd::bytes::lemma_auto_spec_u64_to_from_le_bytes();
    let ta = e.highway_tag@;
    let p1 = u64le(e.target as u64) + (u64le(e.weight) + (u64le(ta.len() as u64) + ta));
    lemma_add_assoc(u64le(e.source as u64), p1, rest);
    lemma_peel_u64(e.source as u64, p1 + rest, s8, u64le(t8) + (u64le(w8) + (u64le(tl8) + rr)));
    let p2 = u64le(e.weight) + (u64le(ta.len() as u64) + ta);
    lemma_add_assoc(u64le(e.target as u64), p2, rest);
    lemma_peel_u64(e.target as u64, p2 + rest, t8, u64le(w8) + (u64le(tl8) + rr));
    let p3 = u64le(ta.len() as u64) + ta;
    lemma_add_assoc(u64le(e.weight), p3, rest);
    lemma_peel_u64(e.weight, p3 + rest, w8, u64le(tl8) + rr);
    lemma_add_assoc(u64le(ta.len() as u64), ta, rest);
    lemma_peel_u64(ta.len() as u64, ta + rest, tl8, rr);
}

/// Round trip of the unsigned view of an `i64`.
proof fn lemma_u64_i64_roundtrip(x: u64)
    ensures
        (x as i64) as u64 == x,
{
    assert((x as i64) as u64 == x) by (bit_vector);
}

/// Appends the eight little-endian bytes of a word to a buffer.
fn push_u64(buf: &mut Vec<u8>, x: u64)
    ensures
        final(buf)@ == old(buf)@ + u64le(x),
{
    let mut w = vstd::bytes::u64_to_le_bytes(x);
    buf.append(&mut w);
}

/// Reads a 64-bit little-endian word at a byte offset.
fn read_u64(bytes: &[u8], pos: usize) -> (x: u64)
    requires
        pos + 8 <= bytes@.len(),
        bytes@.len() <= usize::MAX,
    ensures
        u64le(x) == bytes@.subrange(pos as int, pos as int + 8),
{
    proof {
        vstd::bytes::lemma_auto_spec_u64_to_from_le_bytes();
    }
    let s = vstd::slice::slice_subrange(bytes, pos, pos + 8);
    vstd::bytes::u64_from_le_bytes(s)
}

/// The compressed stream that flate2's zlib encoder produces for
/// given input bytes, at best compression.
pub uninterp spec fn deflate_of(data: Seq<u8>) -> Seq<u8>;

/// What flate2's zlib decoder yields for given input bytes: the
/// decompressed payload, or nothing when the stream is not valid
/// zlib data.
pub uninterp spec fn inflate_of(data: Seq<u8>) -> Option<Seq<u8>>;

/// Relies on flate2's `ZlibEncoder` at best compression: the
/// compressed stream is a function of the input bytes alone, and
/// zlib compression is lossless, so decoding it yields the input
/// again. Writing into a `Vec` sink cannot fail.
#[verifier::external_body]
fn zlib_compress(data: &Vec<u8>) -> (r: Vec<u8>)
    ensures
        r@ == deflate_of(data@),
        inflate_of(r@) == Some(data@),
{
    let mut enc = flate2::write::ZlibEncoder::new(Vec::new(), flate2::Compression::best());
    enc.write_all(data.as_slice()).expect("writing to a Vec sink cannot fail");
    enc.finish().expect("writing to a Vec sink cannot fail")
}

/// Relies on flate2's `ZlibDecoder`: decompression is a function of
/// the input bytes alone; it succeeds exactly on valid zlib streams
/// and yields their payload. In particular zlib is lossless, so an
/// input that the encoder produced decompresses to what was encoded.
#[verifier::external_body]
fn zlib_decompress(data: &Vec<u8>) -> (r: Option<Vec<u8>>)
    ensures
        match r {
            Some(v) => inflate_of(data@) == Some(v@) && forall|s: Seq<u8>|
                data@ == deflate_of(s) ==> v@ == s,
            None => inflate_of(data@) is None && forall|s: Seq<u8>| data@ != deflate_of(s),
        },
{
    let mut dec = flate2::read::ZlibDecoder::new(data.as_slice());
    let mut out = Vec::new();
    match dec.read_to_end(&mut out) {
        Ok(_) => Some(out),
        Err(_) => None,
    }
}

impl SerializableGraph {
    /// Produces the uncompressed frame of this graph.
    pub fn frame(&self) -> (r: Vec<u8>)
        ensures
            r@ == frame_spec(*self),
    {
        let mut buf: Vec<u8> = Vec::new();
        let nn = self.nodes.len();
        let mm = self.edges.len();
        push_u64(&mut buf, nn as u64);
        let mut i: usize = 0;
        while i < nn
            invariant
                0 <= i <= nn,
                nn == self.nodes@.len(),
                buf@ == u64le(nn as u64) + nodes_bytes(self.nodes@.take(i as int)),
            decreases nn - i,
        {
            let nd = self.nodes[i];
            push_u64(&mut buf, nd.id as u64);
            push_u64(&mut buf, nd.lon as u64);
            push_u64(&mut buf, nd.lat as u64);
            proof {
                let t1 = self.nodes@.take(i as int + 1);
                assert(t1.drop_last() =~= self.nodes@.take(i as int));
                assert(t1.last() == self.nodes@[i as int]);
                assert(buf@ =~= u64le(nn as u64) + nodes_bytes(t1));
            }
            i = i + 1;
        }
        proof {
            assert(self.nodes@.take(nn as int) =~= self.nodes@);
        }
        push_u64(&mut buf, mm as u64);
        let ghost hdr = u64le(nn as u64) + nodes_bytes(self.nodes@) + u64le(mm as u64);
        let mut k: usize = 0;
        while k < mm
            invariant
                0 <= k <= mm,
                mm == self.edges@.len(),
                hdr == u64le(nn as u64) + nodes_bytes(self.nodes@) + u64le(mm as u64),
                buf@ == hdr + edges_bytes(self.edges@.take(k as int)),
            decreases mm - k,
        {
            let e = &self.edges[k];
            push_u64(&mut buf, e.source as u64);
            push_u64(&mut buf, e.target as u64);
            push_u64(&mut buf, e.weight);
            push_u64(&mut buf, e.highway_tag.len() as u64);
            let mut tagcopy = crate::builder::bytes_clone(&e.highway_tag);
            buf.append(&mut tagcopy);
            proof {
                let t1 = self.edges@.take(k as int + 1);
                assert(t1.drop_last() =~= self.edges@.take(k as int));
                assert(t1.last() == self.edges@[k as int]);
                assert(buf@ =~= hdr + edges_bytes(t1));
            }
            k = k + 1;
        }
        proof {
            assert(self.edges@.take(mm as int) =~= self.edges@);
            assert(buf@ =~= frame_spec(*self));
        }
        buf
    }

    /// Parses a frame back into a graph. Succeeds exactly on the
    /// frames of well-formed graphs, and returns the one graph the
    /// frame spells.
    pub fn decode_frame(bytes: &[u8]) -> (r: Result<SerializableGraph, GraphError>)
        ensures
            match r {
                Ok(sg) => sg.wf() && frame_sized(sg) && frame_spec(sg) == bytes@,
                Err(e) => e == GraphError::SourceFormat && (forall|g: SerializableGraph|
                    g.wf() && frame_sized(g) ==> frame_spec(g) != bytes@),
            },
    {
        let len = bytes.len();
        if len < 16 {
            proof {
                assert forall|g: SerializableGraph| g.wf() && frame_sized(g) implies frame_spec(g)
                    != bytes@ by {
                    lemma_frame_len(g);
                }
            }
            return Err(GraphError::SourceFormat);
        }
        let n8 = read_u64(bytes, 0);
        let nb24 = match n8.checked_mul(24) {
            Some(v) => v,
            None => {
                proof {
                    assert forall|g: SerializableGraph|
                        g.wf() && frame_sized(g) implies frame_spec(g) != bytes@ by {
                        if frame_spec(g) == bytes@ {
                            lemma_frame_head(g, bytes@, n8);
                        }
                    }
                }
                return Err(GraphError::SourceFormat);
            },
        };
        if nb24 > (len as u64) - 16 {
            proof {
                assert forall|g: SerializableGraph| g.wf() && frame_sized(g) implies frame_spec(g)
                    != bytes@ by {
                    if frame_spec(g) == bytes@ {
                        lemma_frame_head(g, bytes@, n8);
                    }
                }
            }
            return Err(GraphError::SourceFormat);
        }
        let nn = n8 as usize;
        let mut nds: Vec<Node> = Vec::new();
        let mut pos: usize = 8;
        let mut j: usize = 0;
        while j < nn
            invariant
                0 <= j <= nn,
                nn == n8,
                nn * 24 == nb24,
                16 + nb24 <= len,
                len == bytes@.len(),
                pos == 8 + 24 * j,
                nds@.len() == j,
                u64le(n8) + nodes_bytes(nds@) == bytes@.subrange(0, pos as int),
            decreases nn - j,
        {
            proof {
                assert(24 * j + 24 <= 24 * nn) by (nonlinear_arith)
                    requires
                        j < nn,
                ;
            }
            let id8 = read_u64(bytes, pos);
            let lon8 = read_u64(bytes, pos + 8);
            let lat8 = read_u64(bytes, pos + 16);
            let nd = Node { id: id8 as i64, lon: lon8 as i64, lat: lat8 as i64 };
            let ghost onds = nds@;
            nds.push(nd);
            proof {
                vstd::bytes::lemma_auto_spec_u64_to_from_le_bytes();
                lemma_u64_i64_roundtrip(id8);
                lemma_u64_i64_roundtrip(lon8);
                lemma_u64_i64_roundtrip(lat8);
                let p = pos as int;
                assert(node_bytes(nd) == bytes@.subrange(p, p + 8) + (bytes@.subrange(p + 8, p
                    + 16) + bytes@.subrange(p + 16, p + 24)));
                assert(bytes@.subrange(p, p + 24) =~= bytes@.subrange(p, p + 8) + (
                bytes@.subrange(p + 8, p + 16) + bytes@.subrange(p + 16, p + 24)));
                assert(nds@.drop_last() =~= onds);
                assert(nds@.last() == nd);
                assert(nodes_bytes(nds@) == nodes_bytes(onds) + node_bytes(nd));
                lemma_add_assoc(u64le(n8), nodes_bytes(onds), node_bytes(nd));
                assert(bytes@.subrange(0, p + 24) =~= bytes@.subrange(0, p) + bytes@.subrange(
                    p,
                    p + 24,
                ));
                assert(u64le(n8) + nodes_bytes(nds@) == bytes@.subrange(0, p + 24));
            }
            pos = pos + 24;
            j = j + 1;
        }
        let m8 = read_u64(bytes, pos);
        let ghost hdr = (u64le(n8) + nodes_bytes(nds@)) + u64le(m8);
        proof {
            assert(hdr =~= bytes@.subrange(0, pos as int + 8));
        }
        pos = pos + 8;
        if m8 > (usize::MAX as u64) {
            proof {
                assert forall|g: SerializableGraph| g.wf() && frame_sized(g) implies frame_spec(g)
                    != bytes@ by {
                    if frame_spec(g) == bytes@ {
                        assert(hdr + edges_bytes(Seq::<Edge>::empty()) =~= bytes@.subrange(
                            0,
                            pos as int,
                        ));
                        lemma_frame_stage(g, bytes@, n8, nds@, m8, Seq::empty(), pos as int);
                    }
                }
            }
            return Err(GraphError::SourceFormat);
        }
        let mm = m8 as usize;
        let mut eacc: Vec<Edge> = Vec::new();
        let mut k: usize = 0;
        while k < mm
            invariant
                0 <= k <= mm,
                mm == m8,
                len == bytes@.len(),
                pos <= len,
                nds@.len() == n8,
                nn == n8,
                eacc@.len() == k,
                hdr == (u64le(n8) + nodes_bytes(nds@)) + u64le(m8),
                hdr + edges_bytes(eacc@) == bytes@.subrange(0, pos as int),
                forall|x: int|
                    0 <= x < eacc@.len() ==> (#[trigger] eacc@[x]).highway_tag@.len()
                        <= usize::MAX,
                forall|x: int|
                    0 <= x < eacc@.len() ==> (#[trigger] eacc@[x]).source < nds@.len()
                        && eacc@[x].target < nds@.len(),
            decreases mm - k,
        {
            if len - pos < 32 {
                proof {
                    assert forall|g: SerializableGraph|
                        g.wf() && frame_sized(g) implies frame_spec(g) != bytes@ by {
                        if frame_spec(g) == bytes@ {
                            lemma_frame_stage(g, bytes@, n8, nds@, m8, eacc@, pos as int);
                            let restg = g.edges@.skip(k as int);
                            assert(restg.len() > 0);
                            lemma_edges_bytes_front(restg);
                            lemma_edge_bytes_len(restg[0]);
                            assert(bytes@.skip(pos as int).len() >= 32);
                        }
                    }
                }
                return Err(GraphError::SourceFormat);
            }
            let s8 = read_u64(bytes, pos);
            let t8 = read_u64(bytes, pos + 8);
            let w8 = read_u64(bytes, pos + 16);
            let tl8 = read_u64(bytes, pos + 24);
            proof {
                assert(bytes@.skip(pos as int) =~= bytes@.subrange(pos as int, pos as int + 8) + (
                bytes@.subrange(pos as int + 8, pos as int + 16) + (bytes@.subrange(
                    pos as int + 16,
                    pos as int + 24,
                ) + (bytes@.subrange(pos as int + 24, pos as int + 32) + bytes@.skip(
                    pos as int + 32,
                )))));
            }
            if s8 >= n8 || t8 >= n8 || tl8 > ((len - pos - 32) as u64) {
                proof {
                    assert forall|g: SerializableGraph|
                        g.wf() && frame_sized(g) implies frame_spec(g) != bytes@ by {
                        if frame_spec(g) == bytes@ {
                            lemma_frame_stage(g, bytes@, n8, nds@, m8, eacc@, pos as int);
                            let restg = g.edges@.skip(k as int);
                            assert(restg.len() > 0);
                            lemma_edges_bytes_front(restg);
                            let eg = restg[0];
                            lemma_edge_head(
                                eg,
                                edges_bytes(restg.drop_first()),
                                s8,
                                t8,
                                w8,
                                tl8,
                                bytes@.skip(pos as int + 32),
                            );
                            assert(eg == g.edges@[k as int]);
                            assert(eg.source < g.nodes@.len());
                            assert(eg.target < g.nodes@.len());
                            lemma_edge_bytes_len(eg);
                            assert(bytes@.skip(pos as int).len() == len - pos);
                            assert(edges_bytes(restg).len() >= 32 + eg.highway_tag@.len());
                        }
                    }
                }
                return Err(GraphError::SourceFormat);
            }
            let tl = tl8 as usize;
            let tagslice = vstd::slice::slice_subrange(bytes, pos + 32, pos + 32 + tl);
            let tag = vstd::slice::slice_to_vec(tagslice);
            let e = Edge { source: s8 as usize, target: t8 as usize, weight: w8, highway_tag: tag };
            let ghost oeacc = eacc@;
            eacc.push(e);
            proof {
                vstd::bytes::lemma_auto_spec_u64_to_from_le_bytes();
                let p = pos as int;
                assert(e.source as u64 == s8 && e.target as u64 == t8);
                assert(e.highway_tag@ == bytes@.subrange(p + 32, p + 32 + tl));
                assert(e.highway_tag@.len() as u64 == tl8);
                assert(edge_bytes(e) == bytes@.subrange(p, p + 8) + (bytes@.subrange(p + 8, p
                    + 16) + (bytes@.subrange(p + 16, p + 24) + (bytes@.subrange(p + 24, p + 32)
                    + bytes@.subrange(p + 32, p + 32 + tl)))));
                assert(bytes@.subrange(p, p + 32 + tl) =~= bytes@.subrange(p, p + 8) + (
                bytes@.subrange(p + 8, p + 16) + (bytes@.subrange(p + 16, p + 24) + (
                bytes@.subrange(p + 24, p + 32) + bytes@.subrange(p + 32, p + 32 + tl)))));
                assert(eacc@.drop_last() =~= oeacc);
                assert(eacc@.last() == e);
                assert(edges_bytes(eacc@) == edges_bytes(oeacc) + edge_bytes(e));
                lemma_add_assoc(hdr, edges_bytes(oeacc), edge_bytes(e));
                assert(bytes@.subrange(0, p + 32 + tl) =~= bytes@.subrange(0, p)
                    + bytes@.subrange(p, p + 32 + tl));
                assert(hdr + edges_bytes(eacc@) == bytes@.subrange(0, p + 32 + tl));
            }
            pos = pos + 32 + tl;
            k = k + 1;
        }
        if pos != len {
            proof {
                assert forall|g: SerializableGraph| g.wf() && frame_sized(g) implies frame_spec(g)
                    != bytes@ by {
                    if frame_spec(g) == bytes@ {
                        lemma_frame_stage(g, bytes@, n8, nds@, m8, eacc@, pos as int);
                        assert(g.edges@.skip(mm as int) =~= Seq::<Edge>::empty());
                        assert(bytes@.skip(pos as int).len() == 0);
                    }
                }
            }
            return Err(GraphError::SourceFormat);
        }
        let sg = SerializableGraph { edges: eacc, nodes: nds };
        proof {
            assert(bytes@.subrange(0, len as int) =~= bytes@);
            assert(frame_spec(sg) =~= hdr + edges_bytes(sg.edges@));
        }
        if !sg.is_wf() {
            proof {
                assert forall|g: SerializableGraph| g.wf() && frame_sized(g) implies frame_spec(g)
                    != bytes@ by {
                    if frame_spec(g) == bytes@ {
                        lemma_frame_injective(sg, g);
                        assert(sg.nodes@ == g.nodes@);
                        assert(crate::model::edges_in_range(sg.edges@, sg.nodes@.len() as nat))
                            by {
                            assert forall|x: int|
                                0 <= x < sg.edges@.len() implies (#[trigger] sg.edges@[x]).source
                                < sg.nodes@.len() && sg.edges@[x].target < sg.nodes@.len() by {
                                assert(edge_models(sg.edges@[x], g.edges@[x]));
                                assert(g.edges@[x].source < g.nodes@.len());
                            }
                        }
                        assert(sg.wf());
                    }
                }
            }
            return Err(GraphError::SourceFormat);
        }
        Ok(sg)
    }

    /// Serializes this graph: the frame, zlib-compressed.
    pub fn encode(&self) -> (r: Vec<u8>)
        ensures
            r@ == deflate_of(frame_spec(*self)),
            inflate_of(r@) == Some(frame_spec(*self)),
    {
        let f = self.frame();
        zlib_compress(&f)
    }

    /// Deserializes a compressed frame. Succeeds exactly on the
    /// output of `encode` over well-formed graphs: the stream must
    /// inflate, and the payload must spell a well-formed graph.
    pub fn decode(bytes: &Vec<u8>) -> (r: Result<SerializableGraph, GraphError>)
        ensures
            match r {
                Ok(sg) => sg.wf() && frame_sized(sg) && inflate_of(bytes@) == Some(
                    frame_spec(sg),
                ),
                Err(e) => e == GraphError::SourceFormat && (forall|g: SerializableGraph|
                    g.wf() && frame_sized(g) ==> bytes@ != deflate_of(frame_spec(g))),
            },
    {
        match zlib_decompress(bytes) {
            None => {
                proof {
                    assert forall|g: SerializableGraph|
                        g.wf() && frame_sized(g) implies bytes@ != deflate_of(frame_spec(g)) by {
                        assert(bytes@ != deflate_of(frame_spec(g)));
                    }
                }
                Err(GraphError::SourceFormat)
            },
            Some(payload) => {
                let r = Self::decode_frame(payload.as_slice());
                proof {
                    if r is Err {
                        assert forall|g: SerializableGraph|
                            g.wf() && frame_sized(g) implies bytes@ != deflate_of(
                            frame_spec(g),
                        ) by {
                            if bytes@ == deflate_of(frame_spec(g)) {
                                assert(payload@ == frame_spec(g));
                                assert(frame_spec(g) != payload@);
                            }
                        }
                    }
                }
                r
            },
        }
    }
}

} // verus!
