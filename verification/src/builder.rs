//! Graph builder: turns a raw stream of way and node records into a
//! persistable graph in two passes. The first pass filters ways by a
//! pluggable validity policy and emits edge candidates over external
//! identifiers; the second materializes the referenced node records,
//! assigning dense indices in first-seen order; the final pass
//! re-keys every candidate to dense indices and computes its weight
//! through the pluggable weight policy.

use vstd::prelude::*;

use crate::model::{
    first_id_index, has_node_id, ids_unique, lemma_first_id_index, nodes_valid, Edge, Node,
    SerializableGraph, MAX_LAT_MICRO, MAX_LON_MICRO,
};
use crate::GraphError;

verus! {

/// A raw way record: a classification tag and the ordered external
/// identifiers of the nodes it passes through.
pub struct Way {
    /// The classification tag (UTF-8 bytes).
    pub highway_tag: Vec<u8>,
    /// External identifiers of the way's nodes, in traversal order.
    pub nodes: Vec<i64>,
}

/// The pluggable edge policy: two pure functions, injected at build
/// time, that decide which ways become edges and what a segment
/// costs. Implementations outside this crate (a routing profile, a
/// scripted policy) plug in through this trait.
pub trait EdgePolicy {
    /// What `is_valid` decides for a tag.
    spec fn valid_spec(&self, tag: Seq<u8>) -> bool;

    /// What `weight` computes for a segment.
    spec fn weight_spec(&self, tag: Seq<u8>, source: Node, target: Node) -> u64;

    /// Whether segments carrying this tag become edges.
    fn is_valid(&self, tag: &Vec<u8>) -> (r: bool)
        ensures
            r == self.valid_spec(tag@),
    ;

    /// The traversal cost of one segment, from its tag and its
    /// endpoints' positions.
    fn weight(&self, tag: &Vec<u8>, source: &Node, target: &Node) -> (r: u64)
        ensures
            r == self.weight_spec(tag@, *source, *target),
    ;
}

/// Compares two byte strings by content.
pub fn bytes_eq(a: &Vec<u8>, b: &Vec<u8>) -> (r: bool)
    ensures
        r == (a@ == b@),
{
    if a.len() != b.len() {
        return false;
    }
    let n = a.len();
    let mut i: usize = 0;
    while i < n
        invariant
            0 <= i <= n,
            n == a@.len() == b@.len(),
            forall|j: int| 0 <= j < i ==> a@[j] == b@[j],
        decreases n - i,
    {
        if a[i] != b[i] {
            return false;
        }
        i = i + 1;
    }
    proof {
        assert(a@ =~= b@);
    }
    true
}

/// Copies a byte string.
pub(crate) fn bytes_clone(a: &Vec<u8>) -> (r: Vec<u8>)
    ensures
        r@ == a@,
{
    let n = a.len();
    let mut r: Vec<u8> = Vec::new();
    let mut i: usize = 0;
    while i < n
        invariant
            0 <= i <= n,
            n == a@.len(),
            r@.len() == i,
            forall|j: int| 0 <= j < i ==> r@[j] == a@[j],
        decreases n - i,
    {
        r.push(a[i]);
        i = i + 1;
    }
    proof {
        assert(r@ =~= a@);
    }
    r
}

/// The static allow-list policy: a way becomes edges exactly when
/// its tag is on the list, and every segment costs one unit.
pub struct TagListPolicy {
    /// The allowed classification tags.
    pub allowed: Vec<Vec<u8>>,
}

impl EdgePolicy for TagListPolicy {
    open spec fn valid_spec(&self, tag: Seq<u8>) -> bool {
        exists|i: int| 0 <= i < self.allowed@.len() && (#[trigger] self.allowed@[i])@ == tag
    }

    open spec fn weight_spec(&self, tag: Seq<u8>, source: Node, target: Node) -> u64 {
        1u64
    }

    fn is_valid(&self, tag: &Vec<u8>) -> (r: bool) {
        let n = self.allowed.len();
        let mut i: usize = 0;
        while i < n
            invariant
                0 <= i <= n,
                n == self.allowed@.len(),
                forall|j: int| 0 <= j < i ==> (#[trigger] self.allowed@[j])@ != tag@,
            decreases n - i,
        {
            if bytes_eq(&self.allowed[i], tag) {
                return true;
            }
            i = i + 1;
        }
        false
    }

    fn weight(&self, tag: &Vec<u8>, source: &Node, target: &Node) -> (r: u64) {
        1
    }
}

/// The consecutive pairs of a way's node references: one directed
/// segment per adjacent pair.
pub open spec fn way_pairs(refs: Seq<i64>) -> Seq<(i64, i64)> {
    if refs.len() < 2 {
        Seq::empty()
    } else {
        Seq::new((refs.len() - 1) as nat, |i: int| (refs[i], refs[i + 1]))
    }
}

/// The edge candidates of a way stream under a validity policy:
/// for every valid way, its segments tagged with the way's tag, in
/// stream order.
pub open spec fn candidates_of<P: EdgePolicy>(ways: Seq<Way>, p: P) -> Seq<(i64, i64, Seq<u8>)>
    decreases ways.len(),
{
    if ways.len() == 0 {
        Seq::empty()
    } else {
        let w = ways.last();
        candidates_of(ways.drop_last(), p) + (if p.valid_spec(w.highway_tag@) {
            way_pairs(w.nodes@).map_values(|pr: (i64, i64)| (pr.0, pr.1, w.highway_tag@))
        } else {
            Seq::empty()
        })
    }
}

/// The external identifiers that some candidate touches.
pub open spec fn important_ids(cands: Seq<(i64, i64, Seq<u8>)>) -> Set<i64> {
    Set::new(
        |id: i64|
            exists|j: int|
                0 <= j < cands.len() && ((#[trigger] cands[j]).0 == id || cands[j].1 == id),
    )
}

/// An earlier record (before position `upto`) already carries `id`.
pub open spec fn id_before(records: Seq<Node>, upto: int, id: i64) -> bool {
    exists|i: int| 0 <= i < upto && (#[trigger] records[i]).id == id
}

/// The nodes the builder materializes: every record whose identifier
/// is important, taken at its first occurrence, in stream order.
pub open spec fn materialized(records: Seq<Node>, important: Set<i64>) -> Seq<Node>
    decreases records.len(),
{
    if records.len() == 0 {
        Seq::empty()
    } else {
        let r = records.last();
        materialized(records.drop_last(), important) + (if important.contains(r.id)
            && !id_before(records, records.len() - 1, r.id) {
            seq![r]
        } else {
            Seq::empty()
        })
    }
}

/// Every materialized node is a record taken at the first occurrence
/// of an important identifier.
pub proof fn lemma_materialized_elements(records: Seq<Node>, important: Set<i64>)
    ensures
        forall|j: int|
            0 <= j < materialized(records, important).len() ==> exists|i: int|
                {
                    &&& 0 <= i < records.len()
                    &&& #[trigger] materialized(records, important)[j] == records[i]
                    &&& important.contains(records[i].id)
                    &&& !id_before(records, i, records[i].id)
                },
    decreases records.len(),
{
    if records.len() > 0 {
        let prev = records.drop_last();
        lemma_materialized_elements(prev, important);
        let ns = materialized(records, important);
        let psn = materialized(prev, important);
        assert forall|j: int| 0 <= j < ns.len() implies exists|i: int|
            {
                &&& 0 <= i < records.len()
                &&& #[trigger] ns[j] == records[i]
                &&& important.contains(records[i].id)
                &&& !id_before(records, i, records[i].id)
            } by {
            if j < psn.len() {
                let i = choose|i: int|
                    {
                        &&& 0 <= i < prev.len()
                        &&& #[trigger] psn[j] == prev[i]
                        &&& important.contains(prev[i].id)
                        &&& !id_before(prev, i, prev[i].id)
                    };
                assert(prev[i] == records[i]);
                assert(!id_before(records, i, records[i].id)) by {
                    if id_before(records, i, records[i].id) {
                        let x = choose|x: int|
                            0 <= x < i && (#[trigger] records[x]).id == records[i].id;
                        assert(prev[x].id == prev[i].id);
                        assert(id_before(prev, i, prev[i].id));
                    }
                }
                assert(ns[j] == records[i]);
            } else {
                let i = records.len() - 1;
                assert(ns[j] == records[i]);
            }
        }
    }
}

/// First-seen materialization yields pairwise distinct identifiers.
pub proof fn lemma_materialized_unique(records: Seq<Node>, important: Set<i64>)
    ensures
        ids_unique(materialized(records, important)),
    decreases records.len(),
{
    if records.len() > 0 {
        let prev = records.drop_last();
        lemma_materialized_unique(prev, important);
        lemma_materialized_elements(prev, important);
        let ns = materialized(records, important);
        let psn = materialized(prev, important);
        let r = records.last();
        assert forall|a: int, b: int|
            0 <= a < b < ns.len() implies (#[trigger] ns[a]).id != (#[trigger] ns[b]).id by {
            if b < psn.len() {
                assert(psn[a].id != psn[b].id);
            } else {
                assert(ns[b] == r);
                assert(!id_before(records, records.len() - 1, r.id));
                let i = choose|i: int|
                    {
                        &&& 0 <= i < prev.len()
                        &&& #[trigger] psn[a] == prev[i]
                        &&& important.contains(prev[i].id)
                        &&& !id_before(prev, i, prev[i].id)
                    };
                if ns[a].id == r.id {
                    assert(records[i].id == r.id);
                    assert(id_before(records, records.len() - 1, r.id));
                }
            }
        }
    }
}

/// One edge candidate of the first pass: external endpoints and the
/// owning way's tag.
struct Candidate {
    s: i64,
    t: i64,
    tag: Vec<u8>,
}

/// The mathematical content of a candidate list.
spec fn cand_views(cs: Seq<Candidate>) -> Seq<(i64, i64, Seq<u8>)> {
    cs.map_values(|c: Candidate| (c.s, c.t, c.tag@))
}

/// The candidates' re-keying succeeds: both endpoints of every
/// candidate were materialized.
pub open spec fn rekeying_total(cands: Seq<(i64, i64, Seq<u8>)>, ns: Seq<Node>) -> bool {
    forall|j: int|
        0 <= j < cands.len() ==> has_node_id(ns, (#[trigger] cands[j]).0) && has_node_id(
            ns,
            cands[j].1,
        )
}

/// The graph builder: turns way and node record streams into a
/// persistable graph.
pub struct GraphBuilder {}

impl GraphBuilder {
    /// Builds a graph from the way and node records of a raw network
    /// source, under the given edge policy. Fails with
    /// `SourceFormat` when a materialized record carries coordinates
    /// outside the physical range, and with `InvariantViolation`
    /// when a candidate references an identifier that no record
    /// materialized — a two-pass inconsistency that must not drop
    /// the edge silently.
    pub fn build_from_pbf<P: EdgePolicy>(
        ways: &Vec<Way>,
        records: &Vec<Node>,
        policy: &P,
    ) -> (r: Result<SerializableGraph, GraphError>)
        ensures
            ({
                let cands = candidates_of(ways@, *policy);
                let ns = materialized(records@, important_ids(cands));
                match r {
                    Ok(sg) => {
                        &&& nodes_valid(ns)
                        &&& rekeying_total(cands, ns)
                        &&& sg.nodes@ == ns
                        &&& sg.edges@.len() == cands.len()
                        &&& forall|j: int|
                            0 <= j < cands.len() ==> {
                                let c = #[trigger] cands[j];
                                let e = sg.edges@[j];
                                let si = first_id_index(ns, c.0);
                                let ti = first_id_index(ns, c.1);
                                &&& e.source == si
                                &&& e.target == ti
                                &&& e.highway_tag@ == c.2
                                &&& e.weight == policy.weight_spec(c.2, ns[si], ns[ti])
                            }
                        &&& sg.wf()
                    },
                    Err(e) => {
                        ||| (e == GraphError::SourceFormat && !nodes_valid(ns))
                        ||| (e == GraphError::InvariantViolation && nodes_valid(ns)
                            && !rekeying_total(cands, ns))
                    },
                }
            }),
    {
        let ghost gcands = candidates_of(ways@, *policy);

        // Pass 1: collect edge candidates from valid ways.
        let mut cands: Vec<Candidate> = Vec::new();
        let nw = ways.len();
        let mut i: usize = 0;
        while i < nw
            invariant
                0 <= i <= nw,
                nw == ways@.len(),
                cand_views(cands@) == candidates_of(ways@.take(i as int), *policy),
            decreases nw - i,
        {
            let w = &ways[i];
            let valid = policy.is_valid(&w.highway_tag);
            if valid && w.nodes.len() >= 2 {
                let np = w.nodes.len() - 1;
                let ghost base = cands@.len() as int;
                let ghost pairs = way_pairs(ways@[i as int].nodes@);
                let mut j: usize = 0;
                let ghost gprefix = candidates_of(ways@.take(i as int), *policy);
                while j < np
                    invariant
                        0 <= j <= np,
                        i < nw,
                        nw == ways@.len(),
                        w.nodes@ == ways@[i as int].nodes@,
                        w.highway_tag@ == ways@[i as int].highway_tag@,
                        np + 1 == ways@[i as int].nodes@.len(),
                        pairs == way_pairs(ways@[i as int].nodes@),
                        pairs.len() == np,
                        gprefix == candidates_of(ways@.take(i as int), *policy),
                        base == gprefix.len(),
                        cands@.len() == base + j,
                        forall|x: int|
                            0 <= x < base ==> {
                                let c = #[trigger] cands@[x];
                                (c.s, c.t, c.tag@) == gprefix[x]
                            },
                        forall|x: int|
                            0 <= x < j ==> {
                                let c = #[trigger] cands@[base + x];
                                c.s == pairs[x].0 && c.t == pairs[x].1 && c.tag@ == ways@[i
                                    as int].highway_tag@
                            },
                    decreases np - j,
                {
                    let cs = w.nodes[j];
                    let ct = w.nodes[j + 1];
                    let tag = bytes_clone(&w.highway_tag);
                    cands.push(Candidate { s: cs, t: ct, tag });
                    j = j + 1;
                }
                proof {
                    let p1 = ways@.take(i as int + 1);
                    assert(p1.drop_last() =~= ways@.take(i as int));
                    assert(p1.last() == ways@[i as int]);
                    let tail = way_pairs(ways@[i as int].nodes@).map_values(
                        |pr: (i64, i64)| (pr.0, pr.1, ways@[i as int].highway_tag@),
                    );
                    assert(candidates_of(p1, *policy) == gprefix + tail);
                    assert forall|x: int|
                        0 <= x < cands@.len() implies cand_views(cands@)[x] == (gprefix + tail)[x]
                        by {
                        if x < base {
                            assert((cands@[x].s, cands@[x].t, cands@[x].tag@) == gprefix[x]);
                        } else {
                            assert(cands@[base + (x - base)].s == pairs[x - base].0);
                            assert(tail[x - base] == (
                                pairs[x - base].0,
                                pairs[x - base].1,
                                ways@[i as int].highway_tag@,
                            ));
                        }
                    }
                    assert(cand_views(cands@) =~= candidates_of(p1, *policy));
                }
            } else {
                proof {
                    assert(ways@.take(i as int + 1).drop_last() =~= ways@.take(i as int));
                    assert(ways@.take(i as int + 1).last() == ways@[i as int]);
                    if ways@[i as int].nodes@.len() < 2 {
                        assert(way_pairs(ways@[i as int].nodes@) =~= Seq::<(i64, i64)>::empty());
                    }
                    assert(cand_views(cands@) =~= candidates_of(
                        ways@.take(i as int + 1),
                        *policy,
                    ));
                }
            }
            i = i + 1;
        }
        proof {
            assert(ways@.take(nw as int) =~= ways@);
            assert(cand_views(cands@) == gcands);
        }

        // Pass 2: materialize the referenced node records, assigning
        // dense indices in first-seen order.
        let ghost important = important_ids(gcands);
        let mut nodes: Vec<Node> = Vec::new();
        let nr = records.len();
        let nc = cands.len();
        let mut ri: usize = 0;
        while ri < nr
            invariant
                0 <= ri <= nr,
                nr == records@.len(),
                nc == cands@.len(),
                gcands == candidates_of(ways@, *policy),
                cand_views(cands@) == gcands,
                important == important_ids(gcands),
                nodes@ == materialized(records@.take(ri as int), important),
                nodes_valid(nodes@),
            decreases nr - ri,
        {
            let rec = records[ri];
            let mut imp = false;
            let mut cj: usize = 0;
            while cj < nc
                invariant
                    0 <= cj <= nc,
                    nc == cands@.len(),
                    cand_views(cands@) == gcands,
                    imp ==> exists|x: int|
                        0 <= x < gcands.len() && ((#[trigger] gcands[x]).0 == rec.id
                            || gcands[x].1 == rec.id),
                    !imp ==> forall|x: int|
                        0 <= x < cj ==> !((#[trigger] gcands[x]).0 == rec.id || gcands[x].1
                            == rec.id),
                decreases nc - cj,
            {
                if cands[cj].s == rec.id || cands[cj].t == rec.id {
                    proof {
                        assert(gcands[cj as int].0 == cands@[cj as int].s && gcands[cj as int].1
                            == cands@[cj as int].t);
                    }
                    imp = true;
                }
                cj = cj + 1;
            }
            proof {
                assert(imp == important.contains(rec.id)) by {
                    if imp {
                        assert(important.contains(rec.id));
                    }
                    if !imp && important.contains(rec.id) {
                        let x = choose|x: int|
                            0 <= x < gcands.len() && ((#[trigger] gcands[x]).0 == rec.id
                                || gcands[x].1 == rec.id);
                        assert(false);
                    }
                }
            }
            let mut dup = false;
            let mut dj: usize = 0;
            while dj < ri
                invariant
                    0 <= dj <= ri < nr,
                    nr == records@.len(),
                    rec == records@[ri as int],
                    dup ==> id_before(records@, ri as int, rec.id),
                    !dup ==> forall|x: int|
                        0 <= x < dj ==> (#[trigger] records@[x]).id != rec.id,
                decreases ri - dj,
            {
                if records[dj].id == rec.id {
                    proof {
                        assert(records@[dj as int].id == rec.id);
                    }
                    dup = true;
                }
                dj = dj + 1;
            }
            proof {
                if !dup && id_before(records@, ri as int, rec.id) {
                    let x = choose|x: int|
                        0 <= x < ri && (#[trigger] records@[x]).id == rec.id;
                    assert(false);
                }
                assert(records@.take(ri as int + 1).drop_last() =~= records@.take(ri as int));
                assert(records@.take(ri as int + 1).last() == records@[ri as int]);
                assert(id_before(records@.take(ri as int + 1), ri as int, rec.id) == id_before(
                    records@,
                    ri as int,
                    rec.id,
                )) by {
                    let a = records@.take(ri as int + 1);
                    if id_before(a, ri as int, rec.id) {
                        let x = choose|x: int| 0 <= x < ri && (#[trigger] a[x]).id == rec.id;
                        assert(records@[x].id == rec.id);
                        assert(id_before(records@, ri as int, rec.id));
                    }
                    if id_before(records@, ri as int, rec.id) {
                        let x = choose|x: int|
                            0 <= x < ri && (#[trigger] records@[x]).id == rec.id;
                        assert(a[x].id == rec.id);
                        assert(id_before(a, ri as int, rec.id));
                    }
                }
            }
            if imp && !dup {
                if rec.lon < -MAX_LON_MICRO || rec.lon > MAX_LON_MICRO || rec.lat < -MAX_LAT_MICRO
                    || rec.lat > MAX_LAT_MICRO {
                    proof {
                        let pref = materialized(records@.take(ri as int + 1), important);
                        assert(pref =~= nodes@.push(rec));
                        lemma_materialized_prefix(records@, important, ri as int + 1);
                        let full = materialized(records@, important);
                        assert(pref.len() == nodes@.len() + 1);
                        assert(pref.is_prefix_of(full));
                        assert(pref =~= full.subrange(0, pref.len() as int));
                        assert(pref[nodes@.len() as int] == rec);
                        assert(full.subrange(0, pref.len() as int)[nodes@.len() as int]
                            == full[nodes@.len() as int]);
                        assert(full[nodes@.len() as int] == rec);
                        assert(!rec.valid());
                        assert(!nodes_valid(full));
                    }
                    return Err(GraphError::SourceFormat);
                }
                nodes.push(rec);
            }
            proof {
                assert(nodes@ =~= materialized(records@.take(ri as int + 1), important));
            }
            ri = ri + 1;
        }
        proof {
            assert(records@.take(nr as int) =~= records@);
        }
        let ghost ns = materialized(records@, important);

        // Pass 3: re-key every candidate to dense indices and weigh it.
        let mut edges: Vec<Edge> = Vec::new();
        let mut kk: usize = 0;
        while kk < nc
            invariant
                0 <= kk <= nc,
                nc == cands@.len(),
                gcands == candidates_of(ways@, *policy),
                cand_views(cands@) == gcands,
                nodes@ == ns,
                ns == materialized(records@, important_ids(gcands)),
                important == important_ids(gcands),
                nodes_valid(ns),
                edges@.len() == kk,
                forall|j: int|
                    0 <= j < kk ==> has_node_id(ns, (#[trigger] gcands[j]).0) && has_node_id(
                        ns,
                        gcands[j].1,
                    ),
                forall|j: int|
                    0 <= j < kk ==> {
                        let c = #[trigger] gcands[j];
                        let e = edges@[j];
                        let si = first_id_index(ns, c.0);
                        let ti = first_id_index(ns, c.1);
                        &&& e.source == si
                        &&& e.target == ti
                        &&& e.highway_tag@ == c.2
                        &&& e.weight == policy.weight_spec(c.2, ns[si], ns[ti])
                    },
            decreases nc - kk,
        {
            let cs = cands[kk].s;
            let ct = cands[kk].t;
            proof {
                assert(gcands[kk as int] == (
                    cands@[kk as int].s,
                    cands@[kk as int].t,
                    cands@[kk as int].tag@,
                ));
            }
            let si = match crate::model::find_node_index(&nodes, cs) {
                None => {
                    proof {
                        assert(!has_node_id(ns, gcands[kk as int].0));
                    }
                    return Err(GraphError::InvariantViolation);
                },
                Some(si) => si,
            };
            let ti = match crate::model::find_node_index(&nodes, ct) {
                None => {
                    proof {
                        assert(!has_node_id(ns, gcands[kk as int].1));
                    }
                    return Err(GraphError::InvariantViolation);
                },
                Some(ti) => ti,
            };
            let sn = nodes[si];
            let tn = nodes[ti];
            let wgt = policy.weight(&cands[kk].tag, &sn, &tn);
            let tag = bytes_clone(&cands[kk].tag);
            edges.push(Edge { source: si, target: ti, weight: wgt, highway_tag: tag });
            kk = kk + 1;
        }
        proof {
            lemma_materialized_unique(records@, important);
        }
        let sg = SerializableGraph { edges, nodes };
        proof {
            assert(crate::model::edges_in_range(sg.edges@, sg.nodes@.len() as nat)) by {
                assert forall|e: int|
                    0 <= e < sg.edges@.len() implies (#[trigger] sg.edges@[e]).source
                    < sg.nodes@.len() && sg.edges@[e].target < sg.nodes@.len() by {
                    crate::model::lemma_first_id_index(ns, gcands[e].0);
                    crate::model::lemma_first_id_index(ns, gcands[e].1);
                }
            }
        }
        Ok(sg)
    }
}

/// A prefix of the record stream materializes a prefix of the nodes.
pub proof fn lemma_materialized_prefix(records: Seq<Node>, important: Set<i64>, k: int)
    requires
        0 <= k <= records.len(),
    ensures
        materialized(records.take(k), important).is_prefix_of(materialized(records, important)),
    decreases records.len() - k,
{
    if k == records.len() {
        assert(records.take(k) =~= records);
    } else {
        lemma_materialized_prefix(records, important, k + 1);
        let a = records.take(k);
        let b = records.take(k + 1);
        assert(b.drop_last() =~= a);
        assert(b.last() == records[k]);
        assert forall|id: i64| id_before(b, k, id) == id_before(a, k, id) by {
            if id_before(b, k, id) {
                let x = choose|x: int| 0 <= x < k && (#[trigger] b[x]).id == id;
                assert(a[x].id == id);
                assert(id_before(a, k, id));
            }
            if id_before(a, k, id) {
                let x = choose|x: int| 0 <= x < k && (#[trigger] a[x]).id == id;
                assert(b[x].id == id);
                assert(id_before(b, k, id));
            }
        }
        assert(materialized(a, important).is_prefix_of(materialized(b, important)));
    }
}

} // verus!
