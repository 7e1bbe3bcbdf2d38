//! Bulk construction of an edge store. The writer keeps its batch sorted
//! and deduplicated by (sort node, secondary node) — the in-memory image
//! of the external-sort spill files — and `finalize` streams the groups of
//! consecutive edges sharing a sort node into the store's ranges, node
//! stream and label stream.

use vstd::prelude::*;
use crate::webgraph::{EdgeStore, Node, NodeID, RangeEntry};
use crate::hashing::spec_hash64;

verus! {

/// The codec for on-disk label blocks. The in-memory store keeps its
/// labels plain; the choice travels with the writer for the storage
/// layer.
#[derive(Clone, Copy, PartialEq, Eq, Structural, Debug)]
pub enum Compression {
    Uncompressed,
    Lz4,
    Zstd,
}

/// An edge as the bulk path carries it: nodes and label.
#[derive(Debug)]
pub struct InnerEdge {
    pub from: Node,
    pub to: Node,
    pub label: String,
}

/// An edge keyed for the external sort.
#[derive(Debug)]
pub struct SortableEdge {
    pub sort_node: NodeID,
    pub secondary_node: NodeID,
    pub edge: InnerEdge,
}

/// Strict order on sort keys.
pub open spec fn key_lt(a: SortableEdge, b: SortableEdge) -> bool {
    a.sort_node.raw < b.sort_node.raw || (a.sort_node.raw == b.sort_node.raw
        && a.secondary_node.raw < b.secondary_node.raw)
}

pub open spec fn key_eq(a: SortableEdge, b: SortableEdge) -> bool {
    a.sort_node.raw == b.sort_node.raw && a.secondary_node.raw == b.secondary_node.raw
}

/// Strictly sorted by key: sorted and deduplicated at once.
pub open spec fn edges_sorted(s: Seq<SortableEdge>) -> bool {
    forall|i: int, j: int| 0 <= i < j < s.len() ==> key_lt(#[trigger] s[i], #[trigger] s[j])
}

/// Sorted insertion that keeps the first edge of a key: the set semantics
/// of the writer's batch.
pub open spec fn insert_edge(s: Seq<SortableEdge>, e: SortableEdge) -> Seq<SortableEdge>
    decreases s.len(),
{
    if s.len() == 0 {
        seq![e]
    } else if key_lt(e, s[0]) {
        seq![e] + s
    } else if key_eq(e, s[0]) {
        s
    } else {
        seq![s[0]] + insert_edge(s.drop_first(), e)
    }
}

/// The secondary nodes of a list of sortable edges.
pub open spec fn secs_view(s: Seq<SortableEdge>) -> Seq<NodeID> {
    s.map_values(|e: SortableEdge| e.secondary_node)
}

/// The labels of a list of sortable edges.
pub open spec fn labels_view(s: Seq<SortableEdge>) -> Seq<String> {
    s.map_values(|e: SortableEdge| e.edge.label)
}

/// The secondary nodes of the edges whose sort node is `n`, from edge
/// `i` on, in order.
pub open spec fn secs_for(s: Seq<SortableEdge>, n: NodeID, i: int) -> Seq<NodeID>
    decreases s.len() - i,
{
    if i < 0 || i >= s.len() {
        Seq::empty()
    } else if s[i].sort_node == n {
        seq![s[i].secondary_node] + secs_for(s, n, i + 1)
    } else {
        secs_for(s, n, i + 1)
    }
}

/// How the finalized store lays the sorted edges out: the node and label
/// streams are the edges in order, and the ranges table segments them
/// into maximal groups of one sort node each.
pub open spec fn store_encodes(store: EdgeStore, s: Seq<SortableEdge>) -> bool {
    &&& writer_encodes(store.ranges@, store.nodes_stream@, store.labels_stream@, s)
    &&& store.live@.len() == 0
}

/// A store that encodes a strictly sorted edge stream satisfies the
/// store's layout invariants.
#[verifier::rlimit(100)]
pub proof fn lemma_encoded_store_wf(store: EdgeStore, s: Seq<SortableEdge>)
    requires
        store_encodes(store, s),
        edges_sorted(s),
    ensures
        store.wf(),
{
    reveal(writer_encodes);
    assert forall|m: int|
        0 <= m < store.ranges@.len() implies (#[trigger] store.ranges@[m]).start
        <= store.ranges@[m].end <= store.nodes_stream@.len() by {
        lemma_range_ends(store.ranges@, m);
    }
    assert forall|i: int, a: int, b: int|
        0 <= i < store.ranges@.len() && (#[trigger] store.ranges@[i]).start <= a < b
            < store.ranges@[i].end implies (#[trigger] store.nodes_stream@[a]).raw < (
        #[trigger] store.nodes_stream@[b]).raw by {
        assert(s[a].sort_node == store.ranges@[i].node);
        assert(s[b].sort_node == store.ranges@[i].node);
        assert(key_lt(s[a], s[b]));
        assert(store.nodes_stream@[a] == s[a].secondary_node);
        assert(store.nodes_stream@[b] == s[b].secondary_node);
    }
}

/// The sorted, deduplicating writer: the in-memory image of the external
/// sort.
pub struct EdgeStoreWriter {
    pub reversed: bool,
    pub edges: Vec<SortableEdge>,
    pub compression: Compression,
}

/// The sortable image of an inner edge under a polarity.
pub open spec fn spec_sortable(edge: InnerEdge, reversed: bool) -> SortableEdge {
    if reversed {
        SortableEdge {
            sort_node: NodeID { raw: spec_hash64(edge.to.name@) },
            secondary_node: NodeID { raw: spec_hash64(edge.from.name@) },
            edge,
        }
    } else {
        SortableEdge {
            sort_node: NodeID { raw: spec_hash64(edge.from.name@) },
            secondary_node: NodeID { raw: spec_hash64(edge.to.name@) },
            edge,
        }
    }
}

proof fn lemma_insert_edge_at(s: Seq<SortableEdge>, e: SortableEdge, k: int)
    requires
        0 <= k <= s.len(),
        forall|j: int| 0 <= j < k ==> key_lt(#[trigger] s[j], e),
        k < s.len() ==> !key_lt(s[k], e),
    ensures
        k < s.len() && key_eq(e, s[k]) ==> insert_edge(s, e) == s,
        !(k < s.len() && key_eq(e, s[k])) ==> insert_edge(s, e) == s.take(k) + seq![e] + s.skip(
            k,
        ),
    decreases k,
{
    if s.len() == 0 {
        assert(s.take(0) + seq![e] + s.skip(0) =~= seq![e]);
    } else if k == 0 {
        if !key_eq(e, s[0]) {
            assert(key_lt(e, s[0]));
            assert(s.take(0) + seq![e] + s.skip(0) =~= seq![e] + s);
        }
    } else {
        assert(key_lt(s[0], e));
        lemma_insert_edge_at(s.drop_first(), e, k - 1);
        assert forall|j: int| 0 <= j < k - 1 implies key_lt(#[trigger] s.drop_first()[j], e) by {
            assert(s.drop_first()[j] == s[j + 1]);
        }
        if k < s.len() {
            assert(s.drop_first()[k - 1] == s[k]);
        }
        assert(insert_edge(s, e) == seq![s[0]] + insert_edge(s.drop_first(), e));
        if k < s.len() && key_eq(e, s[k]) {
            assert(seq![s[0]] + s.drop_first() =~= s);
        } else {
            assert(seq![s[0]] + (s.drop_first().take(k - 1) + seq![e] + s.drop_first().skip(k - 1))
                =~= s.take(k) + seq![e] + s.skip(k));
        }
    }
}

impl EdgeStoreWriter {
    pub open spec fn wf(&self) -> bool {
        edges_sorted(self.edges@)
    }

    /// A fresh writer of the given polarity.
    pub fn new(compression: Compression, reversed: bool) -> (r: Self)
        ensures
            r.wf(),
            r.edges@.len() == 0,
            r.reversed == reversed,
            r.compression == compression,
    {
        EdgeStoreWriter { reversed, edges: Vec::new(), compression }
    }

    /// Adds one edge under its sort key; an edge already present under
    /// the same key is kept as it was.
    pub fn put(&mut self, edge: InnerEdge)
        requires
            old(self).wf(),
        ensures
            final(self).wf(),
            final(self).reversed == old(self).reversed,
            final(self).compression == old(self).compression,
            final(self).edges@ == insert_edge(
                old(self).edges@,
                spec_sortable(edge, old(self).reversed),
            ),
    {
        let sort_node = if self.reversed {
            edge.to.id()
        } else {
            edge.from.id()
        };
        let secondary_node = if self.reversed {
            edge.from.id()
        } else {
            edge.to.id()
        };
        let e = SortableEdge { sort_node, secondary_node, edge };
        let ghost ev = self.edges@;
        let ghost ee = e;
        let mut k: usize = 0;
        while k < self.edges.len() && (self.edges[k].sort_node.raw < e.sort_node.raw || (
        self.edges[k].sort_node.raw == e.sort_node.raw && self.edges[k].secondary_node.raw
            < e.secondary_node.raw))
            invariant
                k <= ev.len(),
                ev == self.edges@,
                forall|j: int| 0 <= j < k ==> key_lt(#[trigger] ev[j], ee),
                ee == e,
            decreases ev.len() - k,
        {
            k += 1;
        }
        proof {
            lemma_insert_edge_at(ev, ee, k as int);
        }
        if k < self.edges.len() {
            let same = self.edges[k].sort_node.raw == e.sort_node.raw
                && self.edges[k].secondary_node.raw == e.secondary_node.raw;
            if same {
                proof {
                    assert(key_eq(ee, ev[k as int]));
                }
                return ;
            }
        }
        self.edges.insert(k, e);
        proof {
            assert(self.edges@ =~= ev.take(k as int) + seq![ee] + ev.skip(k as int));
            assert forall|i: int, j: int|
                0 <= i < j < self.edges@.len() implies key_lt(
                #[trigger] self.edges@[i],
                #[trigger] self.edges@[j],
            ) by {
                let kk = k as int;
                if i < kk && j < kk {
                    assert(self.edges@[i] == ev[i]);
                    assert(self.edges@[j] == ev[j]);
                } else if i < kk && j == kk {
                    assert(self.edges@[i] == ev[i]);
                } else if i == kk && j > kk {
                    assert(self.edges@[j] == ev[j - 1]);
                    assert(!key_lt(ev[kk], ee) || kk >= ev.len());
                    if j - 1 == kk {
                        assert(!key_eq(ee, ev[kk]));
                        assert(key_lt(ee, ev[kk]));
                    } else {
                        assert(key_lt(ev[kk], ev[j - 1]));
                        assert(!key_eq(ee, ev[kk]));
                        assert(key_lt(ee, ev[kk]));
                    }
                } else if i < kk && j > kk {
                    assert(self.edges@[i] == ev[i]);
                    assert(self.edges@[j] == ev[j - 1]);
                    if i == j - 1 {
                        assert(key_lt(ev[i], ee));
                        assert(key_lt(ee, ev[i]) || true);
                    }
                    assert(key_lt(ev[i], ev[j - 1]) || i == j - 1);
                    if i == j - 1 {
                        assert(kk <= i && i < kk);
                    }
                } else {
                    assert(self.edges@[i] == ev[i - 1]);
                    assert(self.edges@[j] == ev[j - 1]);
                }
            }
        }
    }

    /// Streams the sorted edges into their final store form and opens
    /// the store for reading.
    pub fn finalize(self) -> (r: EdgeStore)
        requires
            self.wf(),
        ensures
            r.wf(),
            r.reversed == self.reversed,
            store_encodes(r, self.edges@),
    {
        let reversed = self.reversed;
        let mut final_writer = FinalEdgeStoreWriter {
            ranges: Vec::new(),
            nodes: Vec::new(),
            labels: Vec::new(),
            compression: self.compression,
            reversed,
        };
        let store = final_writer.build_store(self.edges);
        store
    }
}

/// Writes groups of edges sharing a sort node into the store layout:
/// one ranges entry per group over the appended node and label streams.
pub struct FinalEdgeStoreWriter {
    pub ranges: Vec<RangeEntry>,
    pub nodes: Vec<NodeID>,
    pub labels: Vec<String>,
    pub compression: Compression,
    pub reversed: bool,
}

/// The writer state after encoding a prefix of the edge stream.
#[verifier::opaque]
pub open spec fn writer_encodes(
    ranges: Seq<RangeEntry>,
    nodes: Seq<NodeID>,
    labels: Seq<String>,
    prefix: Seq<SortableEdge>,
) -> bool {
    &&& nodes == secs_view(prefix)
    &&& labels == labels_view(prefix)
    &&& (ranges.len() == 0 ==> prefix.len() == 0)
    &&& (ranges.len() > 0 ==> ranges[0].start == 0 && ranges.last().end == prefix.len())
    &&& forall|m: int|
        0 <= m < ranges.len() - 1 ==> (#[trigger] ranges[m]).end == ranges[m + 1].start
    &&& forall|m: int| 0 <= m < ranges.len() ==> (#[trigger] ranges[m]).start < ranges[m].end
    &&& forall|m: int, k: int|
        0 <= m < ranges.len() && (#[trigger] ranges[m]).start <= k < ranges[m].end ==> (
        #[trigger] prefix[k]).sort_node == ranges[m].node
    &&& forall|m1: int, m2: int|
        0 <= m1 < m2 < ranges.len() ==> (#[trigger] ranges[m1]).node.raw < (
        #[trigger] ranges[m2]).node.raw
}

impl FinalEdgeStoreWriter {
    /// The writer state after encoding a prefix of the edge stream.
    pub open spec fn encodes(&self, prefix: Seq<SortableEdge>) -> bool {
        writer_encodes(self.ranges@, self.nodes@, self.labels@, prefix)
    }

    /// Writes one group: a non-empty batch of edges sharing a sort node
    /// greater than every already-written one, already deduplicated and
    /// sorted by secondary node.
    pub fn put_store(&mut self, batch: Vec<SortableEdge>, Ghost(prefix): Ghost<Seq<SortableEdge>>)
        requires
            old(self).encodes(prefix),
            batch@.len() > 0,
            forall|i: int|
                0 <= i < batch@.len() ==> (#[trigger] batch@[i]).sort_node
                    == batch@[0].sort_node,
            old(self).ranges@.len() > 0 ==> old(self).ranges@.last().node.raw
                < batch@[0].sort_node.raw,
        ensures
            final(self).encodes(prefix + batch@),
            final(self).ranges@ == old(self).ranges@.push(
                RangeEntry {
                    node: batch@[0].sort_node,
                    start: old(self).nodes@.len() as usize,
                    end: (old(self).nodes@.len() + batch@.len()) as usize,
                },
            ),
            final(self).compression == old(self).compression,
            final(self).reversed == old(self).reversed,
    {
        let ghost bv = batch@;
        let node = batch[0].sort_node;
        let start = self.nodes.len();
        let mut rest = batch;
        proof {
            reveal(writer_encodes);
            assert(secs_view(prefix) + secs_view(bv).take(0) =~= secs_view(prefix));
            assert(self.nodes@ =~= secs_view(prefix) + secs_view(bv).take(0));
            assert(labels_view(prefix) + labels_view(bv).take(0) =~= labels_view(prefix));
            assert(self.labels@ =~= labels_view(prefix) + labels_view(bv).take(0));
        }
        while rest.len() > 0
            invariant
                rest@.len() <= bv.len(),
                rest@ == bv.skip(bv.len() - rest@.len()),
                self.nodes@ == secs_view(prefix) + secs_view(bv).take(bv.len() - rest@.len()),
                self.labels@ == labels_view(prefix) + labels_view(bv).take(
                    bv.len() - rest@.len(),
                ),
                self.ranges@ == old(self).ranges@,
                self.compression == old(self).compression,
                self.reversed == old(self).reversed,
            decreases rest@.len(),
        {
            let ghost i = bv.len() - rest@.len();
            let ghost npre = self.nodes@;
            let ghost lpre = self.labels@;
            let e = rest.remove(0);
            proof {
                assert(bv.skip(i)[0] == bv[i]);
                assert(e == bv[i]);
                assert forall|y: int| 0 <= y < rest@.len() implies rest@[y] == bv[i + 1 + y] by {
                    assert(rest@[y] == bv.skip(i)[y + 1]);
                }
                assert(rest@ =~= bv.skip(i + 1));
            }
            self.nodes.push(e.secondary_node);
            self.labels.push(e.edge.label);
            proof {
                assert(secs_view(bv)[i] == bv[i].secondary_node);
                assert(labels_view(bv)[i] == bv[i].edge.label);
                assert(self.nodes@ =~= npre.push(bv[i].secondary_node));
                assert(npre.push(secs_view(bv)[i]) =~= secs_view(prefix) + secs_view(bv).take(
                    i + 1,
                ));
                assert(self.labels@ =~= lpre.push(bv[i].edge.label));
                assert(lpre.push(labels_view(bv)[i]) =~= labels_view(prefix) + labels_view(
                    bv,
                ).take(i + 1));
            }
        }
        let end = self.nodes.len();
        let ghost old_ranges = self.ranges@;
        self.ranges.push(RangeEntry { node, start, end });
        proof {
            reveal(writer_encodes);
            let whole = prefix + bv;
            assert(secs_view(bv).take(bv.len() as int) == secs_view(bv));
            assert(labels_view(bv).take(bv.len() as int) == labels_view(bv));
            assert(self.nodes@ =~= secs_view(whole)) by {
                assert forall|x: int| 0 <= x < whole.len() implies secs_view(whole)[x] == (
                if x < prefix.len() {
                    secs_view(prefix)[x]
                } else {
                    secs_view(bv)[x - prefix.len()]
                }) by {
                    if x < prefix.len() {
                        assert(whole[x] == prefix[x]);
                    } else {
                        assert(whole[x] == bv[x - prefix.len()]);
                    }
                }
            }
            assert(self.labels@ =~= labels_view(whole)) by {
                assert forall|x: int| 0 <= x < whole.len() implies labels_view(whole)[x] == (
                if x < prefix.len() {
                    labels_view(prefix)[x]
                } else {
                    labels_view(bv)[x - prefix.len()]
                }) by {
                    if x < prefix.len() {
                        assert(whole[x] == prefix[x]);
                    } else {
                        assert(whole[x] == bv[x - prefix.len()]);
                    }
                }
            }
            assert(self.ranges@ == old_ranges.push(
                RangeEntry { node, start: prefix.len() as usize, end: whole.len() as usize },
            ));
            assert forall|m: int, k: int|
                0 <= m < self.ranges@.len() && (#[trigger] self.ranges@[m]).start <= k
                    < self.ranges@[m].end implies (#[trigger] whole[k]).sort_node
                == self.ranges@[m].node by {
                if m < old_ranges.len() {
                    assert(self.ranges@[m] == old_ranges[m]);
                    assert(old_ranges[m].end <= prefix.len()) by {
                        if old_ranges.len() > 0 {
                            lemma_range_ends(old_ranges, m);
                        }
                    }
                    assert(whole[k] == prefix[k]);
                } else {
                    assert(whole[k] == bv[k - prefix.len()]);
                    assert(bv[k - prefix.len()].sort_node == bv[0].sort_node);
                }
            }
            assert forall|m1: int, m2: int|
                0 <= m1 < m2 < self.ranges@.len() implies (#[trigger] self.ranges@[m1]).node.raw
                < (#[trigger] self.ranges@[m2]).node.raw by {
                if m2 < old_ranges.len() {
                    assert(self.ranges@[m1] == old_ranges[m1]);
                    assert(self.ranges@[m2] == old_ranges[m2]);
                } else {
                    assert(self.ranges@[m1] == old_ranges[m1]);
                    assert(old_ranges[m1].node.raw <= old_ranges.last().node.raw) by {
                        if m1 < old_ranges.len() - 1 {
                            assert(old_ranges[m1].node.raw < old_ranges.last().node.raw);
                        }
                    }
                }
            }
        }
    }

    /// Builds the store from a strictly sorted edge stream: batches of
    /// consecutive edges sharing a sort node become the store's groups.
    #[verifier::rlimit(100)]
    pub fn build_store(&mut self, edges: Vec<SortableEdge>) -> (r: EdgeStore)
        requires
            old(self).ranges@.len() == 0,
            old(self).nodes@.len() == 0,
            old(self).labels@.len() == 0,
            edges_sorted(edges@),
        ensures
            r.wf(),
            r.reversed == old(self).reversed,
            store_encodes(r, edges@),
    {
        let ghost ev = edges@;
        let mut rest = edges;
        let mut batch: Vec<SortableEdge> = Vec::new();
        proof {
            assert(secs_view(ev.take(0)) =~= Seq::<NodeID>::empty());
            assert(labels_view(ev.take(0)) =~= Seq::<String>::empty());
            assert(self.nodes@ =~= secs_view(ev.take(0)));
            assert(self.labels@ =~= labels_view(ev.take(0)));
            assert(batch@ =~= ev.subrange(0, 0));
            assert(self.encodes(ev.take(0))) by {
                reveal(writer_encodes);
                assert(ev.take(0).len() == 0);
                assert(self.nodes@ =~= secs_view(ev.take(0)));
                assert(self.labels@ =~= labels_view(ev.take(0)));
                assert(self.ranges@.len() == 0);
            }
        }
        while rest.len() > 0
            invariant
                rest@.len() + batch@.len() <= ev.len(),
                rest@ == ev.skip(ev.len() - rest@.len()),
                batch@ == ev.subrange(
                    ev.len() - rest@.len() - batch@.len(),
                    ev.len() - rest@.len(),
                ),
                edges_sorted(ev),
                self.encodes(ev.take(ev.len() - rest@.len() - batch@.len())),
                forall|i: int|
                    0 <= i < batch@.len() ==> (#[trigger] batch@[i]).sort_node
                        == batch@[0].sort_node,
                batch@.len() > 0 ==> (self.ranges@.len() > 0
                    ==> self.ranges@.last().node.raw < batch@[0].sort_node.raw),
                batch@.len() == 0 ==> (self.ranges@.len() > 0 && rest@.len() > 0
                    ==> self.ranges@.last().node.raw < rest@[0].sort_node.raw),
                self.reversed == old(self).reversed,
            decreases rest@.len(),
        {
            let ghost done = ev.len() - rest@.len();
            let ghost bpre = batch@;
            let e = rest.remove(0);
            proof {
                assert(ev.skip(done)[0] == ev[done]);
                assert(e == ev[done]);
                assert forall|y: int| 0 <= y < rest@.len() implies rest@[y] == ev[done + 1 + y]
                    by {
                    assert(rest@[y] == ev.skip(done)[y + 1]);
                }
                assert(rest@ =~= ev.skip(done + 1));
            }
            let flush = batch.len() > 0 && batch[batch.len() - 1].sort_node.raw
                != e.sort_node.raw;
            if flush {
                self.put_store(batch, Ghost(ev.take(done - bpre.len())));
                batch = Vec::new();
                proof {
                    assert(ev.take(done - bpre.len()) + bpre =~= ev.take(done));
                    assert(self.encodes(ev.take(done)));
                    assert(batch@ =~= ev.subrange(done, done));
                    // the new last range node is the batch's sort node,
                    // below the incoming edge's
                    assert(self.ranges@.last().node == bpre[0].sort_node);
                    assert(ev[done - 1] == bpre[bpre.len() - 1]);
                    assert(ev[done - 1].sort_node == bpre[0].sort_node);
                    assert(key_lt(ev[done - 1], ev[done]));
                    assert(ev[done - 1].sort_node.raw != ev[done].sort_node.raw);
                    assert(self.ranges@.last().node.raw < ev[done].sort_node.raw);
                }
            }
            let ghost bmid = batch@;
            batch.push(e);
            proof {
                assert(batch@ =~= bmid.push(ev[done]));
                let lo = done + 1 - batch@.len();
                assert forall|x: int| 0 <= x < batch@.len() implies batch@[x] == ev.subrange(
                    lo,
                    done + 1,
                )[x] by {
                    if x < batch@.len() - 1 {
                        assert(batch@[x] == bmid[x]);
                    }
                }
                assert(batch@ =~= ev.subrange(lo, done + 1));
            }
        }
        if batch.len() > 0 {
            let ghost bpre = batch@;
            let ghost total = ev.len() as int;
            self.put_store(batch, Ghost(ev.take(total - bpre.len())));
            proof {
                assert(ev.take(total - bpre.len()) + bpre =~= ev.take(total));
                assert(self.encodes(ev.take(total)));
            }
        }
        proof {
            assert(ev.take(ev.len() as int) == ev);
            assert(self.encodes(ev));
        }
        self.seal(Ghost(ev))
    }

    /// Moves the finished layout into a readable store.
    fn seal(&mut self, Ghost(ev): Ghost<Seq<SortableEdge>>) -> (r: EdgeStore)
        requires
            old(self).encodes(ev),
            edges_sorted(ev),
        ensures
            r.wf(),
            r.reversed == old(self).reversed,
            store_encodes(r, ev),
    {
        let mut ranges: Vec<RangeEntry> = Vec::new();
        core::mem::swap(&mut self.ranges, &mut ranges);
        let mut nodes: Vec<NodeID> = Vec::new();
        core::mem::swap(&mut self.nodes, &mut nodes);
        let mut labels: Vec<String> = Vec::new();
        core::mem::swap(&mut self.labels, &mut labels);
        let store = EdgeStore {
            reversed: self.reversed,
            ranges,
            nodes_stream: nodes,
            labels_stream: labels,
            live: Vec::new(),
        };
        proof {
            lemma_encoded_store_wf(store, ev);
        }
        store
    }
}

/// Earlier ranges end where later ones begin: the segmentation is
/// contiguous and ordered.
proof fn lemma_ends_le(ranges: Seq<RangeEntry>, m1: int, m2: int)
    requires
        0 <= m1 < m2 < ranges.len(),
        forall|x: int|
            0 <= x < ranges.len() - 1 ==> (#[trigger] ranges[x]).end == ranges[x + 1].start,
        forall|x: int| 0 <= x < ranges.len() ==> (#[trigger] ranges[x]).start < ranges[x].end,
    ensures
        ranges[m1].end <= ranges[m2].start,
    decreases m2 - m1,
{
    if m1 + 1 < m2 {
        lemma_ends_le(ranges, m1 + 1, m2);
    }
}

/// Every stream position lies in some range of a contiguous segmentation.
proof fn lemma_coverage(ranges: Seq<RangeEntry>, k: int)
    requires
        ranges.len() > 0,
        ranges[0].start == 0,
        forall|x: int|
            0 <= x < ranges.len() - 1 ==> (#[trigger] ranges[x]).end == ranges[x + 1].start,
        forall|x: int| 0 <= x < ranges.len() ==> (#[trigger] ranges[x]).start < ranges[x].end,
        0 <= k < ranges.last().end,
    ensures
        exists|m: int|
            0 <= m < ranges.len() && (#[trigger] ranges[m]).start <= k < ranges[m].end,
    decreases ranges.len(),
{
    if k >= ranges.last().start {
        assert(ranges[ranges.len() - 1].start <= k < ranges[ranges.len() - 1].end);
    } else {
        let prefix = ranges.drop_last();
        assert(prefix.len() > 0) by {
            if ranges.len() == 1 {
                assert(k < ranges.last().start == ranges[0].start);
            }
        }
        assert forall|x: int|
            0 <= x < prefix.len() - 1 implies (#[trigger] prefix[x]).end == prefix[x + 1].start
            by {
            assert(prefix[x] == ranges[x]);
            assert(prefix[x + 1] == ranges[x + 1]);
        }
        assert forall|x: int| 0 <= x < prefix.len() implies (#[trigger] prefix[x]).start
            < prefix[x].end by {
            assert(prefix[x] == ranges[x]);
        }
        assert(prefix.last().end == ranges.last().start);
        assert(prefix[0] == ranges[0]);
        lemma_coverage(prefix, k);
        let m = choose|m: int|
            0 <= m < prefix.len() && (#[trigger] prefix[m]).start <= k < prefix[m].end;
        assert(ranges[m].start <= k < ranges[m].end);
    }
}

/// A position at or past a node's range belongs to a later range, whose
/// sort node is larger.
proof fn lemma_after_group_is_other(
    store: EdgeStore,
    s: Seq<SortableEdge>,
    n: NodeID,
    m: int,
    k: int,
)
    requires
        store_encodes(store, s),
        0 <= m < store.ranges@.len(),
        store.ranges@[m].node == n,
        store.ranges@[m].end <= k < s.len(),
    ensures
        s[k].sort_node != n,
{
    reveal(writer_encodes);
    lemma_coverage(store.ranges@, k);
    let m2 = choose|m2: int|
        0 <= m2 < store.ranges@.len() && (#[trigger] store.ranges@[m2]).start <= k
            < store.ranges@[m2].end;
    if m2 <= m {
        if m2 < m {
            lemma_ends_le(store.ranges@, m2, m);
            lemma_range_ends(store.ranges@, m);
            assert(store.ranges@[m2].end <= store.ranges@[m].start);
            assert(k < store.ranges@[m].end);
            assert(false);
        } else {
            assert(k < store.ranges@[m].end);
            assert(false);
        }
    }
    assert(store.ranges@[m].node.raw < store.ranges@[m2].node.raw);
    assert(s[k].sort_node == store.ranges@[m2].node);
}

/// From a position where the sort node no longer occurs, it contributes
/// no secondaries.
proof fn lemma_secs_empty_from(
    store: EdgeStore,
    s: Seq<SortableEdge>,
    n: NodeID,
    m: int,
    i: int,
)
    requires
        store_encodes(store, s),
        0 <= m < store.ranges@.len(),
        store.ranges@[m].node == n,
        store.ranges@[m].end <= i,
        0 <= i,
    ensures
        secs_for(s, n, i) == Seq::<NodeID>::empty(),
    decreases s.len() - i,
{
    if i < s.len() {
        lemma_after_group_is_other(store, s, n, m, i);
        lemma_secs_empty_from(store, s, n, m, i + 1);
    }
}

/// Within a node's range, the remaining secondaries are exactly the
/// remaining slice of the node stream.
#[verifier::rlimit(100)]
proof fn lemma_secs_slice(store: EdgeStore, s: Seq<SortableEdge>, n: NodeID, m: int, i: int)
    requires
        store_encodes(store, s),
        edges_sorted(s),
        0 <= m < store.ranges@.len(),
        store.ranges@[m].node == n,
        store.ranges@[m].start <= i <= store.ranges@[m].end,
    ensures
        secs_for(s, n, i) == store.nodes_stream@.subrange(i, store.ranges@[m].end as int),
    decreases store.ranges@[m].end - i,
{
    reveal(writer_encodes);
    lemma_range_ends(store.ranges@, m);
    let e = store.ranges@[m].end as int;
    if i == e {
        lemma_secs_empty_from(store, s, n, m, i);
        assert(store.nodes_stream@.subrange(i, e) =~= Seq::<NodeID>::empty());
    } else {
        assert(s[i].sort_node == n);
        lemma_secs_slice(store, s, n, m, i + 1);
        assert(store.nodes_stream@[i] == s[i].secondary_node);
        assert(seq![s[i].secondary_node] + store.nodes_stream@.subrange(i + 1, e)
            =~= store.nodes_stream@.subrange(i, e));
    }
}

/// When no range carries the node, it contributed no edges at all.
proof fn lemma_secs_absent(store: EdgeStore, s: Seq<SortableEdge>, n: NodeID, i: int)
    requires
        store_encodes(store, s),
        forall|m: int| 0 <= m < store.ranges@.len() ==> (#[trigger] store.ranges@[m]).node != n,
        0 <= i,
    ensures
        secs_for(s, n, i) == Seq::<NodeID>::empty(),
    decreases s.len() - i,
{
    if i < s.len() {
        reveal(writer_encodes);
        assert(store.ranges@.len() > 0) by {
            reveal(writer_encodes);
        }
        lemma_coverage(store.ranges@, i);
        let m = choose|m: int|
            0 <= m < store.ranges@.len() && (#[trigger] store.ranges@[m]).start <= i
                < store.ranges@[m].end;
        assert(s[i].sort_node == store.ranges@[m].node) by {
            reveal(writer_encodes);
        }
        lemma_secs_absent(store, s, n, i + 1);
    }
}

/// Looking a node up in the ranges table finds exactly its (unique)
/// entry.
proof fn lemma_find_range_resolves(store: EdgeStore, n: NodeID, i: int)
    requires
        forall|m1: int, m2: int|
            0 <= m1 < m2 < store.ranges@.len() ==> (#[trigger] store.ranges@[m1]).node.raw < (
            #[trigger] store.ranges@[m2]).node.raw,
        0 <= i <= store.ranges@.len(),
    ensures
        (exists|m: int|
            i <= m < store.ranges@.len() && (#[trigger] store.ranges@[m]).node == n)
            ==> store.find_range(n, i) == Some(
            store.ranges@[choose|m: int|
                i <= m < store.ranges@.len() && (#[trigger] store.ranges@[m]).node == n],
        ),
        !(exists|m: int|
            i <= m < store.ranges@.len() && (#[trigger] store.ranges@[m]).node == n)
            ==> store.find_range(n, i) is None,
    decreases store.ranges@.len() - i,
{
    if i < store.ranges@.len() {
        lemma_find_range_resolves(store, n, i + 1);
        if store.ranges@[i].node == n {
            assert(store.find_range(n, i) == Some(store.ranges@[i]));
            let w = choose|m: int|
                i <= m < store.ranges@.len() && (#[trigger] store.ranges@[m]).node == n;
            assert(store.ranges@[w] == store.ranges@[i]) by {
                if w != i {
                    assert(store.ranges@[i].node.raw < store.ranges@[w].node.raw);
                }
            }
        } else {
            if exists|m: int|
                i + 1 <= m < store.ranges@.len() && (#[trigger] store.ranges@[m]).node == n {
                let w1 = choose|m: int|
                    i + 1 <= m < store.ranges@.len() && (#[trigger] store.ranges@[m]).node == n;
                let w2 = choose|m: int|
                    i <= m < store.ranges@.len() && (#[trigger] store.ranges@[m]).node == n;
                assert(store.ranges@[w1] == store.ranges@[w2]) by {
                    if w1 < w2 {
                        assert(store.ranges@[w1].node.raw < store.ranges@[w2].node.raw);
                    } else if w2 < w1 {
                        assert(store.ranges@[w2].node.raw < store.ranges@[w1].node.raw);
                    }
                }
            }
        }
    }
}

/// For every edge put before `finalize`, the finalized store yields, for
/// each sort node, exactly the sorted, deduplicated secondary nodes it
/// was given: the store's group of a node is the secondaries of that
/// node's edges in the (strictly sorted, deduplicated) writer batch, and
/// nodes with no edges have no group.
pub proof fn lemma_finalized_groups(store: EdgeStore, s: Seq<SortableEdge>, n: NodeID)
    requires
        store_encodes(store, s),
        edges_sorted(s),
    ensures
        match store.find_range(n, 0) {
            Some(r) => store.nodes_stream@.subrange(r.start as int, r.end as int) == secs_for(
                s,
                n,
                0,
            ),
            None => secs_for(s, n, 0) == Seq::<NodeID>::empty(),
        },
{
    reveal(writer_encodes);
    lemma_find_range_resolves(store, n, 0);
    if exists|m: int| 0 <= m < store.ranges@.len() && (#[trigger] store.ranges@[m]).node == n {
        let m = choose|m: int|
            0 <= m < store.ranges@.len() && (#[trigger] store.ranges@[m]).node == n;
        assert(store.find_range(n, 0) == Some(store.ranges@[m]));
        // the secondaries before the group are for other nodes
        lemma_secs_before_group(store, s, n, m, 0);
        lemma_secs_slice(store, s, n, m, store.ranges@[m].start as int);
    } else {
        lemma_secs_absent(store, s, n, 0);
    }
}

/// Before a node's range begins, its secondaries are untouched: the
/// edges there belong to smaller sort nodes.
proof fn lemma_secs_before_group(
    store: EdgeStore,
    s: Seq<SortableEdge>,
    n: NodeID,
    m: int,
    i: int,
)
    requires
        store_encodes(store, s),
        edges_sorted(s),
        0 <= m < store.ranges@.len(),
        store.ranges@[m].node == n,
        0 <= i <= store.ranges@[m].start,
    ensures
        secs_for(s, n, i) == secs_for(s, n, store.ranges@[m].start as int),
    decreases store.ranges@[m].start - i,
{
    if i < store.ranges@[m].start {
        assert(i < s.len()) by {
            reveal(writer_encodes);
            lemma_range_ends(store.ranges@, m);
        }
        assert(s[i].sort_node != n) by {
            reveal(writer_encodes);
            lemma_coverage(store.ranges@, i);
            let m2 = choose|m2: int|
                0 <= m2 < store.ranges@.len() && (#[trigger] store.ranges@[m2]).start <= i
                    < store.ranges@[m2].end;
            assert(s[i].sort_node == store.ranges@[m2].node);
            if m2 == m {
                assert(store.ranges@[m].start <= i);
                assert(false);
            } else if m2 > m {
                lemma_ends_le(store.ranges@, m, m2);
                assert(store.ranges@[m].end <= store.ranges@[m2].start <= i);
                assert(store.ranges@[m].start < store.ranges@[m].end);
                assert(false);
            } else {
                assert(store.ranges@[m2].node.raw < store.ranges@[m].node.raw);
            }
        }
        lemma_secs_before_group(store, s, n, m, i + 1);
    }
}

/// Every earlier range ends at or before the prefix the writer has
/// encoded.
proof fn lemma_range_ends(ranges: Seq<RangeEntry>, m: int)
    requires
        0 <= m < ranges.len(),
        forall|x: int|
            0 <= x < ranges.len() - 1 ==> (#[trigger] ranges[x]).end == ranges[x + 1].start,
        forall|x: int| 0 <= x < ranges.len() ==> (#[trigger] ranges[x]).start < ranges[x].end,
    ensures
        ranges[m].end <= ranges.last().end,
    decreases ranges.len() - m,
{
    if m < ranges.len() - 1 {
        lemma_range_ends(ranges, m + 1);
        assert(ranges[m].end == ranges[m + 1].start);
    }
}

} // verus!
