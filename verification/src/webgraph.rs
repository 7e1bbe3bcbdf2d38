//! The webgraph edge store. A bulk-built store holds, per sort node, the
//! byte-range of its sorted, deduplicated secondary nodes and their labels
//! (built by [`crate::webgraph_writer`]); edges inserted online queue in a
//! live list. Backlink queries serve both, ordered by source node id.

use vstd::prelude::*;
use vstd::string::{StrSliceExecFns, StringSliceAdditionalSpecFns};
use std::collections::HashSet;
use crate::hashing::{hash64, spec_hash64};

verus! {

broadcast use vstd::std_specs::hash::group_hash_axioms;

/// A node identifier: the engine's 64-bit hash of the node's name.
#[derive(Clone, Copy, PartialEq, Eq, Structural, Debug, Hash, PartialOrd, Ord)]
pub struct NodeID {
    pub raw: u64,
}

impl NodeID {
    pub fn as_u64(&self) -> (r: u64)
        ensures
            r == self.raw,
    {
        self.raw
    }
}

/// Link-relationship flags, packed into one word.
#[derive(Clone, Copy, PartialEq, Eq, Structural, Debug, Hash)]
pub struct RelFlags {
    pub raw: u64,
}

impl Default for RelFlags {
    fn default() -> (r: Self)
        ensures
            r.raw == 0,
    {
        RelFlags { raw: 0 }
    }
}

/// A node: a page or host name. Its id is the hash of the name.
#[derive(Debug)]
pub struct Node {
    pub name: Vec<u8>,
}

/// Where the scheme prefix `"://"` ends in a URL, if it has one: the
/// index just past the first occurrence.
pub open spec fn scheme_end_from(s: Seq<u8>, i: int) -> Option<int>
    decreases s.len() - i,
{
    if i < 0 || i + 3 > s.len() {
        None
    } else if s[i] == 58 && s[i + 1] == 47 && s[i + 2] == 47 {
        Some(i + 3)
    } else {
        scheme_end_from(s, i + 1)
    }
}

/// Where the host part ends: the first `'/'` at or after `i`, or the end.
pub open spec fn host_end_from(s: Seq<u8>, i: int) -> int
    decreases s.len() - i,
{
    if i < 0 || i >= s.len() {
        s.len() as int
    } else if s[i] == 47 {
        i
    } else {
        host_end_from(s, i + 1)
    }
}

/// The host of a URL: what stands between the scheme (if any) and the
/// first slash of the path.
pub open spec fn host_of(s: Seq<u8>) -> Seq<u8> {
    let start = match scheme_end_from(s, 0) {
        Some(j) => j,
        None => 0,
    };
    s.subrange(start, host_end_from(s, start))
}


/// The host end never lies before its start or past the string.
pub proof fn lemma_host_end_bounds(s: Seq<u8>, i: int)
    requires
        0 <= i <= s.len(),
    ensures
        i <= host_end_from(s, i) <= s.len(),
    decreases s.len() - i,
{
    if i < s.len() && s[i] != 47 {
        lemma_host_end_bounds(s, i + 1);
    }
}

/// Finds the end of the scheme prefix, if the bytes contain `"://"`.
fn find_scheme_end(s: &Vec<u8>) -> (r: Option<usize>)
    ensures
        match r {
            Some(j) => scheme_end_from(s@, 0) == Some(j as int) && j <= s@.len(),
            None => scheme_end_from(s@, 0) is None,
        },
{
    if s.len() < 3 {
        return None;
    }
    let mut i: usize = 0;
    while i <= s.len() - 3
        invariant
            s@.len() >= 3,
            i <= s@.len() - 2,
            scheme_end_from(s@, 0) == scheme_end_from(s@, i as int),
        decreases s@.len() - i,
    {
        if s[i] == 58 && s[i + 1] == 47 && s[i + 2] == 47 {
            return Some(i + 3);
        }
        i += 1;
    }
    None
}

/// Finds the first `'/'` at or after `start`, or the end of the bytes.
fn find_host_end(s: &Vec<u8>, start: usize) -> (r: usize)
    requires
        start <= s@.len(),
    ensures
        r == host_end_from(s@, start as int),
        start <= r <= s@.len(),
{
    let mut j: usize = start;
    while j < s.len() && s[j] != 47
        invariant
            start <= j <= s@.len(),
            host_end_from(s@, start as int) == host_end_from(s@, j as int),
        decreases s@.len() - j,
    {
        j += 1;
    }
    j
}

impl Node {
    /// A node named by a URL or host string.
    pub fn from(name: &str) -> (r: Node)
        ensures
            r.name@ == name.spec_bytes(),
    {
        Node { name: name.as_bytes_vec() }
    }

    /// The node of this node's host.
    pub fn into_host(self) -> (r: Node)
        ensures
            r.name@ == host_of(self.name@),
    {
        let s = &self.name;
        let start = match find_scheme_end(s) {
            Some(j) => j,
            None => 0,
        };
        let j = find_host_end(s, start);
        let mut host: Vec<u8> = Vec::new();
        let mut k: usize = start;
        proof {
            lemma_host_end_bounds(s@, start as int);
        }
        while k < j
            invariant
                start <= k <= j <= s@.len(),
                host@ == s@.subrange(start as int, k as int),
            decreases j - k,
        {
            host.push(s[k]);
            proof {
                assert(host@ =~= s@.subrange(start as int, k as int + 1));
            }
            k += 1;
        }
        proof {
            assert(host@ == host_of(self.name@));
        }
        Node { name: host }
    }

    /// The node's id: the hash of its name.
    pub fn id(&self) -> (r: NodeID)
        ensures
            r.raw == spec_hash64(self.name@),
    {
        NodeID { raw: hash64(&self.name) }
    }

    fn clone_node(&self) -> (r: Node)
        ensures
            r.name@ == self.name@,
    {
        let name = self.name.clone();
        proof {
            assert(name@ =~= self.name@);
        }
        Node { name }
    }
}

/// A full edge as it arrives online: labeled, flagged, and weighted by a
/// caller-supplied 64-bit encoding of its combined centrality.
#[derive(Debug)]
pub struct Edge {
    pub from: Node,
    pub to: Node,
    pub label: String,
    pub rel_flags: RelFlags,
    pub combined_centrality: u64,
}

impl Edge {
    pub fn clone_edge(&self) -> (r: Edge)
        ensures
            r.from.name@ == self.from.name@,
            r.to.name@ == self.to.name@,
            r.label@ == self.label@,
            r.rel_flags == self.rel_flags,
            r.combined_centrality == self.combined_centrality,
    {
        Edge {
            from: self.from.clone_node(),
            to: self.to.clone_node(),
            label: self.label.clone(),
            rel_flags: self.rel_flags,
            combined_centrality: self.combined_centrality,
        }
    }
}

/// An edge reduced to node ids and flags.
#[derive(Clone, Copy, PartialEq, Eq, Structural, Debug)]
pub struct SmallEdge {
    pub from: NodeID,
    pub to: NodeID,
    pub rel_flags: RelFlags,
}

/// The id image of a full edge.
pub open spec fn small_of(e: Edge) -> SmallEdge {
    SmallEdge {
        from: NodeID { raw: spec_hash64(e.from.name@) },
        to: NodeID { raw: spec_hash64(e.to.name@) },
        rel_flags: e.rel_flags,
    }
}

/// A backlink query: all edges into one host node.
pub struct HostBacklinksQuery {
    pub node: NodeID,
}

impl HostBacklinksQuery {
    pub fn new(node: NodeID) -> (r: Self)
        ensures
            r.node == node,
    {
        HostBacklinksQuery { node }
    }
}

/// One entry of the ranges table: the slice of the node and label streams
/// that belongs to one sort node.
#[derive(Clone, Copy, PartialEq, Eq, Structural, Debug)]
pub struct RangeEntry {
    pub node: NodeID,
    pub start: usize,
    pub end: usize,
}

/// Inserts an edge into a list sorted by source id, after any equals.
pub open spec fn ins_by_from(s: Seq<SmallEdge>, x: SmallEdge) -> Seq<SmallEdge>
    decreases s.len(),
{
    if s.len() == 0 {
        seq![x]
    } else if x.from.raw < s[0].from.raw {
        seq![x] + s
    } else {
        seq![s[0]] + ins_by_from(s.drop_first(), x)
    }
}

/// Stable sort by source id: repeated sorted insertion.
pub open spec fn sort_by_from(s: Seq<SmallEdge>) -> Seq<SmallEdge>
    decreases s.len(),
{
    if s.len() == 0 {
        Seq::empty()
    } else {
        ins_by_from(sort_by_from(s.drop_last()), s.last())
    }
}

/// The sorted, compressed edge store plus its live (online) edges.
#[derive(Debug)]
pub struct EdgeStore {
    pub reversed: bool,
    pub ranges: Vec<RangeEntry>,
    pub nodes_stream: Vec<NodeID>,
    pub labels_stream: Vec<String>,
    pub live: Vec<Edge>,
}

impl EdgeStore {
    /// Invariants of the persisted layout: aligned streams, each range
    /// inside the streams, at most one range per node (strictly sorted),
    /// and strictly increasing secondary ids within a range.
    pub open spec fn wf(&self) -> bool {
        &&& self.labels_stream@.len() == self.nodes_stream@.len()
        &&& forall|i: int|
            0 <= i < self.ranges@.len() ==> (#[trigger] self.ranges@[i]).start
                <= self.ranges@[i].end <= self.nodes_stream@.len()
        &&& forall|i: int, j: int|
            0 <= i < j < self.ranges@.len() ==> (#[trigger] self.ranges@[i]).node.raw < (
            #[trigger] self.ranges@[j]).node.raw
        &&& forall|i: int, a: int, b: int|
            0 <= i < self.ranges@.len() && (#[trigger] self.ranges@[i]).start <= a < b
                < self.ranges@[i].end ==> (#[trigger] self.nodes_stream@[a]).raw < (
            #[trigger] self.nodes_stream@[b]).raw
    }

    /// The slice of one range as small edges: for a reversed store the
    /// stream holds the sources pointing at the sort node.
    pub open spec fn group_edges(&self, n: NodeID, k: int, e: int) -> Seq<SmallEdge>
        decreases e - k,
    {
        if k < 0 || k >= e || e > self.nodes_stream@.len() {
            Seq::empty()
        } else {
            seq![
                if self.reversed {
                    SmallEdge { from: self.nodes_stream@[k], to: n, rel_flags: RelFlags { raw: 0 } }
                } else {
                    SmallEdge { from: n, to: self.nodes_stream@[k], rel_flags: RelFlags { raw: 0 } }
                },
            ] + self.group_edges(n, k + 1, e)
        }
    }

    /// The range of a node in the ranges table, if present.
    pub open spec fn find_range(&self, n: NodeID, i: int) -> Option<RangeEntry>
        decreases self.ranges@.len() - i,
    {
        if i < 0 || i >= self.ranges@.len() {
            None
        } else if self.ranges@[i].node == n {
            Some(self.ranges@[i])
        } else {
            self.find_range(n, i + 1)
        }
    }

    /// The bulk-stored backlinks of a node.
    pub open spec fn ranged_backlinks(&self, n: NodeID) -> Seq<SmallEdge> {
        match self.find_range(n, 0) {
            Some(r) => self.group_edges(n, r.start as int, r.end as int),
            None => Seq::empty(),
        }
    }

    /// The live edges pointing at `n` (for a reversed store), from edge
    /// `i` on.
    pub open spec fn live_matches(&self, n: NodeID, i: int) -> Seq<SmallEdge>
        decreases self.live@.len() - i,
    {
        if i < 0 || i >= self.live@.len() {
            Seq::empty()
        } else if small_of(self.live@[i]).to == n {
            seq![small_of(self.live@[i])] + self.live_matches(n, i + 1)
        } else {
            self.live_matches(n, i + 1)
        }
    }

    /// What a backlink query answers: bulk and live matches, ordered by
    /// source id, insertion order among equals.
    pub open spec fn spec_backlinks(&self, n: NodeID) -> Seq<SmallEdge> {
        sort_by_from(self.ranged_backlinks(n) + self.live_matches(n, 0))
    }

    /// An empty backlink (reversed) store.
    pub fn open() -> (r: EdgeStore)
        ensures
            r.wf(),
            r.reversed,
            r.ranges@.len() == 0,
            r.nodes_stream@.len() == 0,
            r.live@.len() == 0,
    {
        EdgeStore {
            reversed: true,
            ranges: Vec::new(),
            nodes_stream: Vec::new(),
            labels_stream: Vec::new(),
            live: Vec::new(),
        }
    }

    /// Queues one edge; it is immediately visible to queries.
    pub fn insert(&mut self, edge: Edge) -> (r: Result<(), crate::index::IndexError>)
        requires
            old(self).wf(),
        ensures
            r is Ok,
            final(self).wf(),
            final(self).reversed == old(self).reversed,
            final(self).ranges@ == old(self).ranges@,
            final(self).nodes_stream@ == old(self).nodes_stream@,
            final(self).live@ == old(self).live@.push(edge),
    {
        self.live.push(edge);
        Ok(())
    }

    /// Seals the queued edges. In this in-memory store queued edges are
    /// already queryable, so the model does not change; durability is the
    /// caller's storage concern.
    pub fn commit(&mut self) -> (r: Result<(), crate::index::IndexError>)
        requires
            old(self).wf(),
        ensures
            r is Ok,
            *final(self) == *old(self),
    {
        Ok(())
    }

    /// Read-path optimization hook; the in-memory layout is already in
    /// its read form, so the store is unchanged.
    pub fn optimize_read(&mut self) -> (r: Result<(), crate::index::IndexError>)
        requires
            old(self).wf(),
        ensures
            r is Ok,
            *final(self) == *old(self),
    {
        Ok(())
    }

    /// Absorbs another store's online segment: its live edges join this
    /// store's. The bulk part of a store is immutable once built — it
    /// keeps node ids and labels, not the full edges — so two bulk
    /// tables join through the build pipeline, where the writer still
    /// holds every edge and rebuilds the layout whole; a store offered
    /// for absorption here must therefore carry no bulk part.
    pub fn merge(&mut self, other: Self) -> (r: Result<(), crate::index::IndexError>)
        requires
            old(self).wf(),
            other.ranges@.len() == 0,
        ensures
            r is Ok,
            final(self).wf(),
            final(self).reversed == old(self).reversed,
            final(self).ranges@ == old(self).ranges@,
            final(self).nodes_stream@ == old(self).nodes_stream@,
            final(self).live@ == old(self).live@ + other.live@,
    {
        let mut incoming = other.live;
        let ghost pre = self.live@;
        let ghost inc = incoming@;
        proof {
            assert(self.live@ + incoming@ =~= pre + inc);
        }
        while incoming.len() > 0
            invariant
                self.live@ + incoming@ == pre + inc,
                self.wf(),
                self.ranges@ == old(self).ranges@,
                self.nodes_stream@ == old(self).nodes_stream@,
                self.labels_stream@ == old(self).labels_stream@,
                self.reversed == old(self).reversed,
            decreases incoming@.len(),
        {
            let ghost lv = self.live@;
            let ghost iv = incoming@;
            let e = incoming.remove(0);
            self.live.push(e);
            proof {
                assert(self.live@ + incoming@ =~= lv + iv);
            }
        }
        proof {
            assert(incoming@ =~= Seq::<Edge>::empty());
            assert(self.live@ =~= pre + inc);
        }
        Ok(())
    }

    /// Looks a node up in the ranges table.
    fn lookup_range(&self, n: NodeID) -> (r: Option<RangeEntry>)
        requires
            self.wf(),
        ensures
            r == self.find_range(n, 0),
            r matches Some(e) ==> e.start <= e.end <= self.nodes_stream@.len(),
    {
        let mut ri: usize = 0;
        while ri < self.ranges.len()
            invariant
                ri <= self.ranges@.len(),
                self.wf(),
                self.find_range(n, 0) == self.find_range(n, ri as int),
            decreases self.ranges@.len() - ri,
        {
            let entry = self.ranges[ri];
            if entry.node.raw == n.raw {
                proof {
                    assert(entry.node == n);
                }
                return Some(entry);
            }
            ri += 1;
        }
        None
    }

    /// Runs a backlink query: the matching edges, ordered by source id.
    pub fn search(&self, query: &HostBacklinksQuery) -> (r: Result<
        Vec<SmallEdge>,
        crate::index::IndexError,
    >)
        requires
            self.wf(),
            self.reversed,
        ensures
            r is Ok,
            r->Ok_0@ == self.spec_backlinks(query.node),
    {
        let n = query.node;
        let mut candidates: Vec<SmallEdge> = Vec::new();
        let range = self.lookup_range(n);
        let ghost ranged = self.ranged_backlinks(n);
        match range {
            Some(entry) => {
                let mut k: usize = entry.start;
                proof {
                    assert(self.find_range(n, 0) == Some(entry));
                }
                while k < entry.end
                    invariant
                        entry.start <= k <= entry.end <= self.nodes_stream@.len(),
                        self.wf(),
                        self.reversed,
                        self.find_range(n, 0) == Some(entry),
                        candidates@ + self.group_edges(n, k as int, entry.end as int)
                            == self.group_edges(n, entry.start as int, entry.end as int),
                    decreases entry.end - k,
                {
                    let ghost pre = candidates@;
                    let id = self.nodes_stream[k];
                    candidates.push(SmallEdge { from: id, to: n, rel_flags: RelFlags { raw: 0 } });
                    proof {
                        assert(candidates@ =~= pre + seq![
                            SmallEdge { from: id, to: n, rel_flags: RelFlags { raw: 0 } },
                        ]);
                        assert(pre + seq![
                            SmallEdge { from: id, to: n, rel_flags: RelFlags { raw: 0 } },
                        ] + self.group_edges(n, k as int + 1, entry.end as int) =~= pre
                            + self.group_edges(n, k as int, entry.end as int));
                    }
                    k += 1;
                }
                proof {
                    assert(self.group_edges(n, entry.end as int, entry.end as int)
                        =~= Seq::<SmallEdge>::empty());
                    assert(candidates@ =~= self.group_edges(
                        n,
                        entry.start as int,
                        entry.end as int,
                    ));
                }
            },
            None => {
                proof {
                    assert(ranged =~= Seq::<SmallEdge>::empty());
                    assert(candidates@ =~= ranged);
                }
            },
        }
        proof {
            assert(candidates@ == ranged);
        }
        // the live matches, in insertion order
        let mut li: usize = 0;
        proof {
            assert(candidates@ =~= ranged + self.live_matches(n, 0).take(0));
        }
        while li < self.live.len()
            invariant
                li <= self.live@.len(),
                self.wf(),
                self.reversed,
                ranged == self.ranged_backlinks(n),
                candidates@ + self.live_matches(n, li as int) == ranged + self.live_matches(n, 0),
            decreases self.live@.len() - li,
        {
            let ghost pre = candidates@;
            let e = &self.live[li];
            let to_id = e.to.id();
            if to_id.raw == n.raw {
                let from_id = e.from.id();
                candidates.push(SmallEdge { from: from_id, to: to_id, rel_flags: e.rel_flags });
                proof {
                    assert(small_of(self.live@[li as int]).to == n);
                    assert(candidates@ =~= pre + seq![small_of(self.live@[li as int])]);
                    assert(pre + seq![small_of(self.live@[li as int])] + self.live_matches(
                        n,
                        li as int + 1,
                    ) =~= pre + self.live_matches(n, li as int));
                }
            } else {
                proof {
                    assert(small_of(self.live@[li as int]).to != n);
                    assert(self.live_matches(n, li as int) == self.live_matches(n, li as int + 1));
                }
            }
            li += 1;
        }
        proof {
            assert(self.live_matches(n, self.live@.len() as int) =~= Seq::<SmallEdge>::empty());
            assert(candidates@ =~= ranged + self.live_matches(n, 0));
        }
        Ok(sort_small_edges(candidates))
    }

    /// Turns a query's fruit into the typed result; for a backlink query
    /// the collected edges already are the answer.
    pub fn retrieve(&self, _query: &HostBacklinksQuery, fruit: Vec<SmallEdge>) -> (r: Result<
        Vec<SmallEdge>,
        crate::index::IndexError,
    >)
        ensures
            r is Ok,
            r->Ok_0@ == fruit@,
    {
        Ok(fruit)
    }
}

/// Sorted insertion keeps the recursive specification.
proof fn lemma_ins_at(s: Seq<SmallEdge>, x: SmallEdge, k: int)
    requires
        0 <= k <= s.len(),
        forall|j: int| 0 <= j < k ==> (#[trigger] s[j]).from.raw <= x.from.raw,
        k < s.len() ==> x.from.raw < s[k].from.raw,
    ensures
        ins_by_from(s, x) == s.take(k) + seq![x] + s.skip(k),
    decreases k,
{
    if s.len() == 0 {
        assert(s.take(0) + seq![x] + s.skip(0) =~= seq![x]);
    } else if k == 0 {
        assert(s.take(0) + seq![x] + s.skip(0) =~= seq![x] + s);
    } else {
        assert(s[0].from.raw <= x.from.raw);
        lemma_ins_at(s.drop_first(), x, k - 1);
        assert forall|j: int| 0 <= j < k - 1 implies (#[trigger] s.drop_first()[j]).from.raw
            <= x.from.raw by {
            assert(s.drop_first()[j] == s[j + 1]);
        }
        assert(ins_by_from(s, x) == seq![s[0]] + ins_by_from(s.drop_first(), x));
        assert(seq![s[0]] + (s.drop_first().take(k - 1) + seq![x] + s.drop_first().skip(k - 1))
            =~= s.take(k) + seq![x] + s.skip(k));
    }
}

/// Inserts into a vector sorted by source id, after any equal ids.
fn insert_small_edge(v: &mut Vec<SmallEdge>, x: SmallEdge)
    ensures
        final(v)@ == ins_by_from(old(v)@, x),
{
    let mut k: usize = 0;
    while k < v.len() && v[k].from.raw <= x.from.raw
        invariant
            k <= v@.len(),
            forall|j: int| 0 <= j < k ==> (#[trigger] v@[j]).from.raw <= x.from.raw,
        decreases v@.len() - k,
    {
        k += 1;
    }
    proof {
        lemma_ins_at(v@, x, k as int);
    }
    v.insert(k, x);
    proof {
        assert(v@ =~= old(v)@.take(k as int) + seq![x] + old(v)@.skip(k as int));
    }
}

/// Sorts edges by source id, stably.
fn sort_small_edges(input: Vec<SmallEdge>) -> (r: Vec<SmallEdge>)
    ensures
        r@ == sort_by_from(input@),
{
    let mut out: Vec<SmallEdge> = Vec::new();
    let mut i: usize = 0;
    proof {
        assert(input@.take(0) =~= Seq::<SmallEdge>::empty());
        assert(out@ =~= sort_by_from(input@.take(0)));
    }
    while i < input.len()
        invariant
            i <= input@.len(),
            out@ == sort_by_from(input@.take(i as int)),
        decreases input@.len() - i,
    {
        let x = input[i];
        insert_small_edge(&mut out, x);
        proof {
            assert(input@.take(i as int + 1).drop_last() == input@.take(i as int));
            assert(input@.take(i as int + 1).last() == input@[i as int]);
        }
        i += 1;
    }
    proof {
        assert(input@.take(input@.len() as int) == input@);
    }
    out
}

/// A cursor over the id columns of the store, over a half-open document
/// range clipped to the number of stored edges.
pub struct SmallSegmentEdgesIter {
    pub from_id: Vec<NodeID>,
    pub to_id: Vec<NodeID>,
    pub rel_flags: Vec<RelFlags>,
    pub doc_range_end: usize,
    pub current_doc: usize,
}

/// The small edges a store holds, bulk groups first (in ranges order),
/// then the live edges.
pub open spec fn ranged_small_from(store: &EdgeStore, i: int) -> Seq<SmallEdge>
    decreases store.ranges@.len() - i,
{
    if i < 0 || i >= store.ranges@.len() {
        Seq::empty()
    } else {
        store.group_edges(
            store.ranges@[i].node,
            store.ranges@[i].start as int,
            store.ranges@[i].end as int,
        ) + ranged_small_from(store, i + 1)
    }
}

pub open spec fn live_small_from(store: &EdgeStore, i: int) -> Seq<SmallEdge>
    decreases store.live@.len() - i,
{
    if i < 0 || i >= store.live@.len() {
        Seq::empty()
    } else {
        seq![small_of(store.live@[i])] + live_small_from(store, i + 1)
    }
}

pub open spec fn all_small(store: &EdgeStore) -> Seq<SmallEdge> {
    ranged_small_from(store, 0) + live_small_from(store, 0)
}

impl SmallSegmentEdgesIter {
    /// A cursor over the store's edges, restricted to documents
    /// `offset..limit`, clipped to what exists.
    pub fn new(store: &EdgeStore, offset: u32, limit: u32) -> (r: Self)
        requires
            store.wf(),
        ensures
            r.from_id@.len() == all_small(store).len(),
            forall|j: int|
                0 <= j < all_small(store).len() ==> #[trigger] r.from_id@[j] == all_small(
                    store,
                )[j].from,
            forall|j: int|
                0 <= j < all_small(store).len() ==> #[trigger] r.to_id@[j] == all_small(
                    store,
                )[j].to,
            forall|j: int|
                0 <= j < all_small(store).len() ==> #[trigger] r.rel_flags@[j] == all_small(
                    store,
                )[j].rel_flags,
            r.current_doc == if offset as int <= all_small(store).len() {
                offset as int
            } else {
                all_small(store).len() as int
            },
            r.doc_range_end == if limit as int <= all_small(store).len() {
                limit as int
            } else {
                all_small(store).len() as int
            },
    {
        let edges = collect_all_small(store);
        let total = edges.len();
        let end = if (limit as usize) <= total {
            limit as usize
        } else {
            total
        };
        let start = if (offset as usize) <= total {
            offset as usize
        } else {
            total
        };
        let mut from_id: Vec<NodeID> = Vec::new();
        let mut to_id: Vec<NodeID> = Vec::new();
        let mut rel_flags: Vec<RelFlags> = Vec::new();
        let mut i: usize = 0;
        while i < edges.len()
            invariant
                i <= edges@.len(),
                edges@ == all_small(store),
                from_id@.len() == i,
                to_id@.len() == i,
                rel_flags@.len() == i,
                forall|j: int| 0 <= j < i ==> #[trigger] from_id@[j] == edges@[j].from,
                forall|j: int| 0 <= j < i ==> #[trigger] to_id@[j] == edges@[j].to,
                forall|j: int| 0 <= j < i ==> #[trigger] rel_flags@[j] == edges@[j].rel_flags,
            decreases edges@.len() - i,
        {
            let e = edges[i];
            from_id.push(e.from);
            to_id.push(e.to);
            rel_flags.push(e.rel_flags);
            i += 1;
        }
        SmallSegmentEdgesIter { from_id, to_id, rel_flags, doc_range_end: end, current_doc: start }
    }

    /// The next edge of the range, or `None` at its end.
    pub fn next(&mut self) -> (r: Option<SmallEdge>)
        requires
            old(self).doc_range_end <= old(self).from_id@.len(),
            old(self).to_id@.len() == old(self).from_id@.len(),
            old(self).rel_flags@.len() == old(self).from_id@.len(),
        ensures
            final(self).from_id == old(self).from_id,
            final(self).to_id == old(self).to_id,
            final(self).rel_flags == old(self).rel_flags,
            final(self).doc_range_end == old(self).doc_range_end,
            old(self).current_doc >= old(self).doc_range_end ==> r is None && final(self).current_doc == old(self).current_doc,
            old(self).current_doc < old(self).doc_range_end ==> final(self).current_doc == old(self).current_doc + 1 && r == Some(
                SmallEdge {
                    from: old(self).from_id@[old(self).current_doc as int],
                    to: old(self).to_id@[old(self).current_doc as int],
                    rel_flags: old(self).rel_flags@[old(self).current_doc as int],
                },
            ),
    {
        if self.current_doc >= self.doc_range_end {
            return None;
        }
        let doc = self.current_doc;
        self.current_doc = doc + 1;
        Some(
            SmallEdge {
                from: self.from_id[doc],
                to: self.to_id[doc],
                rel_flags: self.rel_flags[doc],
            },
        )
    }
}

/// The node ids an edge list mentions, sources and targets
/// interleaved, from edge `i` on.
pub open spec fn ids_from(es: Seq<SmallEdge>, i: int) -> Seq<NodeID>
    decreases es.len() - i,
{
    if i < 0 || i >= es.len() {
        Seq::empty()
    } else {
        seq![es[i].from, es[i].to] + ids_from(es, i + 1)
    }
}

/// The raw values of a node-id list.
pub open spec fn raws_of(s: Seq<NodeID>) -> Seq<u64> {
    s.map_values(|n: NodeID| n.raw)
}

/// Each id once, in the order first seen, from id `i` on.
pub open spec fn uniq_ids_from(s: Seq<NodeID>, i: int) -> Seq<NodeID>
    decreases s.len() - i,
{
    if i < 0 || i >= s.len() {
        Seq::empty()
    } else if s.take(i).contains(s[i]) {
        uniq_ids_from(s, i + 1)
    } else {
        seq![s[i]] + uniq_ids_from(s, i + 1)
    }
}

/// The clipped document range an iterator walks: `offset..limit`,
/// cut down to the edges that exist.
pub open spec fn clip_range(total: int, offset: int, limit: int) -> (int, int) {
    let lo = if offset <= total {
        offset
    } else {
        total
    };
    let hi = if limit <= total {
        limit
    } else {
        total
    };
    if hi < lo {
        (lo, lo)
    } else {
        (lo, hi)
    }
}

/// Deduplicates a node-id list, keeping first sightings in order.
fn unique_ids(ids: Vec<NodeID>) -> (r: Vec<NodeID>)
    ensures
        r@ == uniq_ids_from(ids@, 0),
{
    let ghost iv = ids@;
    let mut seen: HashSet<u64> = HashSet::new();
    let mut out: Vec<NodeID> = Vec::new();
    let mut i: usize = 0;
    proof {
        assert(seen@ =~= raws_of(iv.take(0)).to_set());
        assert(out@ + uniq_ids_from(iv, 0) =~= uniq_ids_from(iv, 0));
    }
    while i < ids.len()
        invariant
            i <= iv.len(),
            iv == ids@,
            seen@ == raws_of(iv.take(i as int)).to_set(),
            out@ + uniq_ids_from(iv, i as int) == uniq_ids_from(iv, 0),
        decreases iv.len() - i,
    {
        let ghost pre = out@;
        let ghost spre = seen@;
        let x = ids[i];
        let dup = seen.contains(&x.raw);
        proof {
            assert(dup == seen@.contains(x.raw));
            assert(dup == iv.take(i as int).contains(x)) by {
                if seen@.contains(x.raw) {
                    assert(raws_of(iv.take(i as int)).to_set().contains(x.raw));
                    let j = choose|j: int|
                        0 <= j < raws_of(iv.take(i as int)).len() && #[trigger] raws_of(
                            iv.take(i as int),
                        )[j] == x.raw;
                    assert(iv.take(i as int)[j].raw == x.raw);
                    assert(iv.take(i as int)[j] == x);
                }
                if iv.take(i as int).contains(x) {
                    let j = choose|j: int|
                        0 <= j < iv.take(i as int).len() && #[trigger] iv.take(i as int)[j] == x;
                    assert(raws_of(iv.take(i as int))[j] == x.raw);
                    assert(raws_of(iv.take(i as int)).to_set().contains(x.raw));
                }
            }
            assert(raws_of(iv.take(i as int + 1)) =~= raws_of(iv.take(i as int)).push(x.raw));
        }
        if !dup {
            let _ = seen.insert(x.raw);
            out.push(x);
            proof {
                assert(out@ =~= pre + seq![iv[i as int]]);
                assert(pre + seq![iv[i as int]] + uniq_ids_from(iv, i as int + 1) =~= pre
                    + uniq_ids_from(iv, i as int));
                assert(seen@ =~= spre.insert(x.raw));
                assert forall|y: u64| spre.insert(x.raw).contains(y) implies raws_of(
                    iv.take(i as int + 1),
                ).to_set().contains(y) by {
                    if y == x.raw {
                        assert(raws_of(iv.take(i as int + 1))[i as int] == x.raw);
                    } else {
                        assert(raws_of(iv.take(i as int)).to_set().contains(y));
                        let j = choose|j: int|
                            0 <= j < raws_of(iv.take(i as int)).len() && #[trigger] raws_of(
                                iv.take(i as int),
                            )[j] == y;
                        assert(raws_of(iv.take(i as int + 1))[j] == y);
                    }
                }
                assert forall|y: u64| raws_of(iv.take(i as int + 1)).to_set().contains(y) implies
                    spre.insert(x.raw).contains(y) by {
                    let j = choose|j: int|
                        0 <= j < raws_of(iv.take(i as int + 1)).len() && #[trigger] raws_of(
                            iv.take(i as int + 1),
                        )[j] == y;
                    if j < i {
                        assert(raws_of(iv.take(i as int))[j] == y);
                        assert(raws_of(iv.take(i as int)).to_set().contains(y));
                    }
                }
                assert(seen@ =~= raws_of(iv.take(i as int + 1)).to_set());
            }
        } else {
            proof {
                assert(uniq_ids_from(iv, i as int) == uniq_ids_from(iv, i as int + 1));
                assert forall|y: u64| raws_of(iv.take(i as int + 1)).to_set().contains(y) implies
                    spre.contains(y) by {
                    let j = choose|j: int|
                        0 <= j < raws_of(iv.take(i as int + 1)).len() && #[trigger] raws_of(
                            iv.take(i as int + 1),
                        )[j] == y;
                    if j < i {
                        assert(raws_of(iv.take(i as int))[j] == y);
                        assert(raws_of(iv.take(i as int)).to_set().contains(y));
                    } else {
                        assert(y == x.raw);
                        assert(raws_of(iv.take(i as int)).to_set().contains(x.raw));
                    }
                }
                assert forall|y: u64| spre.contains(y) implies raws_of(
                    iv.take(i as int + 1),
                ).to_set().contains(y) by {
                    assert(raws_of(iv.take(i as int)).to_set().contains(y));
                    let j = choose|j: int|
                        0 <= j < raws_of(iv.take(i as int)).len() && #[trigger] raws_of(
                            iv.take(i as int),
                        )[j] == y;
                    assert(raws_of(iv.take(i as int + 1))[j] == y);
                }
                assert(seen@ =~= raws_of(iv.take(i as int + 1)).to_set());
            }
        }
        i += 1;
    }
    proof {
        assert(uniq_ids_from(iv, iv.len() as int) =~= Seq::<NodeID>::empty());
        assert(out@ =~= uniq_ids_from(iv, 0));
    }
    out
}

/// The clipped slice of the store's edges.
fn edge_slice(store: &EdgeStore, offset: u32, limit: u32) -> (r: Vec<SmallEdge>)
    requires
        store.wf(),
    ensures
        ({
            let (lo, hi) = clip_range(all_small(store).len() as int, offset as int, limit as int);
            r@ == all_small(store).subrange(lo, hi)
        }),
{
    let mut edges = collect_all_small(store);
    let total = edges.len();
    let lo = if (offset as usize) <= total {
        offset as usize
    } else {
        total
    };
    let hi = if (limit as usize) <= total {
        limit as usize
    } else {
        total
    };
    let hi = if hi < lo {
        lo
    } else {
        hi
    };
    let tail = edges.split_off(lo);
    let mut out = tail;
    out.truncate(hi - lo);
    proof {
        let (slo, shi) = clip_range(all_small(store).len() as int, offset as int, limit as int);
        assert(out@ =~= all_small(store).subrange(slo, shi));
    }
    out
}

/// Collects the node ids of an edge list, sources and targets in edge
/// order.
fn flat_ids(edges: &Vec<SmallEdge>) -> (r: Vec<NodeID>)
    ensures
        r@ == ids_from(edges@, 0),
{
    let mut out: Vec<NodeID> = Vec::new();
    let mut i: usize = 0;
    proof {
        assert(out@ + ids_from(edges@, 0) =~= ids_from(edges@, 0));
    }
    while i < edges.len()
        invariant
            i <= edges@.len(),
            out@ + ids_from(edges@, i as int) == ids_from(edges@, 0),
        decreases edges@.len() - i,
    {
        let ghost pre = out@;
        let e = edges[i];
        out.push(e.from);
        out.push(e.to);
        proof {
            assert(out@ =~= pre + seq![edges@[i as int].from, edges@[i as int].to]);
            assert(pre + seq![edges@[i as int].from, edges@[i as int].to] + ids_from(
                edges@,
                i as int + 1,
            ) =~= pre + ids_from(edges@, i as int));
        }
        i += 1;
    }
    proof {
        assert(ids_from(edges@, edges@.len() as int) =~= Seq::<NodeID>::empty());
        assert(out@ =~= ids_from(edges@, 0));
    }
    out
}

impl EdgeStore {
    /// Every node id a page-graph store mentions in documents
    /// `offset..limit`, each once, first sighting first.
    pub fn iter_page_node_ids(&self, offset: u32, limit: u32) -> (r: Vec<NodeID>)
        requires
            self.wf(),
        ensures
            ({
                let (lo, hi) = clip_range(
                    all_small(self).len() as int,
                    offset as int,
                    limit as int,
                );
                r@ == uniq_ids_from(ids_from(all_small(self).subrange(lo, hi), 0), 0)
            }),
    {
        let edges = edge_slice(self, offset, limit);
        let ids = flat_ids(&edges);
        unique_ids(ids)
    }

    /// The same scan for a host-graph store, whose stored ids are host
    /// ids.
    pub fn iter_host_node_ids(&self, offset: u32, limit: u32) -> (r: Vec<NodeID>)
        requires
            self.wf(),
        ensures
            ({
                let (lo, hi) = clip_range(
                    all_small(self).len() as int,
                    offset as int,
                    limit as int,
                );
                r@ == uniq_ids_from(ids_from(all_small(self).subrange(lo, hi), 0), 0)
            }),
    {
        let edges = edge_slice(self, offset, limit);
        let ids = flat_ids(&edges);
        unique_ids(ids)
    }
}

/// Two edges linking the same pair of nodes.
pub open spec fn same_pair(a: SmallEdge, b: SmallEdge) -> bool {
    a.from == b.from && a.to == b.to
}

/// Whether the pair of this edge already occurs in a list.
pub open spec fn pair_seen(t: Seq<SmallEdge>, e: SmallEdge) -> bool {
    exists|j: int| 0 <= j < t.len() && same_pair(#[trigger] t[j], e)
}

/// One edge per node pair, the first sighting of each, from edge `i` on.
pub open spec fn uniq_pairs_from(s: Seq<SmallEdge>, i: int) -> Seq<SmallEdge>
    decreases s.len() - i,
{
    if i < 0 || i >= s.len() {
        Seq::empty()
    } else if pair_seen(s.take(i), s[i]) {
        uniq_pairs_from(s, i + 1)
    } else {
        seq![s[i]] + uniq_pairs_from(s, i + 1)
    }
}

/// The packed hash key of an edge's node pair.
pub open spec fn pair_key(e: SmallEdge) -> u128 {
    ((e.from.raw as u128) << 64u128) | (e.to.raw as u128)
}

/// The pair keys of an edge list.
pub open spec fn pair_keys_of(s: Seq<SmallEdge>) -> Seq<u128> {
    s.map_values(|e: SmallEdge| pair_key(e))
}

/// Packing is one-to-one: equal keys mean the same node pair.
proof fn lemma_pair_key_injective(a: SmallEdge, b: SmallEdge)
    ensures
        pair_key(a) == pair_key(b) <==> same_pair(a, b),
{
    let x1 = a.from.raw;
    let y1 = a.to.raw;
    let x2 = b.from.raw;
    let y2 = b.to.raw;
    assert((((x1 as u128) << 64u128) | (y1 as u128)) == (((x2 as u128) << 64u128) | (
    y2 as u128)) ==> x1 == x2 && y1 == y2) by (bit_vector);
}

/// Keeps the first edge of every node pair, in order.
fn unique_pairs(edges: Vec<SmallEdge>) -> (r: Vec<SmallEdge>)
    ensures
        r@ == uniq_pairs_from(edges@, 0),
{
    let ghost ev = edges@;
    let mut seen: HashSet<u128> = HashSet::new();
    let mut out: Vec<SmallEdge> = Vec::new();
    let mut i: usize = 0;
    proof {
        assert(seen@ =~= pair_keys_of(ev.take(0)).to_set());
        assert(out@ + uniq_pairs_from(ev, 0) =~= uniq_pairs_from(ev, 0));
    }
    while i < edges.len()
        invariant
            i <= ev.len(),
            ev == edges@,
            seen@ == pair_keys_of(ev.take(i as int)).to_set(),
            out@ + uniq_pairs_from(ev, i as int) == uniq_pairs_from(ev, 0),
        decreases ev.len() - i,
    {
        let ghost pre = out@;
        let ghost spre = seen@;
        let e = edges[i];
        let key = ((e.from.raw as u128) << 64u128) | (e.to.raw as u128);
        proof {
            assert(key == pair_key(ev[i as int]));
        }
        let dup = seen.contains(&key);
        proof {
            assert(dup == seen@.contains(key));
            assert(dup == pair_seen(ev.take(i as int), ev[i as int])) by {
                if seen@.contains(key) {
                    assert(pair_keys_of(ev.take(i as int)).to_set().contains(key));
                    let j = choose|j: int|
                        0 <= j < pair_keys_of(ev.take(i as int)).len() && #[trigger] pair_keys_of(
                            ev.take(i as int),
                        )[j] == key;
                    assert(pair_key(ev.take(i as int)[j]) == key);
                    lemma_pair_key_injective(ev.take(i as int)[j], ev[i as int]);
                }
                if pair_seen(ev.take(i as int), ev[i as int]) {
                    let j = choose|j: int|
                        0 <= j < ev.take(i as int).len() && same_pair(
                            #[trigger] ev.take(i as int)[j],
                            ev[i as int],
                        );
                    lemma_pair_key_injective(ev.take(i as int)[j], ev[i as int]);
                    assert(pair_keys_of(ev.take(i as int))[j] == key);
                    assert(pair_keys_of(ev.take(i as int)).to_set().contains(key));
                }
            }
            assert(pair_keys_of(ev.take(i as int + 1)) =~= pair_keys_of(ev.take(i as int)).push(
                key,
            ));
        }
        if !dup {
            let _ = seen.insert(key);
            out.push(e);
            proof {
                assert(out@ =~= pre + seq![ev[i as int]]);
                assert(pre + seq![ev[i as int]] + uniq_pairs_from(ev, i as int + 1) =~= pre
                    + uniq_pairs_from(ev, i as int));
                assert(seen@ =~= spre.insert(key));
                assert forall|y: u128| spre.insert(key).contains(y) implies pair_keys_of(
                    ev.take(i as int + 1),
                ).to_set().contains(y) by {
                    if y == key {
                        assert(pair_keys_of(ev.take(i as int + 1))[i as int] == key);
                    } else {
                        assert(pair_keys_of(ev.take(i as int)).to_set().contains(y));
                        let j = choose|j: int|
                            0 <= j < pair_keys_of(ev.take(i as int)).len()
                                && #[trigger] pair_keys_of(ev.take(i as int))[j] == y;
                        assert(pair_keys_of(ev.take(i as int + 1))[j] == y);
                    }
                }
                assert forall|y: u128|
                    pair_keys_of(ev.take(i as int + 1)).to_set().contains(y) implies spre.insert(
                    key,
                ).contains(y) by {
                    let j = choose|j: int|
                        0 <= j < pair_keys_of(ev.take(i as int + 1)).len()
                            && #[trigger] pair_keys_of(ev.take(i as int + 1))[j] == y;
                    if j < i {
                        assert(pair_keys_of(ev.take(i as int))[j] == y);
                        assert(pair_keys_of(ev.take(i as int)).to_set().contains(y));
                    }
                }
                assert(seen@ =~= pair_keys_of(ev.take(i as int + 1)).to_set());
            }
        } else {
            proof {
                assert(uniq_pairs_from(ev, i as int) == uniq_pairs_from(ev, i as int + 1));
                assert forall|y: u128|
                    pair_keys_of(ev.take(i as int + 1)).to_set().contains(y) implies spre.contains(
                    y,
                ) by {
                    let j = choose|j: int|
                        0 <= j < pair_keys_of(ev.take(i as int + 1)).len()
                            && #[trigger] pair_keys_of(ev.take(i as int + 1))[j] == y;
                    if j < i {
                        assert(pair_keys_of(ev.take(i as int))[j] == y);
                        assert(pair_keys_of(ev.take(i as int)).to_set().contains(y));
                    } else {
                        assert(y == key);
                        assert(pair_keys_of(ev.take(i as int)).to_set().contains(key));
                    }
                }
                assert forall|y: u128| spre.contains(y) implies pair_keys_of(
                    ev.take(i as int + 1),
                ).to_set().contains(y) by {
                    assert(pair_keys_of(ev.take(i as int)).to_set().contains(y));
                    let j = choose|j: int|
                        0 <= j < pair_keys_of(ev.take(i as int)).len() && #[trigger] pair_keys_of(
                            ev.take(i as int),
                        )[j] == y;
                    assert(pair_keys_of(ev.take(i as int + 1))[j] == y);
                }
                assert(seen@ =~= pair_keys_of(ev.take(i as int + 1)).to_set());
            }
        }
        i += 1;
    }
    proof {
        assert(uniq_pairs_from(ev, ev.len() as int) =~= Seq::<SmallEdge>::empty());
        assert(out@ =~= uniq_pairs_from(ev, 0));
    }
    out
}

impl EdgeStore {
    /// Every stored edge of a page-graph store, in storage order.
    pub fn iter_pages_small(&self) -> (r: Vec<SmallEdge>)
        requires
            self.wf(),
        ensures
            r@ == all_small(self),
    {
        collect_all_small(self)
    }

    /// Every stored edge of a host-graph store, one per (source,
    /// target) pair, the first sighting of each.
    pub fn iter_hosts_small(&self) -> (r: Vec<SmallEdge>)
        requires
            self.wf(),
        ensures
            r@ == uniq_pairs_from(all_small(self), 0),
    {
        let edges = collect_all_small(self);
        unique_pairs(edges)
    }
}

/// Collects every stored edge, bulk groups first, then live.
fn collect_all_small(store: &EdgeStore) -> (r: Vec<SmallEdge>)
    requires
        store.wf(),
    ensures
        r@ == all_small(store),
{
    let mut out: Vec<SmallEdge> = Vec::new();
    let mut ri: usize = 0;
    proof {
        assert(out@ + ranged_small_from(store, 0) =~= ranged_small_from(store, 0));
    }
    while ri < store.ranges.len()
        invariant
            ri <= store.ranges@.len(),
            store.wf(),
            out@ + ranged_small_from(store, ri as int) == ranged_small_from(store, 0),
        decreases store.ranges@.len() - ri,
    {
        let ghost pre = out@;
        let entry = store.ranges[ri];
        let n = entry.node;
        let mut k: usize = entry.start;
        while k < entry.end
            invariant
                entry.start <= k <= entry.end <= store.nodes_stream@.len(),
                store.wf(),
                entry == store.ranges@[ri as int],
                ri < store.ranges@.len(),
                n == entry.node,
                out@ + store.group_edges(n, k as int, entry.end as int) == pre + store.group_edges(
                    n,
                    entry.start as int,
                    entry.end as int,
                ),
            decreases entry.end - k,
        {
            let ghost mid = out@;
            let id = store.nodes_stream[k];
            let e = if store.reversed {
                SmallEdge { from: id, to: n, rel_flags: RelFlags { raw: 0 } }
            } else {
                SmallEdge { from: n, to: id, rel_flags: RelFlags { raw: 0 } }
            };
            out.push(e);
            proof {
                assert(out@ =~= mid + seq![e]);
                assert(mid + seq![e] + store.group_edges(n, k as int + 1, entry.end as int) =~= mid
                    + store.group_edges(n, k as int, entry.end as int));
            }
            k += 1;
        }
        proof {
            assert(store.group_edges(n, entry.end as int, entry.end as int)
                =~= Seq::<SmallEdge>::empty());
            assert(out@ + ranged_small_from(store, ri as int + 1) =~= pre + (store.group_edges(
                n,
                entry.start as int,
                entry.end as int,
            ) + ranged_small_from(store, ri as int + 1)));
        }
        ri += 1;
    }
    proof {
        assert(ranged_small_from(store, store.ranges@.len() as int) =~= Seq::<SmallEdge>::empty());
        assert(out@ =~= ranged_small_from(store, 0));
    }
    let ghost rpart = ranged_small_from(store, 0);
    let mut li: usize = 0;
    proof {
        assert(out@ + live_small_from(store, 0) =~= rpart + live_small_from(store, 0));
    }
    while li < store.live.len()
        invariant
            li <= store.live@.len(),
            store.wf(),
            out@ + live_small_from(store, li as int) == rpart + live_small_from(store, 0),
        decreases store.live@.len() - li,
    {
        let ghost pre = out@;
        let e = &store.live[li];
        let from_id = e.from.id();
        let to_id = e.to.id();
        out.push(SmallEdge { from: from_id, to: to_id, rel_flags: e.rel_flags });
        proof {
            assert(out@ =~= pre + seq![small_of(store.live@[li as int])]);
            assert(pre + seq![small_of(store.live@[li as int])] + live_small_from(
                store,
                li as int + 1,
            ) =~= pre + live_small_from(store, li as int));
        }
        li += 1;
    }
    proof {
        assert(live_small_from(store, store.live@.len() as int) =~= Seq::<SmallEdge>::empty());
        assert(out@ =~= rpart + live_small_from(store, 0));
    }
    out
}

} // verus!
