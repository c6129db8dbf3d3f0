//! The graph as the layout stages see it: plain records of its nodes and
//! edges, read from a `petgraph` stable graph.

use crate::types::{BlockLike, EdgeKind, EdgeLike};
use petgraph::graph::{EdgeIndex, NodeIndex};
use petgraph::stable_graph::StableGraph;
use petgraph::Directed;
use vstd::prelude::*;

verus! {

/// Makes `petgraph::stable_graph::StableGraph` known as a type of which
/// nothing is seen but what the functions below tell.
#[verifier::external_type_specification]
#[verifier::external_body]
#[verifier::reject_recursive_types(N)]
#[verifier::reject_recursive_types(E)]
#[verifier::reject_recursive_types(Ty)]
#[verifier::reject_recursive_types(Ix)]
pub struct ExStableGraph<N, E, Ty, Ix>(StableGraph<N, E, Ty, Ix>);

/// Makes `petgraph::Directed`, the marker of graphs with directed edges,
/// known as a type.
#[verifier::external_type_specification]
#[verifier::external_body]
pub struct ExDirected(Directed);

/// The largest index that a graph with 32-bit indices can hand out.
pub const INDEX_LIMIT: usize = 0xffff_ffff;

/// Each number is below the next, and none is above the index limit.
pub open spec fn ascending(ids: Seq<usize>) -> bool {
    &&& forall|i: int, j: int| 0 <= i < j < ids.len() ==> ids[i] < ids[j]
    &&& forall|i: int| 0 <= i < ids.len() ==> ids[i] <= INDEX_LIMIT
}

/// Calls `StableGraph::node_indices` and hands out the index of each node as
/// a number. The method walks the node slots in order and skips the vacant
/// ones, so the numbers ascend; they come from 32-bit indices.
#[verifier::external_body]
fn node_ids<N, E>(graph: &StableGraph<N, E, Directed, u32>) -> (ids: Vec<usize>)
    ensures
        ascending(ids@),
{
    graph.node_indices().map(|n| n.index()).collect()
}

/// Calls `StableGraph::edge_indices` and hands out the index of each edge as
/// a number. The method walks the edge slots in order and skips the vacant
/// ones, so the numbers ascend; they come from 32-bit indices.
#[verifier::external_body]
fn edge_ids<N, E>(graph: &StableGraph<N, E, Directed, u32>) -> (ids: Vec<usize>)
    ensures
        ascending(ids@),
{
    graph.edge_indices().map(|e| e.index()).collect()
}

/// Calls `StableGraph::edge_endpoints` for the edge with index `id` and
/// hands out the indices of its source and target as numbers. Nothing is
/// claimed of them.
#[verifier::external_body]
fn edge_endpoints<N, E>(graph: &StableGraph<N, E, Directed, u32>, id: usize) -> (ends: Option<
    (usize, usize),
>)
    requires
        id <= INDEX_LIMIT,
{
    match graph.edge_endpoints(EdgeIndex::new(id)) {
        Some((a, b)) => Some((a.index(), b.index())),
        None => None,
    }
}

/// Calls `StableGraph::node_weight` for the node with index `id`. Nothing is
/// claimed of what comes back.
#[verifier::external_body]
fn node_weight<N, E>(graph: &StableGraph<N, E, Directed, u32>, id: usize) -> (weight: Option<&N>)
    requires
        id <= INDEX_LIMIT,
{
    graph.node_weight(NodeIndex::new(id))
}

/// Calls `StableGraph::edge_weight` for the edge with index `id`. Nothing is
/// claimed of what comes back.
#[verifier::external_body]
fn edge_weight<N, E>(graph: &StableGraph<N, E, Directed, u32>, id: usize) -> (weight: Option<&E>)
    requires
        id <= INDEX_LIMIT,
{
    graph.edge_weight(EdgeIndex::new(id))
}

/// A node of the graph: its identifier and whether it is flagged as entry.
#[derive(Clone, Copy, Debug, PartialEq, Eq, Structural)]
pub struct NodeRecord {
    pub id: usize,
    pub is_entry: bool,
}

/// An edge of the graph: its identifier, the identifiers of the nodes it
/// joins, and its kind.
#[derive(Clone, Copy, Debug, PartialEq, Eq, Structural)]
pub struct EdgeRecord {
    pub id: usize,
    pub source: usize,
    pub target: usize,
    pub kind: EdgeKind,
}

/// The place of the first node with identifier `id`.
pub open spec fn find_node(nodes: Seq<NodeRecord>, id: usize) -> Option<int>
    decreases nodes.len(),
{
    if nodes.len() == 0 {
        None
    } else {
        match find_node(nodes.drop_last(), id) {
            Some(i) => Some(i),
            None => if nodes.last().id == id {
                Some(nodes.len() - 1)
            } else {
                None
            },
        }
    }
}

/// What `find_node` finds is a place of the sequence that holds a node with
/// that identifier, and no earlier place does; it finds nothing only where
/// no place does.
pub proof fn lemma_find_node(nodes: Seq<NodeRecord>, id: usize)
    ensures
        match find_node(nodes, id) {
            Some(i) => 0 <= i < nodes.len() && nodes[i].id == id && forall|j: int|
                0 <= j < i ==> (#[trigger] nodes[j]).id != id,
            None => forall|j: int| 0 <= j < nodes.len() ==> (#[trigger] nodes[j]).id != id,
        },
    decreases nodes.len(),
{
    if nodes.len() > 0 {
        let front = nodes.drop_last();
        lemma_find_node(front, id);
        match find_node(front, id) {
            Some(i) => {
                assert(nodes[i] == front[i]);
                assert forall|j: int| 0 <= j < i implies (#[trigger] nodes[j]).id != id by {
                    assert(nodes[j] == front[j]);
                }
            },
            None => {
                assert forall|j: int| 0 <= j < nodes.len() - 1 implies (#[trigger] nodes[j]).id
                    != id by {
                    assert(nodes[j] == front[j]);
                }
            },
        }
    }
}

/// The nodes and edges of a graph at one moment.
#[derive(Clone, Debug)]
pub struct GraphSnapshot {
    pub nodes: Vec<NodeRecord>,
    pub edges: Vec<EdgeRecord>,
}

impl GraphSnapshot {
    /// The place of the node with identifier `id` among the nodes.
    pub open spec fn place_of(self, id: usize) -> Option<int> {
        find_node(self.nodes@, id)
    }

    /// The edge at place `e` joins a node to itself.
    pub open spec fn is_loop(self, e: int) -> bool {
        self.edges@[e].source == self.edges@[e].target
    }

    /// The edge at place `e` joins two different nodes.
    pub open spec fn is_live(self, e: int) -> bool {
        0 <= e < self.edges.len() && !self.is_loop(e)
    }

    /// The place of the source of the edge at place `e`.
    pub open spec fn source_of(self, e: int) -> int {
        self.place_of(self.edges@[e].source)->0
    }

    /// The place of the target of the edge at place `e`.
    pub open spec fn target_of(self, e: int) -> int {
        self.place_of(self.edges@[e].target)->0
    }

    /// Both ends of every edge between two different nodes are nodes of the
    /// snapshot.
    pub open spec fn consistent(self) -> bool {
        forall|e: int|
            #![trigger self.edges@[e]]
            self.is_live(e) ==> self.place_of(self.edges@[e].source) is Some && self.place_of(
                self.edges@[e].target,
            ) is Some
    }

    /// The place of the first node flagged as entry.
    pub open spec fn entry_place(self) -> Option<int> {
        first_entry(self.nodes@)
    }

    /// An empty snapshot.
    pub fn new() -> (s: Self)
        ensures
            s.nodes@.len() == 0,
            s.edges@.len() == 0,
    {
        Self { nodes: Vec::new(), edges: Vec::new() }
    }

    /// The place of the node with identifier `id`.
    pub fn find(&self, id: usize) -> (place: Option<usize>)
        ensures
            match place {
                Some(i) => self.place_of(id) == Some(i as int) && i < self.nodes.len(),
                None => self.place_of(id) is None,
            },
    {
        let mut i: usize = 0;
        while i < self.nodes.len()
            invariant
                0 <= i <= self.nodes.len(),
                forall|j: int| 0 <= j < i ==> (#[trigger] self.nodes@[j]).id != id,
            decreases self.nodes.len() - i,
        {
            if self.nodes[i].id == id {
                proof {
                    lemma_find_node(self.nodes@, id);
                }
                return Some(i);
            }
            i += 1;
        }
        proof {
            lemma_find_node(self.nodes@, id);
        }
        None
    }

    /// The place of the first node flagged as entry.
    pub fn entry(&self) -> (place: Option<usize>)
        ensures
            match place {
                Some(i) => self.entry_place() == Some(i as int) && i < self.nodes.len(),
                None => self.entry_place() is None,
            },
    {
        let mut i: usize = 0;
        while i < self.nodes.len()
            invariant
                0 <= i <= self.nodes.len(),
                forall|j: int| 0 <= j < i ==> !(#[trigger] self.nodes@[j]).is_entry,
            decreases self.nodes.len() - i,
        {
            if self.nodes[i].is_entry {
                proof {
                    lemma_first_entry(self.nodes@);
                }
                return Some(i);
            }
            i += 1;
        }
        proof {
            lemma_first_entry(self.nodes@);
        }
        None
    }
}

/// The place of the first node flagged as entry.
pub open spec fn first_entry(nodes: Seq<NodeRecord>) -> Option<int>
    decreases nodes.len(),
{
    if nodes.len() == 0 {
        None
    } else {
        match first_entry(nodes.drop_last()) {
            Some(i) => Some(i),
            None => if nodes.last().is_entry {
                Some(nodes.len() - 1)
            } else {
                None
            },
        }
    }
}

/// What `first_entry` finds is a place of a node flagged as entry, and no
/// earlier node is flagged; it finds nothing only where no node is flagged.
pub proof fn lemma_first_entry(nodes: Seq<NodeRecord>)
    ensures
        match first_entry(nodes) {
            Some(i) => 0 <= i < nodes.len() && nodes[i].is_entry && forall|j: int|
                0 <= j < i ==> !(#[trigger] nodes[j]).is_entry,
            None => forall|j: int| 0 <= j < nodes.len() ==> !(#[trigger] nodes[j]).is_entry,
        },
    decreases nodes.len(),
{
    if nodes.len() > 0 {
        let front = nodes.drop_last();
        lemma_first_entry(front);
        match first_entry(front) {
            Some(i) => {
                assert(nodes[i] == front[i]);
                assert forall|j: int| 0 <= j < i implies !(#[trigger] nodes[j]).is_entry by {
                    assert(nodes[j] == front[j]);
                }
            },
            None => {
                assert forall|j: int| 0 <= j < nodes.len() - 1 implies !(
                #[trigger] nodes[j]).is_entry by {
                    assert(nodes[j] == front[j]);
                }
            },
        }
    }
}

/// The record of the node with identifier `id` and the payload that the
/// graph gave for it: the node is flagged as entry where the payload says
/// so, and not flagged where there is no payload.
pub fn node_record_of<N: BlockLike>(id: usize, payload: Option<&N>) -> (record: NodeRecord)
    ensures
        record.id == id,
        payload is None ==> !record.is_entry,
{
    let is_entry: bool = match payload {
        Some(block) => block.is_entry(),
        None => false,
    };
    NodeRecord { id, is_entry }
}

/// The record of the edge with identifier `id`, the ends and the payload
/// that the graph gave for it: there is none for an edge without ends, and
/// an edge without payload is unconditional.
pub fn edge_record_of<E: EdgeLike>(
    id: usize,
    ends: Option<(usize, usize)>,
    payload: Option<&E>,
) -> (record: Option<EdgeRecord>)
    ensures
        match ends {
            Some((source, target)) => record is Some && record->0.id == id && record->0.source
                == source && record->0.target == target && (payload is None ==> record->0.kind
                == EdgeKind::Unconditional),
            None => record is None,
        },
{
    match ends {
        Some((source, target)) => {
            let kind: EdgeKind = match payload {
                Some(p) => p.kind(),
                None => EdgeKind::Unconditional,
            };
            Some(EdgeRecord { id, source, target, kind })
        },
        None => None,
    }
}

/// Reads a graph into a snapshot: a record for every node, in the order of
/// the node indices, and a record for every edge whose ends the graph
/// tells, in the order of the edge indices.
///
/// The identifiers of the records are the indices that the graph hands
/// out, so they ascend. A node is flagged as entry where its payload says
/// so; an edge has the kind that its payload tells.
pub fn snapshot_of<N: BlockLike, E: EdgeLike>(graph: &StableGraph<N, E, Directed, u32>) -> (s:
    GraphSnapshot)
    ensures
        forall|i: int, j: int|
            0 <= i < j < s.nodes.len() ==> (#[trigger] s.nodes@[i]).id < (#[trigger] s.nodes@[j]).id,
        forall|i: int, j: int|
            0 <= i < j < s.edges.len() ==> (#[trigger] s.edges@[i]).id < (#[trigger] s.edges@[j]).id,
        forall|i: int| 0 <= i < s.nodes.len() ==> (#[trigger] s.nodes@[i]).id <= INDEX_LIMIT,
        forall|i: int| 0 <= i < s.edges.len() ==> (#[trigger] s.edges@[i]).id <= INDEX_LIMIT,
{
    let nodes_in: Vec<usize> = node_ids(graph);
    let edges_in: Vec<usize> = edge_ids(graph);
    let mut nodes: Vec<NodeRecord> = Vec::new();
    let mut i: usize = 0;
    while i < nodes_in.len()
        invariant
            0 <= i <= nodes_in.len(),
            ascending(nodes_in@),
            nodes.len() == i,
            forall|k: int| 0 <= k < i ==> (#[trigger] nodes@[k]).id == nodes_in@[k],
            forall|k: int| 0 <= k < i ==> (#[trigger] nodes@[k]).id <= INDEX_LIMIT,
        decreases nodes_in.len() - i,
    {
        let id: usize = nodes_in[i];
        nodes.push(node_record_of(id, node_weight(graph, id)));
        i += 1;
    }
    let mut edges: Vec<EdgeRecord> = Vec::new();
    let mut k: usize = 0;
    while k < edges_in.len()
        invariant
            0 <= k <= edges_in.len(),
            ascending(edges_in@),
            forall|a: int|
                0 <= a < edges.len() ==> exists|b: int|
                    0 <= b < k && (#[trigger] edges@[a]).id == edges_in@[b],
            forall|a: int, b: int|
                0 <= a < b < edges.len() ==> (#[trigger] edges@[a]).id < (#[trigger] edges@[b]).id,
        decreases edges_in.len() - k,
    {
        let id: usize = edges_in[k];
        match edge_record_of(id, edge_endpoints(graph, id), edge_weight(graph, id)) {
            Some(record) => {
                let ghost before = edges@;
                edges.push(record);
                proof {
                    assert forall|a: int, b: int| 0 <= a < b < edges.len() implies (
                    #[trigger] edges@[a]).id < (#[trigger] edges@[b]).id by {
                        if b == edges.len() - 1 {
                            assert(edges@[a] == before[a]);
                            let w = choose|w: int| 0 <= w < k && before[a].id == edges_in@[w];
                            assert(edges_in@[w] < edges_in@[k as int]);
                        } else {
                            assert(edges@[a] == before[a]);
                            assert(edges@[b] == before[b]);
                        }
                    }
                    assert forall|a: int| 0 <= a < edges.len() implies exists|b: int|
                        0 <= b < k + 1 && (#[trigger] edges@[a]).id == edges_in@[b] by {
                        if a == edges.len() - 1 {
                            assert(edges@[a].id == edges_in@[k as int]);
                        } else {
                            assert(edges@[a] == before[a]);
                            let w = choose|w: int| 0 <= w < k && before[a].id == edges_in@[w];
                            assert(edges@[a].id == edges_in@[w]);
                        }
                    }
                }
            },
            None => {},
        }
        k += 1;
    }
    GraphSnapshot { nodes, edges }
}

} // verus!
