use cfg_route::graph::{snapshot_of, EdgeRecord, GraphSnapshot, NodeRecord};
use cfg_route::level::{level_graph, spanning_parents, EdgeClass};
use cfg_route::types::{BlockLike, EdgeKind, EdgeLike, GraphLayoutError};
use petgraph::stable_graph::StableGraph;

fn node(id: usize, is_entry: bool) -> NodeRecord {
    NodeRecord { id, is_entry }
}

fn edge(id: usize, source: usize, target: usize) -> EdgeRecord {
    EdgeRecord { id, source, target, kind: EdgeKind::Unconditional }
}

fn snapshot(nodes: Vec<NodeRecord>, edges: Vec<EdgeRecord>) -> GraphSnapshot {
    GraphSnapshot { nodes, edges }
}

fn diamond_with_loop() -> GraphSnapshot {
    // entry, cond, then, else, exit
    snapshot(
        vec![node(0, true), node(1, false), node(2, false), node(3, false), node(4, false)],
        vec![
            edge(0, 0, 1),
            edge(1, 1, 2),
            edge(2, 1, 3),
            edge(3, 2, 4),
            edge(4, 3, 4),
            edge(5, 4, 0),
        ],
    )
}

#[test]
fn diamond_rows_are_longest_paths() {
    let l = level_graph(&diamond_with_loop()).unwrap();
    assert_eq!(l.rows, vec![0, 1, 2, 2, 3]);
}

#[test]
fn diamond_has_one_back_edge() {
    let l = level_graph(&diamond_with_loop()).unwrap();
    assert_eq!(l.back_edges, vec![5]);
    assert_eq!(l.dag_edges, vec![0, 1, 2, 3, 4]);
    assert_eq!(l.class[5], EdgeClass::Back);
}

#[test]
fn diamond_order_starts_at_entry_and_is_topological() {
    let l = level_graph(&diamond_with_loop()).unwrap();
    assert_eq!(l.order.len(), 5);
    assert_eq!(l.order[0], 0);
    let place = |x: usize| l.order.iter().position(|&y| y == x).unwrap();
    for &e in &l.dag_edges {
        assert!(place(l.ends.src[e]) < place(l.ends.tgt[e]));
    }
}

#[test]
fn triangle_cycle_yields_one_back_edge() {
    // entry -> a -> b -> entry
    let s = snapshot(
        vec![node(0, true), node(1, false), node(2, false)],
        vec![edge(0, 0, 1), edge(1, 1, 2), edge(2, 2, 0)],
    );
    let l = level_graph(&s).unwrap();
    assert_eq!(l.back_edges, vec![2]);
    assert_eq!(l.dag_edges, vec![0, 1]);
    assert_eq!(l.rows, vec![0, 1, 2]);
}

#[test]
fn rows_rise_along_every_retained_edge() {
    let s = snapshot(
        vec![node(10, false), node(20, true), node(30, false), node(40, false), node(50, false)],
        vec![
            edge(0, 20, 10),
            edge(1, 20, 30),
            edge(2, 10, 30),
            edge(3, 30, 40),
            edge(4, 40, 10),
            edge(5, 20, 40),
            edge(6, 50, 20),
        ],
    );
    let l = level_graph(&s).unwrap();
    for &e in &l.dag_edges {
        assert!(l.rows[l.ends.tgt[e]] >= l.rows[l.ends.src[e]] + 1);
    }
    // 20 -> 10 -> 30 -> 40, and 40 -> 10 closes a cycle
    assert_eq!(l.rows, vec![1, 0, 2, 3, 0]);
    assert_eq!(l.back_edges, vec![4]);
    // the edge from the node that is never reached has no class
    assert_eq!(l.class[6], EdgeClass::Unreached);
}

#[test]
fn self_loops_are_set_aside() {
    let s = snapshot(
        vec![node(0, true), node(1, false)],
        vec![edge(0, 0, 0), edge(1, 0, 1), edge(2, 1, 1)],
    );
    let l = level_graph(&s).unwrap();
    assert_eq!(l.class[0], EdgeClass::SelfLoop);
    assert_eq!(l.class[2], EdgeClass::SelfLoop);
    assert_eq!(l.rows, vec![0, 1]);
    assert!(l.back_edges.is_empty());
}

#[test]
fn no_entry_is_reported() {
    let s = snapshot(vec![node(0, false), node(1, false)], vec![edge(0, 0, 1)]);
    assert_eq!(level_graph(&s).err(), Some(GraphLayoutError::NoEntryPoint));
}

#[test]
fn empty_graph_has_no_entry() {
    assert_eq!(level_graph(&GraphSnapshot::new()).err(), Some(GraphLayoutError::NoEntryPoint));
}

#[test]
fn dangling_edge_is_reported() {
    let s = snapshot(vec![node(0, true), node(1, false)], vec![edge(0, 0, 1), edge(1, 1, 7)]);
    assert_eq!(level_graph(&s).err(), Some(GraphLayoutError::NoEdgeFound));
}

#[test]
fn first_flagged_node_is_the_entry() {
    let s = snapshot(
        vec![node(0, false), node(1, true), node(2, true)],
        vec![edge(0, 1, 2), edge(1, 2, 0)],
    );
    let l = level_graph(&s).unwrap();
    assert_eq!(l.order[0], 1);
    assert_eq!(l.rows, vec![2, 0, 1]);
}

#[test]
fn spanning_selection_takes_first_edge_from_the_row_above() {
    let l = level_graph(&diamond_with_loop()).unwrap();
    let parents = spanning_parents(&l);
    // exit is reached from `then` (edge 3) and `else` (edge 4): the first wins
    assert_eq!(parents, vec![None, Some(0), Some(1), Some(2), Some(3)]);
}

#[test]
fn spanning_selection_skips_edges_that_jump_rows() {
    // 0 -> 1 -> 2 and 0 -> 2: node 2 is in row 2, so only 1 -> 2 qualifies
    let s = snapshot(
        vec![node(0, true), node(1, false), node(2, false)],
        vec![edge(0, 0, 2), edge(1, 0, 1), edge(2, 1, 2)],
    );
    let l = level_graph(&s).unwrap();
    assert_eq!(l.rows, vec![0, 1, 2]);
    assert_eq!(spanning_parents(&l), vec![None, Some(1), Some(2)]);
}

#[test]
fn error_messages() {
    assert_eq!(GraphLayoutError::NoEntryPoint.message(), "Could not find entry point node in graph.");
    assert_eq!(GraphLayoutError::NoEdgeFound.message(), "Could not find edge in graph.");
}

#[derive(Clone)]
struct Block {
    name: String,
    lines: Vec<String>,
    entry: bool,
}

impl BlockLike for Block {
    fn title(&self) -> &str {
        &self.name
    }

    fn body_lines(&self) -> &[String] {
        &self.lines
    }

    fn is_entry(&self) -> bool {
        self.entry
    }
}

fn block(name: &str, entry: bool) -> Block {
    Block { name: name.to_string(), lines: vec![], entry }
}

#[test]
fn snapshot_reads_a_stable_graph() {
    let mut g: StableGraph<Block, EdgeKind> = StableGraph::new();
    let a = g.add_node(block("a", false));
    let b = g.add_node(block("b", true));
    let c = g.add_node(block("c", false));
    g.add_edge(b, a, EdgeKind::Taken);
    let gone = g.add_edge(a, c, EdgeKind::FallThrough);
    g.add_edge(c, c, EdgeKind::Unconditional);
    g.remove_edge(gone);
    g.add_edge(b, c, EdgeKind::FallThrough);
    let s = snapshot_of(&g);
    assert_eq!(s.nodes, vec![node(0, false), node(1, true), node(2, false)]);
    assert_eq!(s.edges.len(), 3);
    assert_eq!(s.edges[0], EdgeRecord { id: 0, source: 1, target: 0, kind: EdgeKind::Taken });
    // the slot of the removed edge is taken again
    assert_eq!(s.edges[1], EdgeRecord { id: 1, source: 1, target: 2, kind: EdgeKind::FallThrough });
    assert_eq!(s.edges[2], EdgeRecord { id: 2, source: 2, target: 2, kind: EdgeKind::Unconditional });
    assert_eq!(block("a", false).title(), "a");
    assert!(block("a", false).body_lines().is_empty());
    assert!(!block("a", false).is_exit());
}

#[test]
fn snapshot_keeps_indices_after_removal() {
    let mut g: StableGraph<Block, EdgeKind> = StableGraph::new();
    let a = g.add_node(block("a", true));
    let b = g.add_node(block("b", false));
    let c = g.add_node(block("c", false));
    g.add_edge(a, b, EdgeKind::Taken);
    g.add_edge(a, c, EdgeKind::FallThrough);
    g.remove_node(b);
    let s = snapshot_of(&g);
    assert_eq!(s.nodes, vec![node(0, true), node(2, false)]);
    assert_eq!(s.edges, vec![EdgeRecord { id: 1, source: 0, target: 2, kind: EdgeKind::FallThrough }]);
    let l = level_graph(&s).unwrap();
    assert_eq!(l.rows, vec![0, 1]);
}

struct Bare;

impl BlockLike for Bare {
    fn title(&self) -> &str {
        "bare"
    }

    fn body_lines(&self) -> &[String] {
        &[]
    }
}

#[test]
fn a_block_that_says_no_more_is_neither_entry_nor_exit() {
    assert!(!Bare.is_entry());
    assert!(!Bare.is_exit());
    assert_eq!(Bare.title(), "bare");
}

#[test]
fn an_edge_kind_is_its_own_kind() {
    for kind in [EdgeKind::Taken, EdgeKind::FallThrough, EdgeKind::Unconditional] {
        assert_eq!(kind.kind(), kind);
    }
}

#[test]
fn self_loops_change_neither_rows_nor_classes() {
    let plain = diamond_with_loop();
    let mut looped = diamond_with_loop();
    // loops before, between and behind the other edges
    looped.edges.insert(0, edge(10, 1, 1));
    looped.edges.insert(3, edge(11, 0, 0));
    looped.edges.insert(5, edge(12, 4, 4));
    looped.edges.push(edge(13, 2, 2));
    let a = level_graph(&plain).unwrap();
    let b = level_graph(&looped).unwrap();
    assert_eq!(a.rows, b.rows);
    assert_eq!(a.order, b.order);
    let others: Vec<EdgeClass> =
        b.class.iter().copied().filter(|c| *c != EdgeClass::SelfLoop).collect();
    assert_eq!(others, a.class);
    assert_eq!(b.class[0], EdgeClass::SelfLoop);
    assert_eq!(b.class[3], EdgeClass::SelfLoop);
    assert_eq!(b.class[5], EdgeClass::SelfLoop);
    assert_eq!(b.class[9], EdgeClass::SelfLoop);
    assert_eq!(b.back_edges, vec![8]);
}

#[test]
fn edges_are_followed_in_the_order_of_the_snapshot() {
    // 0 -> 1, 0 -> 2, 1 -> 2, 2 -> 1: which of the last two leads back depends on the order
    let first = snapshot(
        vec![node(0, true), node(1, false), node(2, false)],
        vec![edge(0, 0, 1), edge(1, 0, 2), edge(2, 1, 2), edge(3, 2, 1)],
    );
    let l = level_graph(&first).unwrap();
    assert_eq!(l.back_edges, vec![3]);
    assert_eq!(l.rows, vec![0, 1, 2]);
    let second = snapshot(
        vec![node(0, true), node(1, false), node(2, false)],
        vec![edge(0, 0, 2), edge(1, 0, 1), edge(2, 1, 2), edge(3, 2, 1)],
    );
    let l = level_graph(&second).unwrap();
    assert_eq!(l.back_edges, vec![2]);
    assert_eq!(l.rows, vec![0, 2, 1]);
}
