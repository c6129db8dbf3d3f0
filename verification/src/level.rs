//! Breaking the cycles of the graph and giving every node its row.
//!
//! A depth-first traversal from the entry sorts the edges into those that
//! are retained and those that lead back to a node still open, which are
//! taken out. The retained edges form no cycle; each node then gets the
//! length of the longest chain of retained edges that leads to it as its
//! row.

use crate::graph::GraphSnapshot;
use crate::types::GraphLayoutError;
use vstd::prelude::*;

verus! {

/// The state of a node that the traversal has not seen.
pub const WHITE: u8 = 0;

/// The state of a node that the traversal has entered and not left.
pub const OPEN: u8 = 1;

/// The state of a node that the traversal has left.
pub const DONE: u8 = 2;

/// What the traversal made of an edge.
#[derive(Clone, Copy, Debug, PartialEq, Eq, Structural)]
pub enum EdgeClass {
    /// The traversal never came to the source of the edge.
    Unreached,
    /// The edge is kept: it led to a new node or to one already left.
    Retained,
    /// The edge is taken out: it led back to a node still open.
    Back,
    /// The edge joins a node to itself.
    SelfLoop,
}

/// The ends of the edges as places among the nodes.
#[derive(Debug)]
pub struct Ends {
    pub src: Vec<usize>,
    pub tgt: Vec<usize>,
    pub live: Vec<bool>,
}

impl Ends {
    /// There is an entry for every edge, and an edge between two different
    /// nodes joins two different places below `n`.
    pub open spec fn wf(self, n: int) -> bool {
        &&& self.src.len() == self.live.len()
        &&& self.tgt.len() == self.live.len()
        &&& forall|e: int|
            0 <= e < self.live.len() && #[trigger] self.live@[e] ==> self.src@[e] < n
                && self.tgt@[e] < n && self.src@[e] != self.tgt@[e]
    }

    /// The entries are the ends of the edges of `s`.
    pub open spec fn matches(self, s: GraphSnapshot) -> bool {
        &&& self.wf(s.nodes.len() as int)
        &&& self.live.len() == s.edges.len()
        &&& forall|e: int|
            0 <= e < self.live.len() ==> (#[trigger] self.live@[e] == s.is_live(e))
        &&& forall|e: int|
            0 <= e < self.live.len() && #[trigger] self.live@[e] ==> self.src@[e] == s.source_of(e)
                && self.tgt@[e] == s.target_of(e)
    }

    /// `p` is a chain of retained edges from the node at place `from` to the
    /// node at place `to`.
    pub open spec fn is_chain(self, class: Seq<EdgeClass>, p: Seq<int>, from: int, to: int) -> bool {
        &&& p.len() >= 1
        &&& forall|k: int|
            0 <= k < p.len() ==> 0 <= #[trigger] p[k] < self.live.len() && self.live@[p[k]]
                && class[p[k]] == EdgeClass::Retained
        &&& self.src@[p[0]] == from
        &&& self.tgt@[p[p.len() - 1]] == to
        &&& forall|k: int| 0 <= k < p.len() - 1 ==> self.tgt@[#[trigger] p[k]] == self.src@[p[k + 1]]
    }

    /// The edge at place `e` closes a cycle: a chain of retained edges leads
    /// from its target to its source.
    pub open spec fn closes_cycle(self, class: Seq<EdgeClass>, e: int) -> bool {
        exists|p: Seq<int>| self.is_chain(class, p, self.tgt@[e] as int, self.src@[e] as int)
    }
}

/// Finds the places of the ends of every edge of `s`.
///
/// This fails exactly if an edge between two different nodes names a node
/// that `s` does not hold.
pub fn resolve(s: &GraphSnapshot) -> (r: Result<Ends, GraphLayoutError>)
    ensures
        match r {
            Ok(ends) => s.consistent() && ends.matches(*s),
            Err(e) => e == GraphLayoutError::NoEdgeFound && !s.consistent(),
        },
{
    let mut src: Vec<usize> = Vec::new();
    let mut tgt: Vec<usize> = Vec::new();
    let mut live: Vec<bool> = Vec::new();
    let mut e: usize = 0;
    while e < s.edges.len()
        invariant
            0 <= e <= s.edges.len(),
            src.len() == e,
            tgt.len() == e,
            live.len() == e,
            forall|k: int| 0 <= k < e ==> (#[trigger] live@[k] == s.is_live(k)),
            forall|k: int|
                0 <= k < e && #[trigger] live@[k] ==> src@[k] == s.source_of(k) && tgt@[k]
                    == s.target_of(k) && s.place_of(s.edges@[k].source) is Some && s.place_of(
                    s.edges@[k].target,
                ) is Some && src@[k] < s.nodes.len() && tgt@[k] < s.nodes.len() && src@[k]
                    != tgt@[k],
        decreases s.edges.len() - e,
    {
        let edge = s.edges[e];
        if edge.source == edge.target {
            src.push(0);
            tgt.push(0);
            live.push(false);
        } else {
            let from: Option<usize> = s.find(edge.source);
            let to: Option<usize> = s.find(edge.target);
            match (from, to) {
                (Some(a), Some(b)) => {
                    proof {
                        crate::graph::lemma_find_node(s.nodes@, edge.source);
                        crate::graph::lemma_find_node(s.nodes@, edge.target);
                    }
                    src.push(a);
                    tgt.push(b);
                    live.push(true);
                },
                _ => {
                    proof {
                        assert(s.is_live(e as int));
                        assert(s.edges@[e as int] == edge);
                    }
                    return Err(GraphLayoutError::NoEdgeFound);
                },
            }
        }
        e += 1;
    }
    proof {
        assert forall|k: int| #![trigger s.edges@[k]] s.is_live(k) implies s.place_of(
            s.edges@[k].source,
        ) is Some && s.place_of(s.edges@[k].target) is Some by {
            assert(live@[k]);
        }
    }
    Ok(Ends { src, tgt, live })
}

/// The number of white entries.
pub open spec fn count_white(s: Seq<u8>) -> nat
    decreases s.len(),
{
    if s.len() == 0 {
        0
    } else {
        count_white(s.drop_last()) + if s.last() == WHITE {
            1nat
        } else {
            0nat
        }
    }
}

/// Changing an entry changes the count of white entries by what the entry
/// was and what it becomes.
pub proof fn lemma_count_white_update(s: Seq<u8>, i: int, v: u8)
    requires
        0 <= i < s.len(),
    ensures
        count_white(s.update(i, v)) + (if s[i] == WHITE { 1nat } else { 0nat }) == count_white(s) + (if v
            == WHITE { 1nat } else { 0nat }),
    decreases s.len(),
{
    let t = s.update(i, v);
    if i == s.len() - 1 {
        assert(t.drop_last() =~= s.drop_last());
    } else {
        lemma_count_white_update(s.drop_last(), i, v);
        assert(t.drop_last() =~= s.drop_last().update(i, v));
    }
}

/// A node that the traversal has entered, the place of the next edge to look
/// at, and the edge by which the traversal came to the node.
#[derive(Clone, Copy, Debug)]
pub struct Frame {
    pub node: usize,
    pub cursor: usize,
    pub via: usize,
}

/// The edges that the frames have yet to look at, each frame counted once
/// more.
pub open spec fn frame_sum(stack: Seq<Frame>, m: int) -> int
    decreases stack.len(),
{
    if stack.len() == 0 {
        0
    } else {
        frame_sum(stack.drop_last(), m) + (m + 1 - stack.last().cursor)
    }
}

/// A depth-first traversal in progress.
pub struct Traversal {
    /// The state of every node.
    pub state: Vec<u8>,
    /// The open nodes, the entry lowest.
    pub stack: Vec<Frame>,
    /// The nodes that the traversal has left, in the order it left them.
    pub finished: Vec<usize>,
    /// For every node that the traversal has left, its place in `finished`.
    pub fin_at: Vec<usize>,
    /// The class of every edge.
    pub class: Vec<EdgeClass>,
}

impl Traversal {
    /// The traversal as a value of sequences.
    pub open spec fn course(self) -> Course {
        Course {
            state: self.state@,
            stack: self.stack@,
            finished: self.finished@,
            fin_at: self.fin_at@,
            class: self.class@,
        }
    }

    /// The node at place `u` is on the stack below the node at place `v`.
    pub open spec fn above(self, u: int, v: int) -> bool {
        exists|i: int, j: int|
            0 <= i < j < self.stack.len() && (#[trigger] self.stack@[i]).node == u && (
            #[trigger] self.stack@[j]).node == v
    }

    /// The sizes fit and every state is one of the three.
    pub open spec fn shaped(self, ends: Ends) -> bool {
        &&& ends.wf(self.state.len() as int)
        &&& self.fin_at.len() == self.state.len()
        &&& self.class.len() == ends.live.len()
        &&& forall|x: int| 0 <= x < self.state.len() ==> #[trigger] self.state@[x] <= DONE
    }

    /// Every frame holds an open node that no other frame holds, and was
    /// reached from the frame below by a retained edge; every open node has
    /// a frame.
    pub open spec fn stacked(self, ends: Ends) -> bool {
        &&& forall|i: int|
            0 <= i < self.stack.len() ==> (#[trigger] self.stack@[i]).node < self.state.len()
                && self.stack@[i].cursor <= ends.live.len() && self.state@[self.stack@[i].node as int]
                == OPEN
        &&& forall|i: int, j: int|
            0 <= i < j < self.stack.len() ==> (#[trigger] self.stack@[i]).node != (
            #[trigger] self.stack@[j]).node
        &&& forall|i: int|
            1 <= i < self.stack.len() ==> (#[trigger] self.stack@[i]).via < ends.live.len()
                && ends.live@[self.stack@[i].via as int] && self.class@[self.stack@[i].via as int]
                == EdgeClass::Retained && ends.src@[self.stack@[i].via as int] == self.stack@[i
                - 1].node && ends.tgt@[self.stack@[i].via as int] == self.stack@[i].node
        &&& forall|x: int|
            0 <= x < self.state.len() && #[trigger] self.state@[x] == OPEN ==> exists|i: int|
                0 <= i < self.stack.len() && (#[trigger] self.stack@[i]).node == x
    }

    /// `finished` lists the nodes that the traversal has left, each once,
    /// and `fin_at` tells where.
    pub open spec fn filed(self) -> bool {
        &&& forall|k: int|
            0 <= k < self.finished.len() ==> (#[trigger] self.finished@[k]) < self.state.len()
                && self.state@[self.finished@[k] as int] == DONE && self.fin_at@[self.finished@[k] as int]
                == k
        &&& forall|x: int|
            0 <= x < self.state.len() && #[trigger] self.state@[x] == DONE ==> self.fin_at@[x]
                < self.finished.len() && self.finished@[self.fin_at@[x] as int] == x
    }

    /// What holds of a retained edge: the traversal has left its target
    /// before its source, or its source is open and its target is left or
    /// lies above the source on the stack.
    pub open spec fn retained_ok(self, ends: Ends, e: int) -> bool {
        let u = ends.src@[e] as int;
        let v = ends.tgt@[e] as int;
        ||| (self.state@[u] == DONE && self.state@[v] == DONE && self.fin_at@[v] < self.fin_at@[u])
        ||| (self.state@[u] == OPEN && (self.state@[v] == DONE || self.above(u, v)))
    }

    /// What holds of an edge that has no class yet: the traversal has not
    /// left its source, and no frame of its source has passed it.
    pub open spec fn unreached_ok(self, ends: Ends, e: int) -> bool {
        &&& self.state@[ends.src@[e] as int] != DONE
        &&& forall|i: int|
            0 <= i < self.stack.len() && (#[trigger] self.stack@[i]).node == ends.src@[e]
                ==> self.stack@[i].cursor <= e
    }

    /// The traversal has looked at the edge: its source is not white, and
    /// every frame of its source has passed it.
    pub open spec fn passed(self, ends: Ends, e: int) -> bool {
        &&& self.state@[ends.src@[e] as int] != WHITE
        &&& forall|i: int|
            0 <= i < self.stack.len() && (#[trigger] self.stack@[i]).node == ends.src@[e] ==> e
                < self.stack@[i].cursor
    }

    /// What holds of the edge at place `e`, by its class.
    pub open spec fn edge_ok(self, ends: Ends, e: int) -> bool {
        match self.class@[e] {
            EdgeClass::SelfLoop => !ends.live@[e],
            EdgeClass::Unreached => ends.live@[e] && self.unreached_ok(ends, e),
            EdgeClass::Retained => ends.live@[e] && self.retained_ok(ends, e) && self.passed(
                ends,
                e,
            ),
            EdgeClass::Back => ends.live@[e] && self.state@[ends.tgt@[e] as int] != WHITE
                && ends.closes_cycle(self.class@, e) && self.passed(ends, e),
        }
    }

    /// What holds of the edges, class by class.
    pub open spec fn sorted(self, ends: Ends) -> bool {
        forall|e: int| 0 <= e < self.class.len() ==> #[trigger] self.edge_ok(ends, e)
    }

    /// `after` is `self` once the cursor of the top frame has moved on by
    /// one.
    pub open spec fn advanced(self, after: Traversal) -> bool {
        &&& self.stack.len() > 0
        &&& after.state@ == self.state@
        &&& after.fin_at@ == self.fin_at@
        &&& after.finished@ == self.finished@
        &&& after.stack@ == self.stack@.update(
            self.stack.len() - 1,
            Frame {
                node: self.stack@.last().node,
                cursor: (self.stack@.last().cursor + 1) as usize,
                via: self.stack@.last().via,
            },
        )
        &&& after.class.len() == self.class.len()
        &&& forall|k: int|
            0 <= k < self.class.len() && #[trigger] self.class@[k] == EdgeClass::Retained
                ==> after.class@[k] == EdgeClass::Retained
    }

    /// `after` is `self` once the traversal has left the node of the top
    /// frame.
    pub open spec fn left(self, after: Traversal) -> bool {
        &&& self.stack.len() > 0
        &&& after.state@ == self.state@.update(self.stack@.last().node as int, DONE)
        &&& after.fin_at@ == self.fin_at@.update(
            self.stack@.last().node as int,
            self.finished.len(),
        )
        &&& after.finished@ == self.finished@.push(self.stack@.last().node)
        &&& after.stack@ == self.stack@.drop_last()
        &&& after.class@ == self.class@
    }

    /// `after` is `self` once the traversal has followed the edge at the
    /// cursor of the top frame to the white node `v`.
    pub open spec fn entered(self, after: Traversal, v: usize) -> bool {
        &&& self.stack.len() > 0
        &&& after.state@ == self.state@.update(v as int, OPEN)
        &&& after.fin_at@ == self.fin_at@
        &&& after.finished@ == self.finished@
        &&& after.stack@ == self.stack@.update(
            self.stack.len() - 1,
            Frame {
                node: self.stack@.last().node,
                cursor: (self.stack@.last().cursor + 1) as usize,
                via: self.stack@.last().via,
            },
        ).push(Frame { node: v, cursor: 0, via: self.stack@.last().cursor })
        &&& after.class@ == self.class@.update(
            self.stack@.last().cursor as int,
            EdgeClass::Retained,
        )
    }

    /// `after` has a state for every node that `self` has one for, and no
    /// node that `self` has seen is white in `after`.
    pub open spec fn grown(self, after: Traversal) -> bool {
        &&& after.state.len() == self.state.len()
        &&& forall|x: int|
            0 <= x < self.state.len() && self.state@[x] != WHITE ==> after.state@[x] != WHITE
    }

    /// Every retained edge of `self` is retained in `after`, and every node
    /// that `after` has seen and `self` has not has a retained edge that
    /// leads to it.
    pub open spec fn came_by(self, after: Traversal, ends: Ends) -> bool {
        &&& forall|e: int|
            0 <= e < self.class.len() && #[trigger] self.class@[e] == EdgeClass::Retained
                ==> after.class@[e] == EdgeClass::Retained
        &&& forall|x: int|
            0 <= x < self.state.len() && #[trigger] after.state@[x] != WHITE ==> self.state@[x]
                != WHITE || after.has_retained_to(ends, x)
    }

    /// A retained edge leads to the node at place `x`.
    pub open spec fn has_retained_to(self, ends: Ends, x: int) -> bool {
        exists|e: int|
            0 <= e < self.class.len() && #[trigger] self.class@[e] == EdgeClass::Retained
                && ends.live@[e] && ends.tgt@[e] == x
    }

    /// A retained edge leads to every node that the traversal has seen but
    /// the entry.
    pub open spec fn rooted(self, ends: Ends, entry: int) -> bool {
        forall|x: int|
            0 <= x < self.state.len() && #[trigger] self.state@[x] != WHITE ==> x == entry
                || self.has_retained_to(ends, x)
    }

    /// `after` is nearer to the end of the traversal than `self`.
    pub open spec fn nearer(self, after: Traversal, ends: Ends) -> bool {
        after.white() < self.white() || (after.white() == self.white() && frame_sum(
            after.stack@,
            ends.live.len() as int,
        ) < frame_sum(self.stack@, ends.live.len() as int))
    }

    /// The edge at the cursor of the top frame starts at the node of that
    /// frame.
    pub open spec fn at_own_edge(self, ends: Ends) -> bool {
        &&& self.stack.len() > 0
        &&& self.stack@.last().cursor < ends.live.len()
        &&& ends.live@[self.stack@.last().cursor as int]
        &&& ends.src@[self.stack@.last().cursor as int] == self.stack@.last().node
    }

    /// What holds of a traversal between two steps.
    pub open spec fn inv(self, ends: Ends) -> bool {
        &&& self.shaped(ends)
        &&& self.stacked(ends)
        &&& self.filed()
        &&& self.sorted(ends)
    }

    /// What is left to do: the white nodes first, then the edges that the
    /// frames have yet to look at.
    pub open spec fn white(self) -> nat {
        count_white(self.state@)
    }
}

/// A chain of retained edges stays one when edges without a class get one.
pub proof fn lemma_chain_kept(
    ends: Ends,
    before: Seq<EdgeClass>,
    after: Seq<EdgeClass>,
    p: Seq<int>,
    from: int,
    to: int,
)
    requires
        ends.is_chain(before, p, from, to),
        before.len() == after.len(),
        before.len() == ends.live.len(),
        forall|e: int|
            0 <= e < before.len() && #[trigger] before[e] == EdgeClass::Retained ==> after[e]
                == EdgeClass::Retained,
    ensures
        ends.is_chain(after, p, from, to),
{
    assert forall|k: int| 0 <= k < p.len() implies 0 <= #[trigger] p[k] < ends.live.len()
        && ends.live@[p[k]] && after[p[k]] == EdgeClass::Retained by {
        assert(before[p[k]] == EdgeClass::Retained);
    }
}

/// The frames above the frame at place `j` tell a chain of retained edges
/// from the node of that frame to the node of the top frame.
pub proof fn lemma_stack_chain(t: Traversal, ends: Ends, j: int)
    requires
        t.shaped(ends),
        t.stacked(ends),
        0 <= j < t.stack.len() - 1,
    ensures
        ends.is_chain(
            t.class@,
            Seq::new((t.stack.len() - 1 - j) as nat, |k: int| t.stack@[j + 1 + k].via as int),
            t.stack@[j].node as int,
            t.stack@[t.stack.len() - 1].node as int,
        ),
{
    let p = Seq::new((t.stack.len() - 1 - j) as nat, |k: int| t.stack@[j + 1 + k].via as int);
    assert forall|k: int| 0 <= k < p.len() implies 0 <= #[trigger] p[k] < ends.live.len()
        && ends.live@[p[k]] && t.class@[p[k]] == EdgeClass::Retained by {
        assert(t.stack@[j + 1 + k].via < ends.live.len());
    }
    assert(t.stack@[j + 1].via < ends.live.len());
    assert(ends.src@[p[0]] == t.stack@[j].node);
    assert(t.stack@[j + 1 + (p.len() - 1)].via < ends.live.len());
    assert forall|k: int| 0 <= k < p.len() - 1 implies ends.tgt@[#[trigger] p[k]] == ends.src@[p[k
        + 1]] by {
        assert(t.stack@[j + 1 + k].via < ends.live.len());
        assert(t.stack@[j + 1 + (k + 1)].via < ends.live.len());
    }
}

/// After the traversal has left the node of the top frame, the frames and
/// the list of the nodes left are in order.
pub proof fn lemma_leave_frames(before: Traversal, after: Traversal, ends: Ends)
    requires
        before.inv(ends),
        before.left(after),
    ensures
        after.shaped(ends),
        after.stacked(ends),
        after.filed(),
        forall|i: int|
            0 <= i < after.stack.len() ==> (#[trigger] after.stack@[i]).node
                != before.stack@.last().node,
{
    let top = before.stack.len() - 1;
    let u = before.stack@[top].node as int;
    assert(before.state@[u] == OPEN);
    assert forall|i: int| 0 <= i < after.stack.len() implies (#[trigger] after.stack@[i]).node
        != u by {
        assert(before.stack@[i].node != before.stack@[top].node);
    }
    assert forall|x: int|
        0 <= x < after.state.len() && #[trigger] after.state@[x] == OPEN implies exists|i: int|
        0 <= i < after.stack.len() && (#[trigger] after.stack@[i]).node == x by {
        assert(before.state@[x] == OPEN);
        let i = choose|i: int| 0 <= i < before.stack.len() && (#[trigger] before.stack@[i]).node == x;
        assert(after.stack@[i].node == x);
    }
    assert forall|i: int| 1 <= i < after.stack.len() implies (#[trigger] after.stack@[i]).via
        < ends.live.len() && ends.live@[after.stack@[i].via as int]
        && after.class@[after.stack@[i].via as int] == EdgeClass::Retained
        && ends.src@[after.stack@[i].via as int] == after.stack@[i - 1].node
        && ends.tgt@[after.stack@[i].via as int] == after.stack@[i].node by {
        assert(before.stack@[i].via < ends.live.len());
    }
    assert forall|i: int, j: int| 0 <= i < j < after.stack.len() implies (
    #[trigger] after.stack@[i]).node != (#[trigger] after.stack@[j]).node by {
        assert(before.stack@[i].node != before.stack@[j].node);
    }
    assert forall|i: int| 0 <= i < after.stack.len() implies (#[trigger] after.stack@[i]).node
        < after.state.len() && after.stack@[i].cursor <= ends.live.len()
        && after.state@[after.stack@[i].node as int] == OPEN by {
        assert(before.stack@[i].node < before.state.len());
    }
    assert forall|k: int| 0 <= k < after.finished.len() implies (#[trigger] after.finished@[k])
        < after.state.len() && after.state@[after.finished@[k] as int] == DONE
        && after.fin_at@[after.finished@[k] as int] == k by {
        if k < before.finished.len() {
            assert(before.finished@[k] < before.state.len());
        }
    }
    assert forall|x: int|
        0 <= x < after.state.len() && #[trigger] after.state@[x] == DONE implies after.fin_at@[x]
        < after.finished.len() && after.finished@[after.fin_at@[x] as int] == x by {
        if x != u {
            assert(before.state@[x] == DONE);
        }
    }
}

/// After the traversal has left the node of the top frame, what held of an
/// edge holds of it in the new state.
pub proof fn lemma_leave_edge(before: Traversal, after: Traversal, ends: Ends, e: int)
    requires
        before.inv(ends),
        before.left(after),
        before.stack@.last().cursor == ends.live.len(),
        0 <= e < before.class.len(),
    ensures
        after.edge_ok(ends, e),
{
    let top = before.stack.len() - 1;
    let u = before.stack@[top].node as int;
    let a = ends.src@[e] as int;
    let b = ends.tgt@[e] as int;
    assert(before.edge_ok(ends, e));
    assert(before.state@[u] == OPEN);
    assert(before.stack@[top].node == u);
    match before.class@[e] {
        EdgeClass::SelfLoop => {},
        EdgeClass::Unreached => {
            assert(a != u);
            assert forall|i: int|
                0 <= i < after.stack.len() && (#[trigger] after.stack@[i]).node
                    == ends.src@[e] implies after.stack@[i].cursor <= e by {
                assert(before.stack@[i].node == ends.src@[e]);
            }
        },
        EdgeClass::Retained => {
            if before.state@[a] == OPEN && before.state@[b] != DONE {
                let (i, j) = choose|i: int, j: int|
                    0 <= i < j < before.stack.len() && (#[trigger] before.stack@[i]).node == a && (
                    #[trigger] before.stack@[j]).node == b;
                if a == u {
                    assert(before.stack@[i].node == before.stack@[top].node);
                    if i < top {
                        assert(before.stack@[i].node != before.stack@[top].node);
                    }
                }
                if j < top {
                    assert(after.stack@[i].node == a && after.stack@[j].node == b);
                    assert(after.above(a, b));
                    assert(before.stack@[j].node != before.stack@[top].node);
                    assert(before.stack@[i].node != before.stack@[top].node);
                }
            }
            assert forall|i: int|
                0 <= i < after.stack.len() && (#[trigger] after.stack@[i]).node
                    == ends.src@[e] implies e < after.stack@[i].cursor by {
                assert(before.stack@[i].node == ends.src@[e]);
            }
        },
        EdgeClass::Back => {
            assert forall|i: int|
                0 <= i < after.stack.len() && (#[trigger] after.stack@[i]).node
                    == ends.src@[e] implies e < after.stack@[i].cursor by {
                assert(before.stack@[i].node == ends.src@[e]);
            }
        },
    }
}

/// What holds after the traversal has left the node of the top frame.
pub proof fn lemma_leave(before: Traversal, after: Traversal, ends: Ends)
    requires
        before.inv(ends),
        before.left(after),
        before.stack@.last().cursor == ends.live.len(),
    ensures
        after.inv(ends),
        before.grown(after),
        before.nearer(after, ends),
{
    let u = before.stack@.last().node as int;
    assert(before.stack@[before.stack.len() - 1].node < before.state.len());
    lemma_count_white_update(before.state@, u, DONE);
    lemma_leave_frames(before, after, ends);
    assert forall|e: int| 0 <= e < after.class.len() implies #[trigger] after.edge_ok(ends, e) by {
        lemma_leave_edge(before, after, ends, e);
    }
}

/// Where only the cursor of the top frame has moved on, the frames and the
/// list of the nodes left are in order as before.
pub proof fn lemma_stack_kept(before: Traversal, after: Traversal, ends: Ends)
    requires
        before.shaped(ends),
        before.stacked(ends),
        before.filed(),
        before.advanced(after),
        before.stack@.last().cursor < ends.live.len(),
    ensures
        after.shaped(ends),
        after.stacked(ends),
        after.filed(),
{
    assert forall|x: int|
        0 <= x < after.state.len() && #[trigger] after.state@[x] == OPEN implies exists|i: int|
        0 <= i < after.stack.len() && (#[trigger] after.stack@[i]).node == x by {
        let i = choose|i: int| 0 <= i < before.stack.len() && (#[trigger] before.stack@[i]).node == x;
        assert(after.stack@[i].node == x);
    }
    assert forall|i: int| 1 <= i < after.stack.len() implies (#[trigger] after.stack@[i]).via
        < ends.live.len() && ends.live@[after.stack@[i].via as int]
        && after.class@[after.stack@[i].via as int] == EdgeClass::Retained
        && ends.src@[after.stack@[i].via as int] == after.stack@[i - 1].node
        && ends.tgt@[after.stack@[i].via as int] == after.stack@[i].node by {
        assert(before.stack@[i].via < ends.live.len());
        assert(before.stack@[i - 1].node == after.stack@[i - 1].node);
    }
    assert forall|i: int, j: int| 0 <= i < j < after.stack.len() implies (
    #[trigger] after.stack@[i]).node != (#[trigger] after.stack@[j]).node by {
        assert(before.stack@[i].node != before.stack@[j].node);
    }
    assert forall|i: int| 0 <= i < after.stack.len() implies (#[trigger] after.stack@[i]).node
        < after.state.len() && after.stack@[i].cursor <= ends.live.len()
        && after.state@[after.stack@[i].node as int] == OPEN by {
        assert(before.stack@[i].node < before.state.len());
    }
}

/// Where only the cursor of the top frame has moved on, past an edge other
/// than `e`, and edges without a class may have got one, what held of the
/// edge `e` still holds.
pub proof fn lemma_edge_kept(before: Traversal, after: Traversal, ends: Ends, e: int)
    requires
        before.inv(ends),
        before.advanced(after),
        before.stack@.last().cursor < ends.live.len(),
        0 <= e < before.class.len(),
        after.class@[e] == before.class@[e],
        e != before.stack@.last().cursor || !before.at_own_edge(ends),
    ensures
        after.edge_ok(ends, e),
{
    let top = before.stack.len() - 1;
    let a = ends.src@[e] as int;
    let b = ends.tgt@[e] as int;
    assert(before.edge_ok(ends, e));
    match before.class@[e] {
        EdgeClass::SelfLoop => {},
        EdgeClass::Unreached => {
            assert forall|i: int|
                0 <= i < after.stack.len() && (#[trigger] after.stack@[i]).node
                    == ends.src@[e] implies after.stack@[i].cursor <= e by {
                assert(before.stack@[i].node == ends.src@[e]);
            }
        },
        EdgeClass::Retained => {
            if before.state@[a] == OPEN && before.state@[b] != DONE {
                let (i, j) = choose|i: int, j: int|
                    0 <= i < j < before.stack.len() && (#[trigger] before.stack@[i]).node == a && (
                    #[trigger] before.stack@[j]).node == b;
                assert(after.stack@[i].node == a && after.stack@[j].node == b);
                assert(after.above(a, b));
            }
            assert forall|i: int|
                0 <= i < after.stack.len() && (#[trigger] after.stack@[i]).node
                    == ends.src@[e] implies e < after.stack@[i].cursor by {
                assert(before.stack@[i].node == ends.src@[e]);
            }
        },
        EdgeClass::Back => {
            let p = choose|p: Seq<int>|
                ends.is_chain(before.class@, p, ends.tgt@[e] as int, ends.src@[e] as int);
            lemma_chain_kept(ends, before.class@, after.class@, p, b, a);
            assert forall|i: int|
                0 <= i < after.stack.len() && (#[trigger] after.stack@[i]).node
                    == ends.src@[e] implies e < after.stack@[i].cursor by {
                assert(before.stack@[i].node == ends.src@[e]);
            }
        },
    }
}

/// What holds after the top frame has moved past an edge that does not
/// start at its node.
pub proof fn lemma_skip(before: Traversal, after: Traversal, ends: Ends)
    requires
        before.inv(ends),
        before.advanced(after),
        before.stack@.last().cursor < ends.live.len(),
        !before.at_own_edge(ends),
        after.class@ == before.class@,
    ensures
        after.inv(ends),
        before.grown(after),
        before.nearer(after, ends),
{
    lemma_stack_kept(before, after, ends);
    assert forall|e: int| 0 <= e < after.class.len() implies #[trigger] after.edge_ok(ends, e) by {
        lemma_edge_kept(before, after, ends, e);
    }
    assert(after.stack@.drop_last() =~= before.stack@.drop_last());
}

/// The edge at the cursor of the top frame, where it starts at the node of
/// that frame, has no class yet.
pub proof fn lemma_cursor_edge_fresh(t: Traversal, ends: Ends)
    requires
        t.inv(ends),
        t.at_own_edge(ends),
    ensures
        t.class@[t.stack@.last().cursor as int] == EdgeClass::Unreached,
{
    let top = t.stack.len() - 1;
    let c = t.stack@[top].cursor as int;
    assert(t.edge_ok(ends, c));
    assert(t.stack@[top].node == ends.src@[c]);
}

/// What holds after the top frame has looked at an edge from its node to a
/// node that is not white: the edge leads back where that node is open, and
/// is retained where the traversal has left it.
pub proof fn lemma_mark(before: Traversal, after: Traversal, ends: Ends)
    requires
        before.inv(ends),
        before.advanced(after),
        before.at_own_edge(ends),
        before.state@[ends.tgt@[before.stack@.last().cursor as int] as int] != WHITE,
        after.class@ == before.class@.update(
            before.stack@.last().cursor as int,
            if before.state@[ends.tgt@[before.stack@.last().cursor as int] as int] == OPEN {
                EdgeClass::Back
            } else {
                EdgeClass::Retained
            },
        ),
    ensures
        after.inv(ends),
        before.grown(after),
        before.nearer(after, ends),
{
    let top = before.stack.len() - 1;
    let c = before.stack@[top].cursor as int;
    let u = before.stack@[top].node as int;
    let v = ends.tgt@[c] as int;
    lemma_cursor_edge_fresh(before, ends);
    lemma_stack_kept(before, after, ends);
    assert(after.stack@[top].node == u);
    assert(before.state@[u] == OPEN);
    assert(after.passed(ends, c)) by {
        assert forall|i: int|
            0 <= i < after.stack.len() && (#[trigger] after.stack@[i]).node
                == ends.src@[c] implies c < after.stack@[i].cursor by {
            if i != top {
                assert(before.stack@[i].node != before.stack@[top].node);
            }
        }
    }
    if before.state@[v] == OPEN {
        let j = choose|j: int| 0 <= j < before.stack.len() && (#[trigger] before.stack@[j]).node == v;
        assert(j != top);
        lemma_stack_chain(before, ends, j);
        let p = Seq::new(
            (before.stack.len() - 1 - j) as nat,
            |k: int| before.stack@[j + 1 + k].via as int,
        );
        lemma_chain_kept(ends, before.class@, after.class@, p, v, u);
        assert(ends.closes_cycle(after.class@, c));
    } else {
        assert(before.state@[v] == DONE);
        assert(after.retained_ok(ends, c));
    }
    assert(after.edge_ok(ends, c));
    assert forall|e: int| 0 <= e < after.class.len() implies #[trigger] after.edge_ok(ends, e) by {
        if e != c {
            lemma_edge_kept(before, after, ends, e);
        }
    }
    assert(after.stack@.drop_last() =~= before.stack@.drop_last());
}

/// After the traversal has followed an edge to a white node, the frames and
/// the list of the nodes left are in order.
pub proof fn lemma_enter_frames(before: Traversal, after: Traversal, ends: Ends, v: usize)
    requires
        before.inv(ends),
        before.at_own_edge(ends),
        before.entered(after, v),
        v == ends.tgt@[before.stack@.last().cursor as int],
        before.state@[v as int] == WHITE,
    ensures
        after.shaped(ends),
        after.stacked(ends),
        after.filed(),
        forall|i: int|
            0 <= i < before.stack.len() ==> (#[trigger] after.stack@[i]).node
                == before.stack@[i].node && after.stack@[i].node != v && after.stack@[i].cursor
                >= before.stack@[i].cursor,
        after.stack@[before.stack.len() as int].node == v,
        after.stack@[before.stack.len() as int].cursor == 0,
        after.stack@[before.stack.len() - 1].cursor == before.stack@.last().cursor + 1,
{
    let top = before.stack.len() - 1;
    let c = before.stack@[top].cursor as int;
    let u = before.stack@[top].node as int;
    lemma_cursor_edge_fresh(before, ends);
    assert(after.stack@[top].node == u);
    assert(after.stack@[top + 1].node == v);
    assert forall|i: int| 0 <= i < before.stack.len() implies (#[trigger] after.stack@[i]).node
        == before.stack@[i].node && after.stack@[i].node != v && after.stack@[i].cursor
        >= before.stack@[i].cursor by {
        assert(before.state@[before.stack@[i].node as int] == OPEN);
    }
    assert forall|x: int|
        0 <= x < after.state.len() && #[trigger] after.state@[x] == OPEN implies exists|i: int|
        0 <= i < after.stack.len() && (#[trigger] after.stack@[i]).node == x by {
        if x == v {
            assert(after.stack@[top + 1].node == x);
        } else {
            assert(before.state@[x] == OPEN);
            let i = choose|i: int|
                0 <= i < before.stack.len() && (#[trigger] before.stack@[i]).node == x;
            assert(after.stack@[i].node == x);
        }
    }
    assert forall|i: int| 1 <= i < after.stack.len() implies (#[trigger] after.stack@[i]).via
        < ends.live.len() && ends.live@[after.stack@[i].via as int]
        && after.class@[after.stack@[i].via as int] == EdgeClass::Retained
        && ends.src@[after.stack@[i].via as int] == after.stack@[i - 1].node
        && ends.tgt@[after.stack@[i].via as int] == after.stack@[i].node by {
        if i <= top {
            assert(before.stack@[i].via < ends.live.len());
            assert(after.stack@[i - 1].node == before.stack@[i - 1].node);
        }
    }
    assert forall|i: int, j: int| 0 <= i < j < after.stack.len() implies (
    #[trigger] after.stack@[i]).node != (#[trigger] after.stack@[j]).node by {
        if j <= top {
            assert(before.stack@[i].node != before.stack@[j].node);
        }
    }
    assert forall|i: int| 0 <= i < after.stack.len() implies (#[trigger] after.stack@[i]).node
        < after.state.len() && after.stack@[i].cursor <= ends.live.len()
        && after.state@[after.stack@[i].node as int] == OPEN by {
        if i <= top {
            assert(before.stack@[i].node < before.state.len());
        }
    }
    assert forall|k: int| 0 <= k < after.finished.len() implies (#[trigger] after.finished@[k])
        < after.state.len() && after.state@[after.finished@[k] as int] == DONE
        && after.fin_at@[after.finished@[k] as int] == k by {
        assert(before.finished@[k] < before.state.len());
    }
}

/// After the traversal has followed an edge to a white node, what held of
/// another edge holds of it in the new state.
pub proof fn lemma_enter_edge(before: Traversal, after: Traversal, ends: Ends, v: usize, e: int)
    requires
        before.inv(ends),
        before.at_own_edge(ends),
        before.entered(after, v),
        v == ends.tgt@[before.stack@.last().cursor as int],
        before.state@[v as int] == WHITE,
        0 <= e < before.class.len(),
        e != before.stack@.last().cursor,
    ensures
        after.edge_ok(ends, e),
{
    let top = before.stack.len() - 1;
    let a = ends.src@[e] as int;
    let b = ends.tgt@[e] as int;
    lemma_enter_frames(before, after, ends, v);
    assert(before.edge_ok(ends, e));
    match before.class@[e] {
        EdgeClass::SelfLoop => {},
        EdgeClass::Unreached => {
            assert forall|i: int|
                0 <= i < after.stack.len() && (#[trigger] after.stack@[i]).node
                    == ends.src@[e] implies after.stack@[i].cursor <= e by {
                if i <= top {
                    assert(before.stack@[i].node == ends.src@[e]);
                }
            }
        },
        EdgeClass::Retained => {
            if before.state@[a] == OPEN && before.state@[b] != DONE {
                let (i, j) = choose|i: int, j: int|
                    0 <= i < j < before.stack.len() && (#[trigger] before.stack@[i]).node == a && (
                    #[trigger] before.stack@[j]).node == b;
                assert(after.stack@[i].node == a && after.stack@[j].node == b);
                assert(after.above(a, b));
                assert(before.state@[before.stack@[j].node as int] == OPEN);
            }
            assert forall|i: int|
                0 <= i < after.stack.len() && (#[trigger] after.stack@[i]).node
                    == ends.src@[e] implies e < after.stack@[i].cursor by {
                if i <= top {
                    assert(before.stack@[i].node == ends.src@[e]);
                }
            }
        },
        EdgeClass::Back => {
            let p = choose|p: Seq<int>|
                ends.is_chain(before.class@, p, ends.tgt@[e] as int, ends.src@[e] as int);
            lemma_chain_kept(ends, before.class@, after.class@, p, b, a);
            assert forall|i: int|
                0 <= i < after.stack.len() && (#[trigger] after.stack@[i]).node
                    == ends.src@[e] implies e < after.stack@[i].cursor by {
                if i <= top {
                    assert(before.stack@[i].node == ends.src@[e]);
                }
            }
        },
    }
}

/// What holds after the top frame has followed an edge from its node to a
/// white node: the edge is retained, and the node is open with a frame of
/// its own on top.
pub proof fn lemma_enter(before: Traversal, after: Traversal, ends: Ends, v: usize)
    requires
        before.inv(ends),
        before.at_own_edge(ends),
        before.entered(after, v),
        v == ends.tgt@[before.stack@.last().cursor as int],
        before.state@[v as int] == WHITE,
    ensures
        after.inv(ends),
        before.grown(after),
        before.nearer(after, ends),
{
    let top = before.stack.len() - 1;
    let c = before.stack@[top].cursor as int;
    let u = before.stack@[top].node as int;
    lemma_count_white_update(before.state@, v as int, OPEN);
    lemma_enter_frames(before, after, ends, v);
    assert(before.state@[u] == OPEN);
    assert(after.stack@[top].node == u);
    assert(after.above(u, v as int)) by {
        assert(after.stack@[top].node == u && after.stack@[top + 1].node == v);
    }
    assert(after.passed(ends, c)) by {
        assert forall|i: int|
            0 <= i < after.stack.len() && (#[trigger] after.stack@[i]).node
                == ends.src@[c] implies c < after.stack@[i].cursor by {
            if i < top {
                assert(before.stack@[i].node != before.stack@[top].node);
            }
        }
    }
    assert(after.edge_ok(ends, c));
    assert forall|e: int| 0 <= e < after.class.len() implies #[trigger] after.edge_ok(ends, e) by {
        if e != c {
            lemma_enter_edge(before, after, ends, v, e);
        }
    }
}

/// A traversal as a value of its own: what `Traversal` holds, as sequences.
pub struct Course {
    pub state: Seq<u8>,
    pub stack: Seq<Frame>,
    pub finished: Seq<usize>,
    pub fin_at: Seq<usize>,
    pub class: Seq<EdgeClass>,
}

/// A traversal that has entered the node at place `entry` of `n` nodes and
/// nothing else.
pub open spec fn course_start(n: nat, live: Seq<bool>, entry: usize) -> Course {
    Course {
        state: Seq::new(n, |x: int| if x == entry { OPEN } else { WHITE }),
        stack: seq![Frame { node: entry, cursor: 0, via: 0 }],
        finished: Seq::empty(),
        fin_at: Seq::new(n, |x: int| 0usize),
        class: Seq::new(
            live.len(),
            |e: int| if live[e] { EdgeClass::Unreached } else { EdgeClass::SelfLoop },
        ),
    }
}

/// One step of the traversal over the edges with the given ends, in their
/// order.
///
/// The top frame looks at the edge at its cursor. Where no edge is left,
/// the traversal leaves the node of the frame. An edge that does not start
/// at the node is passed over. An edge to a white node is retained and the
/// node entered; an edge to an open node leads back; an edge to a node that
/// the traversal has left is retained. Without a frame nothing changes.
pub open spec fn course_step(v: Course, src: Seq<usize>, tgt: Seq<usize>, live: Seq<bool>) -> Course {
    if v.stack.len() == 0 {
        v
    } else {
        let top = v.stack.last();
        let c = top.cursor as int;
        let moved = v.stack.update(
            v.stack.len() - 1,
            Frame { node: top.node, cursor: (top.cursor + 1) as usize, via: top.via },
        );
        if c == live.len() {
            Course {
                state: v.state.update(top.node as int, DONE),
                stack: v.stack.drop_last(),
                finished: v.finished.push(top.node),
                fin_at: v.fin_at.update(top.node as int, v.finished.len() as usize),
                class: v.class,
            }
        } else if live[c] && src[c] == top.node {
            let to = tgt[c];
            if v.state[to as int] == WHITE {
                Course {
                    state: v.state.update(to as int, OPEN),
                    stack: moved.push(Frame { node: to, cursor: 0, via: top.cursor }),
                    finished: v.finished,
                    fin_at: v.fin_at,
                    class: v.class.update(c, EdgeClass::Retained),
                }
            } else {
                Course {
                    state: v.state,
                    stack: moved,
                    finished: v.finished,
                    fin_at: v.fin_at,
                    class: v.class.update(
                        c,
                        if v.state[to as int] == OPEN {
                            EdgeClass::Back
                        } else {
                            EdgeClass::Retained
                        },
                    ),
                }
            }
        } else {
            Course {
                state: v.state,
                stack: moved,
                finished: v.finished,
                fin_at: v.fin_at,
                class: v.class,
            }
        }
    }
}

/// The traversal after `k` steps.
pub open spec fn course_after(
    v: Course,
    src: Seq<usize>,
    tgt: Seq<usize>,
    live: Seq<bool>,
    k: nat,
) -> Course
    decreases k,
{
    if k == 0 {
        v
    } else {
        course_step(course_after(v, src, tgt, live, (k - 1) as nat), src, tgt, live)
    }
}

/// Once no node is open the traversal changes no more: whatever the number
/// of steps after which no node is open, the outcome is the same.
pub proof fn lemma_course_settles(
    v: Course,
    src: Seq<usize>,
    tgt: Seq<usize>,
    live: Seq<bool>,
    a: nat,
    b: nat,
)
    requires
        course_after(v, src, tgt, live, a).stack.len() == 0,
        course_after(v, src, tgt, live, b).stack.len() == 0,
    ensures
        course_after(v, src, tgt, live, a) == course_after(v, src, tgt, live, b),
{
    if a <= b {
        lemma_course_rests(v, src, tgt, live, a, b);
    } else {
        lemma_course_rests(v, src, tgt, live, b, a);
    }
}

/// Once no node is open, further steps change nothing.
pub proof fn lemma_course_rests(
    v: Course,
    src: Seq<usize>,
    tgt: Seq<usize>,
    live: Seq<bool>,
    a: nat,
    b: nat,
)
    requires
        course_after(v, src, tgt, live, a).stack.len() == 0,
        a <= b,
    ensures
        course_after(v, src, tgt, live, b) == course_after(v, src, tgt, live, a),
    decreases b - a,
{
    if a < b {
        lemma_course_rests(v, src, tgt, live, a, (b - 1) as nat);
    }
}

/// Once no node is open, every retained edge leads from a node that the
/// traversal has left to one that it has left earlier, every edge that
/// leads back joins two nodes that it has left, and every edge without a
/// class starts at a white node.
pub proof fn lemma_settled(t: Traversal, ends: Ends, e: int)
    requires
        t.inv(ends),
        t.stack.len() == 0,
        0 <= e < t.class.len(),
    ensures
        ends.live@[e] ==> ends.src@[e] < t.state.len() && ends.tgt@[e] < t.state.len(),
        t.class@[e] == EdgeClass::SelfLoop <==> !ends.live@[e],
        t.class@[e] == EdgeClass::Retained ==> t.state@[ends.src@[e] as int] == DONE
            && t.state@[ends.tgt@[e] as int] == DONE && t.fin_at@[ends.tgt@[e] as int]
            < t.fin_at@[ends.src@[e] as int],
        t.class@[e] == EdgeClass::Back ==> t.state@[ends.src@[e] as int] == DONE
            && t.state@[ends.tgt@[e] as int] == DONE && ends.closes_cycle(t.class@, e),
        t.class@[e] == EdgeClass::Unreached ==> t.state@[ends.src@[e] as int] == WHITE,
{
    assert(t.edge_ok(ends, e));
    if ends.live@[e] {
        let a = ends.src@[e] as int;
        let b = ends.tgt@[e] as int;
        assert(t.state@[a] <= DONE && t.state@[b] <= DONE);
        if t.state@[a] == OPEN {
            let i = choose|i: int| 0 <= i < t.stack.len() && (#[trigger] t.stack@[i]).node == a;
        }
        if t.state@[b] == OPEN {
            let i = choose|i: int| 0 <= i < t.stack.len() && (#[trigger] t.stack@[i]).node == b;
        }
    }
}

impl Traversal {
    /// A traversal that has entered the node at place `entry` and nothing
    /// else.
    fn begin(ends: &Ends, n: usize, entry: usize) -> (t: Traversal)
        requires
            ends.wf(n as int),
            entry < n,
        ensures
            t.inv(*ends),
            t.state.len() == n,
            t.state@[entry as int] != WHITE,
            t.rooted(*ends, entry as int),
            t.course() == course_start(n as nat, ends.live@, entry),
    {
        let mut state: Vec<u8> = Vec::new();
        let mut fin_at: Vec<usize> = Vec::new();
        let mut x: usize = 0;
        while x < n
            invariant
                0 <= x <= n,
                state.len() == x,
                fin_at.len() == x,
                forall|k: int| 0 <= k < x ==> #[trigger] state@[k] == WHITE,
                forall|k: int| 0 <= k < x ==> #[trigger] fin_at@[k] == 0,
            decreases n - x,
        {
            state.push(WHITE);
            fin_at.push(0);
            x += 1;
        }
        let mut class: Vec<EdgeClass> = Vec::new();
        let mut e: usize = 0;
        while e < ends.live.len()
            invariant
                0 <= e <= ends.live.len(),
                class.len() == e,
                forall|k: int|
                    0 <= k < e ==> #[trigger] class@[k] == (if ends.live@[k] {
                        EdgeClass::Unreached
                    } else {
                        EdgeClass::SelfLoop
                    }),
            decreases ends.live.len() - e,
        {
            if ends.live[e] {
                class.push(EdgeClass::Unreached);
            } else {
                class.push(EdgeClass::SelfLoop);
            }
            e += 1;
        }
        state.set(entry, OPEN);
        let mut stack: Vec<Frame> = Vec::new();
        stack.push(Frame { node: entry, cursor: 0, via: 0 });
        let t = Traversal { state, stack, finished: Vec::new(), fin_at, class };
        proof {
            let first = course_start(n as nat, ends.live@, entry);
            assert(t.state@ =~= first.state);
            assert(t.stack@ =~= first.stack);
            assert(t.finished@ =~= first.finished);
            assert(t.fin_at@ =~= first.fin_at);
            assert(t.class@ =~= first.class);
            assert(t.stack@[0].node == entry);
            assert forall|k: int| 0 <= k < t.class.len() implies #[trigger] t.edge_ok(*ends, k) by {
                assert(t.class@[k] == (if ends.live@[k] {
                    EdgeClass::Unreached
                } else {
                    EdgeClass::SelfLoop
                }));
            }
        }
        t
    }

    /// One step of the traversal: the top frame looks at the edge at its
    /// cursor, or the traversal leaves its node where no edge is left.
    fn step(&mut self, ends: &Ends)
        requires
            old(self).inv(*ends),
            old(self).stack.len() > 0,
        ensures
            final(self).inv(*ends),
            old(self).grown(*final(self)),
            old(self).nearer(*final(self), *ends),
            old(self).came_by(*final(self), *ends),
            final(self).course() == course_step(
                old(self).course(),
                ends.src@,
                ends.tgt@,
                ends.live@,
            ),
    {
        let top: usize = self.stack.len() - 1;
        let frame: Frame = self.stack[top];
        if frame.cursor == ends.live.len() {
            self.leave(ends);
        } else if ends.live[frame.cursor] && ends.src[frame.cursor] == frame.node {
            self.follow(ends);
        } else {
            let ghost before = *self;
            self.stack.set(top, Frame { node: frame.node, cursor: frame.cursor + 1, via: frame.via });
            proof {
                assert(before.advanced(*self));
                lemma_skip(before, *self, *ends);
                assert(self.stack@ =~= course_step(
                    before.course(),
                    ends.src@,
                    ends.tgt@,
                    ends.live@,
                ).stack);
            }
        }
    }

    /// Leaves the node of the top frame.
    fn leave(&mut self, ends: &Ends)
        requires
            old(self).inv(*ends),
            old(self).stack.len() > 0,
            old(self).stack@.last().cursor == ends.live.len(),
        ensures
            final(self).inv(*ends),
            old(self).grown(*final(self)),
            old(self).nearer(*final(self), *ends),
            old(self).came_by(*final(self), *ends),
            final(self).course() == course_step(
                old(self).course(),
                ends.src@,
                ends.tgt@,
                ends.live@,
            ),
    {
        let ghost before = *self;
        let top: usize = self.stack.len() - 1;
        let u: usize = self.stack[top].node;
        let place: usize = self.finished.len();
        self.state.set(u, DONE);
        self.fin_at.set(u, place);
        self.finished.push(u);
        self.stack.pop();
        proof {
            assert(before.left(*self));
            lemma_leave(before, *self, *ends);
            assert(before.stack@[top as int].node < before.state.len());
            assert(before.state@[u as int] == OPEN);
            let next = course_step(before.course(), ends.src@, ends.tgt@, ends.live@);
            assert(self.state@ =~= next.state);
            assert(self.stack@ =~= next.stack);
            assert(self.finished@ =~= next.finished);
            assert(self.fin_at@ =~= next.fin_at);
        }
    }

    /// Looks at the edge at the cursor of the top frame, which starts at the
    /// node of that frame.
    fn follow(&mut self, ends: &Ends)
        requires
            old(self).inv(*ends),
            old(self).at_own_edge(*ends),
        ensures
            final(self).inv(*ends),
            old(self).grown(*final(self)),
            old(self).nearer(*final(self), *ends),
            old(self).came_by(*final(self), *ends),
            final(self).course() == course_step(
                old(self).course(),
                ends.src@,
                ends.tgt@,
                ends.live@,
            ),
    {
        let ghost before = *self;
        let top: usize = self.stack.len() - 1;
        let frame: Frame = self.stack[top];
        let c: usize = frame.cursor;
        let v: usize = ends.tgt[c];
        proof {
            lemma_cursor_edge_fresh(before, *ends);
        }
        self.stack.set(top, Frame { node: frame.node, cursor: c + 1, via: frame.via });
        if self.state[v] == WHITE {
            self.class.set(c, EdgeClass::Retained);
            self.state.set(v, OPEN);
            self.stack.push(Frame { node: v, cursor: 0, via: c });
            proof {
                assert(before.entered(*self, v));
                lemma_enter(before, *self, *ends, v);
                assert(self.class@[c as int] == EdgeClass::Retained);
                assert(self.has_retained_to(*ends, v as int));
                let next = course_step(before.course(), ends.src@, ends.tgt@, ends.live@);
                assert(self.state@ =~= next.state);
                assert(self.stack@ =~= next.stack);
                assert(self.class@ =~= next.class);
            }
        } else {
            let to: EdgeClass = if self.state[v] == OPEN {
                EdgeClass::Back
            } else {
                EdgeClass::Retained
            };
            self.class.set(c, to);
            proof {
                assert(before.advanced(*self));
                lemma_mark(before, *self, *ends);
                let next = course_step(before.course(), ends.src@, ends.tgt@, ends.live@);
                assert(self.stack@ =~= next.stack);
                assert(self.class@ =~= next.class);
            }
        }
    }

    /// The whole traversal from the node at place `entry`.
    fn run(ends: &Ends, n: usize, entry: usize) -> (t: Traversal)
        requires
            ends.wf(n as int),
            entry < n,
        ensures
            t.inv(*ends),
            t.state.len() == n,
            t.stack.len() == 0,
            t.state@[entry as int] == DONE,
            t.rooted(*ends, entry as int),
            exists|k: nat|
                t.course() == course_after(
                    course_start(n as nat, ends.live@, entry),
                    ends.src@,
                    ends.tgt@,
                    ends.live@,
                    k,
                ),
    {
        let mut t: Traversal = Traversal::begin(ends, n, entry);
        let ghost mut steps: nat = 0;
        while t.stack.len() > 0
            invariant
                t.course() == course_after(
                    course_start(n as nat, ends.live@, entry),
                    ends.src@,
                    ends.tgt@,
                    ends.live@,
                    steps,
                ),
                t.inv(*ends),
                t.state.len() == n,
                entry < n,
                t.state@[entry as int] != WHITE,
                t.rooted(*ends, entry as int),
            decreases t.white(), frame_sum(t.stack@, ends.live.len() as int),
        {
            let ghost before = t;
            proof {
                lemma_frame_sum_positive(t.stack@, ends.live.len() as int);
            }
            t.step(ends);
            proof {
                lemma_frame_sum_positive(t.stack@, ends.live.len() as int);
                assert(before.grown(t));
                assert(before.nearer(t, *ends));
                lemma_rooted_kept(before, t, *ends, entry as int);
                steps = steps + 1;
            }
        }
        proof {
            if t.state@[entry as int] == OPEN {
                let i = choose|i: int|
                    0 <= i < t.stack.len() && (#[trigger] t.stack@[i]).node == entry as int;
            }
        }
        t
    }
}

/// What holds of the nodes that the traversal has seen still holds after a
/// step.
pub proof fn lemma_rooted_kept(before: Traversal, after: Traversal, ends: Ends, entry: int)
    requires
        before.rooted(ends, entry),
        before.came_by(after, ends),
        after.state.len() == before.state.len(),
        after.class.len() == before.class.len(),
    ensures
        after.rooted(ends, entry),
{
    assert forall|x: int|
        0 <= x < after.state.len() && #[trigger] after.state@[x] != WHITE implies x == entry
        || after.has_retained_to(ends, x) by {
        if before.state@[x] != WHITE && x != entry {
            assert(before.has_retained_to(ends, x));
            let e = choose|e: int|
                0 <= e < before.class.len() && #[trigger] before.class@[e] == EdgeClass::Retained
                    && ends.live@[e] && ends.tgt@[e] == x;
            assert(after.class@[e] == EdgeClass::Retained);
        }
    }
}

/// The sum over frames whose cursors are within the edges is not negative.
pub proof fn lemma_frame_sum_positive(stack: Seq<Frame>, m: int)
    requires
        forall|i: int| 0 <= i < stack.len() ==> (#[trigger] stack[i]).cursor <= m,
    ensures
        frame_sum(stack, m) >= 0,
    decreases stack.len(),
{
    if stack.len() > 0 {
        assert forall|i: int| 0 <= i < stack.drop_last().len() implies (
        #[trigger] stack.drop_last()[i]).cursor <= m by {
            assert(stack.drop_last()[i] == stack[i]);
        }
        lemma_frame_sum_positive(stack.drop_last(), m);
        assert(stack[stack.len() - 1].cursor <= m);
    }
}

/// Along every retained edge the row rises by at least one.
pub open spec fn rows_rise(rows: Seq<usize>, class: Seq<EdgeClass>, ends: Ends) -> bool {
    forall|e: int|
        0 <= e < class.len() && #[trigger] class[e] == EdgeClass::Retained ==> rows[ends.tgt@[e] as int]
            >= rows[ends.src@[e] as int] + 1
}

/// The retained edge at place `e` leads to the node at place `v` from a
/// node exactly one row above.
pub open spec fn row_witness(
    rows: Seq<usize>,
    class: Seq<EdgeClass>,
    ends: Ends,
    v: int,
    e: int,
) -> bool {
    &&& 0 <= e < class.len()
    &&& class[e] == EdgeClass::Retained
    &&& ends.tgt@[e] == v
    &&& rows[v] == rows[ends.src@[e] as int] + 1
}

/// No row is higher than it must be: a node is in row 0, or a retained edge
/// leads to it from a node exactly one row above.
pub open spec fn rows_tight(rows: Seq<usize>, class: Seq<EdgeClass>, ends: Ends) -> bool {
    forall|v: int|
        0 <= v < rows.len() ==> #[trigger] rows[v] == 0 || exists|e: int|
            row_witness(rows, class, ends, v, e)
}

/// The node at place `x` is among the last `k` that the traversal left.
pub open spec fn processed(t: Traversal, x: int, k: int) -> bool {
    t.state@[x] == DONE && t.fin_at@[x] + k >= t.finished.len()
}

/// What holds of the rows once the retained edges from the last `k` nodes
/// that the traversal left, and those before place `e` from the node left
/// just before them, have been looked at.
pub open spec fn rows_inv(rows: Seq<usize>, t: Traversal, ends: Ends, k: int, e: int) -> bool {
    let u = t.finished@[t.finished.len() - 1 - k] as int;
    &&& rows.len() == t.state.len()
    &&& forall|d: int|
        0 <= d < t.class.len() && #[trigger] t.class@[d] == EdgeClass::Retained && (processed(
            t,
            ends.src@[d] as int,
            k,
        ) || (d < e && ends.src@[d] == u)) ==> rows[ends.tgt@[d] as int] >= rows[ends.src@[d] as int]
            + 1
    &&& forall|v: int|
        0 <= v < rows.len() ==> #[trigger] rows[v] == 0 || exists|d: int|
            row_witness(rows, t.class@, ends, v, d) && processed(t, ends.src@[d] as int, k + 1)
    &&& forall|x: int| 0 <= x < rows.len() ==> #[trigger] rows[x] <= k + 1
    &&& forall|x: int| 0 <= x < rows.len() && processed(t, x, k + 1) ==> #[trigger] rows[x] <= k
}

/// Raising the row of the target of a retained edge from the node in turn
/// keeps what holds of the rows.
pub proof fn lemma_raise(
    t: Traversal,
    ends: Ends,
    before: Seq<usize>,
    after: Seq<usize>,
    k: int,
    e: int,
)
    requires
        t.inv(ends),
        t.stack.len() == 0,
        0 <= k < t.finished.len(),
        0 <= e < t.class.len(),
        t.class@[e] == EdgeClass::Retained,
        ends.src@[e] == t.finished@[t.finished.len() - 1 - k],
        rows_inv(before, t, ends, k, e),
        after == before.update(
            ends.tgt@[e] as int,
            (before[ends.src@[e] as int] + 1) as usize,
        ),
        before[ends.tgt@[e] as int] < before[ends.src@[e] as int] + 1,
    ensures
        rows_inv(after, t, ends, k, e + 1),
{
    let f = t.finished.len() as int;
    let u = ends.src@[e] as int;
    let v = ends.tgt@[e] as int;
    lemma_settled(t, ends, e);
    assert(t.finished@[f - 1 - k] < t.state.len());
    assert(t.fin_at@[u] == f - 1 - k);
    assert(processed(t, u, k + 1));
    assert(!processed(t, v, k + 1));
    assert(before[u] <= k);
    assert forall|d: int|
        0 <= d < t.class.len() && #[trigger] t.class@[d] == EdgeClass::Retained && (processed(
            t,
            ends.src@[d] as int,
            k,
        ) || (d < e + 1 && ends.src@[d] == u)) implies after[ends.tgt@[d] as int] >= after[ends.src@[d] as int]
        + 1 by {
        lemma_settled(t, ends, d);
    }
    assert forall|x: int| 0 <= x < after.len() implies #[trigger] after[x] == 0 || exists|d: int|
        row_witness(after, t.class@, ends, x, d) && processed(t, ends.src@[d] as int, k + 1) by {
        if x == v {
            assert(row_witness(after, t.class@, ends, x, e));
        } else if before[x] != 0 {
            let d = choose|d: int|
                row_witness(before, t.class@, ends, x, d) && processed(
                    t,
                    ends.src@[d] as int,
                    k + 1,
                );
            lemma_settled(t, ends, d);
            assert(row_witness(after, t.class@, ends, x, d));
        }
    }
}

/// Once every retained edge from the node in turn has been looked at, the
/// next node is in turn.
pub proof fn lemma_next_node(t: Traversal, ends: Ends, rows: Seq<usize>, k: int)
    requires
        t.inv(ends),
        t.stack.len() == 0,
        0 <= k < t.finished.len(),
        rows_inv(rows, t, ends, k, t.class.len() as int),
    ensures
        k + 1 < t.finished.len() ==> rows_inv(rows, t, ends, k + 1, 0),
        k + 1 == t.finished.len() ==> rows_rise(rows, t.class@, ends) && rows_tight(
            rows,
            t.class@,
            ends,
        ),
{
    let f = t.finished.len() as int;
    let u = t.finished@[f - 1 - k] as int;
    assert(t.finished@[f - 1 - k] < t.state.len());
    assert forall|x: int| 0 <= x < t.state.len() && processed(t, x, k + 1) implies processed(
        t,
        x,
        k,
    ) || x == u by {
        if !processed(t, x, k) {
            assert(t.fin_at@[x] == f - 1 - k);
        }
    }
    assert forall|d: int|
        0 <= d < t.class.len() && #[trigger] t.class@[d] == EdgeClass::Retained && processed(
            t,
            ends.src@[d] as int,
            k + 1,
        ) implies rows[ends.tgt@[d] as int] >= rows[ends.src@[d] as int] + 1 by {
        lemma_settled(t, ends, d);
    }
    if k + 1 == f {
        assert forall|d: int|
            0 <= d < t.class.len() && #[trigger] t.class@[d]
                == EdgeClass::Retained implies rows[ends.tgt@[d] as int] >= rows[ends.src@[d] as int]
            + 1 by {
            lemma_settled(t, ends, d);
            assert(processed(t, ends.src@[d] as int, k + 1));
        }
        assert forall|v: int| 0 <= v < rows.len() implies #[trigger] rows[v] == 0 || exists|d: int|
            row_witness(rows, t.class@, ends, v, d) by {
            if rows[v] != 0 {
                let d = choose|d: int|
                    row_witness(rows, t.class@, ends, v, d) && processed(
                        t,
                        ends.src@[d] as int,
                        k + 1,
                    );
                assert(row_witness(rows, t.class@, ends, v, d));
            }
        }
    } else {
        assert forall|v: int| 0 <= v < rows.len() implies #[trigger] rows[v] == 0 || exists|d: int|
            row_witness(rows, t.class@, ends, v, d) && processed(
                t,
                ends.src@[d] as int,
                k + 2,
            ) by {
            if rows[v] != 0 {
                let d = choose|d: int|
                    row_witness(rows, t.class@, ends, v, d) && processed(
                        t,
                        ends.src@[d] as int,
                        k + 1,
                    );
                assert(processed(t, ends.src@[d] as int, k + 2));
            }
        }
    }
}

/// Gives every node its row: the length of the longest chain of retained
/// edges that leads to it.
fn assign_rows(t: &Traversal, ends: &Ends) -> (rows: Vec<usize>)
    requires
        t.inv(*ends),
        t.stack.len() == 0,
    ensures
        rows.len() == t.state.len(),
        rows_rise(rows@, t.class@, *ends),
        rows_tight(rows@, t.class@, *ends),
{
    let n: usize = t.state.len();
    let m: usize = t.class.len();
    let f: usize = t.finished.len();
    let mut rows: Vec<usize> = Vec::new();
    let mut x: usize = 0;
    while x < n
        invariant
            0 <= x <= n,
            rows.len() == x,
            forall|i: int| 0 <= i < x ==> #[trigger] rows@[i] == 0,
        decreases n - x,
    {
        rows.push(0);
        x += 1;
    }
    if f == 0 {
        proof {
            assert forall|e: int|
                0 <= e < t.class.len() && #[trigger] t.class@[e]
                    == EdgeClass::Retained implies rows@[ends.tgt@[e] as int]
                >= rows@[ends.src@[e] as int] + 1 by {
                lemma_settled(*t, *ends, e);
            }
        }
        return rows;
    }
    let mut k: usize = 0;
    proof {
        assert forall|d: int|
            0 <= d < t.class.len() && #[trigger] t.class@[d] == EdgeClass::Retained && (processed(
                *t,
                ends.src@[d] as int,
                0,
            ) || (d < 0 && ends.src@[d] == t.finished@[f - 1])) implies rows@[ends.tgt@[d] as int]
            >= rows@[ends.src@[d] as int] + 1 by {
            lemma_settled(*t, *ends, d);
        }
    }
    while k < f
        invariant
            0 <= k <= f,
            f > 0,
            n == t.state.len(),
            m == t.class.len(),
            f == t.finished.len(),
            t.inv(*ends),
            t.stack.len() == 0,
            rows.len() == n,
            k < f ==> rows_inv(rows@, *t, *ends, k as int, 0),
            k == f ==> rows_rise(rows@, t.class@, *ends) && rows_tight(rows@, t.class@, *ends),
        decreases f - k,
    {
        let u: usize = t.finished[f - 1 - k];
        let mut e: usize = 0;
        while e < m
            invariant
                0 <= e <= m,
                0 <= k < f,
                n == t.state.len(),
                m == t.class.len(),
                f == t.finished.len(),
                t.inv(*ends),
                t.stack.len() == 0,
                u == t.finished@[f - 1 - k],
                rows.len() == n,
                rows_inv(rows@, *t, *ends, k as int, e as int),
            decreases m - e,
        {
            if t.class[e] == EdgeClass::Retained && ends.src[e] == u {
                proof {
                    lemma_settled(*t, *ends, e as int);
                    assert(t.finished@[f - 1 - k] < t.state.len());
                    assert(processed(*t, u as int, k + 1));
                }
                let v: usize = ends.tgt[e];
                let r: usize = rows[u];
                if rows[v] < r + 1 {
                    let ghost before = rows@;
                    rows.set(v, r + 1);
                    proof {
                        lemma_raise(*t, *ends, before, rows@, k as int, e as int);
                    }
                }
            }
            e += 1;
        }
        proof {
            lemma_next_node(*t, *ends, rows@, k as int);
        }
        k += 1;
    }
    rows
}

/// `list` holds the places of the edges of class `c`, each once, in
/// ascending order.
pub open spec fn lists(list: Seq<usize>, class: Seq<EdgeClass>, c: EdgeClass) -> bool {
    &&& forall|k: int| 0 <= k < list.len() ==> #[trigger] list[k] < class.len() && class[list[k] as int] == c
    &&& forall|i: int, j: int| 0 <= i < j < list.len() ==> list[i] < list[j]
    &&& forall|e: int| 0 <= e < class.len() && #[trigger] class[e] == c ==> list.contains(e as usize)
}

/// Collects the places of the edges of class `c`.
pub fn collect(class: &Vec<EdgeClass>, c: EdgeClass) -> (list: Vec<usize>)
    ensures
        lists(list@, class@, c),
{
    let mut list: Vec<usize> = Vec::new();
    let mut e: usize = 0;
    while e < class.len()
        invariant
            0 <= e <= class.len(),
            forall|k: int|
                0 <= k < list.len() ==> #[trigger] list@[k] < e && class@[list@[k] as int] == c,
            forall|i: int, j: int| 0 <= i < j < list.len() ==> list@[i] < list@[j],
            forall|d: int| 0 <= d < e && #[trigger] class@[d] == c ==> list@.contains(d as usize),
        decreases class.len() - e,
    {
        if class[e] == c {
            let ghost before = list@;
            list.push(e);
            proof {
                assert(list@[list.len() - 1] == e);
                assert forall|d: int| 0 <= d < e + 1 && #[trigger] class@[d] == c implies list@.contains(
                    d as usize,
                ) by {
                    if d < e {
                        let k = choose|k: int| 0 <= k < before.len() && before[k] == d as usize;
                        assert(list@[k] == d as usize);
                    }
                }
            }
        }
        e += 1;
    }
    list
}

/// The outcome of leveling a graph.
#[derive(Debug)]
pub struct Leveling {
    /// The ends of the edges as places among the nodes.
    pub ends: Ends,
    /// The row of every node.
    pub rows: Vec<usize>,
    /// The class of every edge.
    pub class: Vec<EdgeClass>,
    /// The places of the nodes that the traversal came to, each before
    /// every node that a retained edge leads to from it.
    pub order: Vec<usize>,
    /// The places of the retained edges.
    pub dag_edges: Vec<usize>,
    /// The places of the edges that were taken out.
    pub back_edges: Vec<usize>,
}

impl Leveling {
    /// The traversal came to the node at place `x`.
    pub open spec fn reached(self, x: int) -> bool {
        exists|k: int| 0 <= k < self.order.len() && self.order@[k] == x
    }

    /// A retained edge leads to the node at place `x`.
    pub open spec fn has_retained_to(self, x: int) -> bool {
        exists|e: int|
            0 <= e < self.class.len() && #[trigger] self.class@[e] == EdgeClass::Retained
                && self.ends.live@[e] && self.ends.tgt@[e] == x
    }

    /// The node at place `u` stands before the node at place `v` in the
    /// order.
    pub open spec fn comes_before(self, u: int, v: int) -> bool {
        exists|i: int, j: int|
            0 <= i < j < self.order.len() && self.order@[i] == u && self.order@[j] == v
    }

    /// The sizes fit, and every retained edge joins two different nodes.
    pub open spec fn shaped(self) -> bool {
        &&& self.ends.wf(self.rows.len() as int)
        &&& self.class.len() == self.ends.live.len()
        &&& forall|e: int|
            0 <= e < self.class.len() ==> (#[trigger] self.class@[e] == EdgeClass::SelfLoop
                <==> !self.ends.live@[e])
    }

    /// The leveling is that of the snapshot `s`.
    pub open spec fn levels(self, s: GraphSnapshot) -> bool {
        &&& self.shaped()
        &&& self.ends.matches(s)
        &&& self.rows.len() == s.nodes.len()
        &&& rows_rise(self.rows@, self.class@, self.ends)
        &&& rows_tight(self.rows@, self.class@, self.ends)
        &&& forall|e: int|
            0 <= e < self.class.len() && #[trigger] self.class@[e] == EdgeClass::Back
                ==> self.ends.closes_cycle(self.class@, e)
        &&& forall|k: int| 0 <= k < self.order.len() ==> #[trigger] self.order@[k] < self.rows.len()
        &&& forall|i: int, j: int|
            0 <= i < j < self.order.len() ==> self.order@[i] != self.order@[j]
        &&& forall|e: int|
            0 <= e < self.class.len() && #[trigger] self.class@[e] == EdgeClass::Retained
                ==> self.comes_before(self.ends.src@[e] as int, self.ends.tgt@[e] as int)
        &&& s.entry_place() is Some && self.reached(s.entry_place()->0)
        &&& forall|k: int|
            0 <= k < self.order.len() ==> (#[trigger] self.order@[k]) == s.entry_place()->0
                || self.has_retained_to(self.order@[k] as int)
        &&& forall|e: int|
            0 <= e < self.class.len() && self.ends.live@[e] ==> (#[trigger] self.class@[e]
                == EdgeClass::Unreached <==> !self.reached(self.ends.src@[e] as int))
        &&& forall|e: int|
            0 <= e < self.class.len() && (#[trigger] self.class@[e] == EdgeClass::Retained
                || self.class@[e] == EdgeClass::Back) ==> self.reached(self.ends.tgt@[e] as int)
        &&& lists(self.dag_edges@, self.class@, EdgeClass::Retained)
        &&& lists(self.back_edges@, self.class@, EdgeClass::Back)
        &&& exists|k: nat| self.pinned(s, k)
    }

    /// The classes and the order are those of the traversal of the edges
    /// between two different nodes of `s`, in their order, which has left
    /// every node after `k` steps.
    pub open spec fn pinned(self, s: GraphSnapshot, k: nat) -> bool {
        let course = course_of(s, k);
        let place = live_places(s, s.edges@.len());
        &&& course.stack.len() == 0
        &&& course.class.len() == place.len()
        &&& forall|i: int|
            0 <= i < place.len() ==> self.class@[#[trigger] place[i] as int] == course.class[i]
        &&& self.order.len() == course.finished.len()
        &&& forall|j: int|
            0 <= j < self.order.len() ==> #[trigger] self.order@[j] == course.finished[
                course.finished.len() - 1 - j]
    }

    /// The retained edge at place `e` leads to the node at place `v` from a
    /// node exactly one row above.
    pub open spec fn is_parent_edge(self, v: int, e: int) -> bool {
        row_witness(self.rows@, self.class@, self.ends, v, e)
    }
}

/// The reverse of the order in which the traversal left the nodes.
fn reverse_finish(t: &Traversal, ends: &Ends) -> (order: Vec<usize>)
    requires
        t.inv(*ends),
    ensures
        order.len() == t.finished.len(),
        forall|k: int|
            0 <= k < order.len() ==> #[trigger] order@[k] == t.finished@[t.finished.len() - 1 - k],
        forall|k: int| 0 <= k < order.len() ==> #[trigger] order@[k] < t.state.len(),
        forall|i: int, j: int| 0 <= i < j < order.len() ==> order@[i] != order@[j],
        forall|x: int|
            0 <= x < t.state.len() ==> (#[trigger] t.state@[x] == DONE <==> exists|k: int|
                0 <= k < order.len() && order@[k] == x),
{
    let f: usize = t.finished.len();
    let mut order: Vec<usize> = Vec::new();
    let mut k: usize = 0;
    while k < f
        invariant
            0 <= k <= f,
            f == t.finished.len(),
            order.len() == k,
            forall|i: int| 0 <= i < k ==> #[trigger] order@[i] == t.finished@[f - 1 - i],
        decreases f - k,
    {
        order.push(t.finished[f - 1 - k]);
        k += 1;
    }
    proof {
        assert forall|i: int| 0 <= i < order.len() implies #[trigger] order@[i] < t.state.len() by {
            assert(t.finished@[f - 1 - i] < t.state.len());
        }
        assert forall|i: int, j: int| 0 <= i < j < order.len() implies order@[i] != order@[j] by {
            assert(t.finished@[f - 1 - i] < t.state.len());
            assert(t.finished@[f - 1 - j] < t.state.len());
            assert(order@[i] == t.finished@[f - 1 - i]);
            assert(order@[j] == t.finished@[f - 1 - j]);
        }
        assert forall|x: int| 0 <= x < t.state.len() implies (#[trigger] t.state@[x] == DONE
            <==> exists|k: int| 0 <= k < order.len() && order@[k] == x) by {
            if t.state@[x] == DONE {
                let w = f - 1 - t.fin_at@[x];
                assert(order@[w] == t.finished@[f - 1 - w]);
            }
            if exists|k: int| 0 <= k < order.len() && order@[k] == x {
                let w = choose|k: int| 0 <= k < order.len() && order@[k] == x;
                assert(order@[w] == t.finished@[f - 1 - w]);
                assert(t.finished@[f - 1 - w] < t.state.len());
            }
        }
    }
    order
}

/// The places of the edges between two different nodes among the first `n`
/// edges, in their order.
pub open spec fn live_places(s: GraphSnapshot, n: nat) -> Seq<usize>
    decreases n,
{
    if n == 0 {
        Seq::empty()
    } else if s.is_live(n - 1) {
        live_places(s, (n - 1) as nat).push((n - 1) as usize)
    } else {
        live_places(s, (n - 1) as nat)
    }
}

/// The places of the sources of the edges between two different nodes among
/// the first `n` edges, in the order of the edges.
pub open spec fn live_sources(s: GraphSnapshot, n: nat) -> Seq<usize>
    decreases n,
{
    if n == 0 {
        Seq::empty()
    } else if s.is_live(n - 1) {
        live_sources(s, (n - 1) as nat).push(s.source_of(n - 1) as usize)
    } else {
        live_sources(s, (n - 1) as nat)
    }
}

/// The places of the targets of the edges between two different nodes among
/// the first `n` edges, in the order of the edges.
pub open spec fn live_targets(s: GraphSnapshot, n: nat) -> Seq<usize>
    decreases n,
{
    if n == 0 {
        Seq::empty()
    } else if s.is_live(n - 1) {
        live_targets(s, (n - 1) as nat).push(s.target_of(n - 1) as usize)
    } else {
        live_targets(s, (n - 1) as nat)
    }
}

/// The outcome of the traversal of the snapshot `s` from its entry after
/// `k` steps: over the edges between two different nodes alone, in their
/// order.
pub open spec fn course_of(s: GraphSnapshot, k: nat) -> Course {
    let src = live_sources(s, s.edges@.len());
    let tgt = live_targets(s, s.edges@.len());
    let live = Seq::new(src.len(), |i: int| true);
    course_after(
        course_start(s.nodes@.len(), live, s.entry_place()->0 as usize),
        src,
        tgt,
        live,
        k,
    )
}

/// `class` gives every edge between two different nodes the class that
/// `inner` gives it among those edges, and every other edge the class of an
/// edge from a node to itself; `core` holds the ends of those edges.
pub open spec fn spread_of(
    core: Ends,
    inner: Seq<EdgeClass>,
    ends: Ends,
    class: Seq<EdgeClass>,
    place: Seq<usize>,
) -> bool {
    &&& core.src.len() == place.len()
    &&& core.tgt.len() == place.len()
    &&& core.live.len() == place.len()
    &&& inner.len() == place.len()
    &&& class.len() == ends.live.len()
    &&& forall|i: int| 0 <= i < place.len() ==> #[trigger] core.live@[i]
    &&& forall|i: int|
        0 <= i < place.len() ==> (#[trigger] place[i]) < ends.live.len() && ends.live@[place[i] as int]
            && core.src@[i] == ends.src@[place[i] as int] && core.tgt@[i] == ends.tgt@[place[i] as int]
            && class[place[i] as int] == inner[i]
    &&& forall|e: int|
        0 <= e < ends.live.len() && #[trigger] ends.live@[e] ==> exists|i: int|
            0 <= i < place.len() && place[i] == e
    &&& forall|e: int|
        0 <= e < ends.live.len() && !(#[trigger] ends.live@[e]) ==> class[e] == EdgeClass::SelfLoop
}

/// Picks the edges between two different nodes: their ends, and the place
/// of each among all edges.
fn live_only(s: &GraphSnapshot, ends: &Ends) -> (r: (Ends, Vec<usize>))
    requires
        ends.matches(*s),
    ensures
        r.1@ == live_places(*s, s.edges@.len()),
        r.0.src@ == live_sources(*s, s.edges@.len()),
        r.0.tgt@ == live_targets(*s, s.edges@.len()),
        r.0.live@ == Seq::new(r.1@.len(), |i: int| true),
        r.0.wf(s.nodes.len() as int),
        forall|i: int|
            0 <= i < r.1.len() ==> (#[trigger] r.1@[i]) < ends.live.len() && ends.live@[r.1@[i] as int]
                && r.0.src@[i] == ends.src@[r.1@[i] as int] && r.0.tgt@[i] == ends.tgt@[r.1@[i] as int],
        forall|i: int, j: int| 0 <= i < j < r.1.len() ==> r.1@[i] < r.1@[j],
        forall|e: int|
            0 <= e < ends.live.len() && #[trigger] ends.live@[e] ==> exists|i: int|
                0 <= i < r.1.len() && r.1@[i] == e,
{
    let mut src: Vec<usize> = Vec::new();
    let mut tgt: Vec<usize> = Vec::new();
    let mut live: Vec<bool> = Vec::new();
    let mut place: Vec<usize> = Vec::new();
    let mut e: usize = 0;
    while e < ends.live.len()
        invariant
            0 <= e <= ends.live.len(),
            ends.matches(*s),
            place@ == live_places(*s, e as nat),
            src@ == live_sources(*s, e as nat),
            tgt@ == live_targets(*s, e as nat),
            live@ == Seq::new(place@.len(), |i: int| true),
            src.len() == place.len(),
            tgt.len() == place.len(),
            ends.src.len() == ends.live.len(),
            ends.tgt.len() == ends.live.len(),
            forall|i: int|
                0 <= i < place.len() ==> (#[trigger] place@[i]) < e && ends.live@[place@[i] as int]
                    && src@[i] == ends.src@[place@[i] as int] && tgt@[i] == ends.tgt@[place@[i] as int],
            forall|i: int, j: int| 0 <= i < j < place.len() ==> place@[i] < place@[j],
            forall|d: int|
                0 <= d < e && #[trigger] ends.live@[d] ==> exists|i: int|
                    0 <= i < place.len() && place@[i] == d,
        decreases ends.live.len() - e,
    {
        proof {
            assert(ends.live@[e as int] == s.is_live(e as int));
        }
        if ends.live[e] {
            let ghost before = place@;
            src.push(ends.src[e]);
            tgt.push(ends.tgt[e]);
            live.push(true);
            place.push(e);
            proof {
                assert(live@ =~= Seq::new(place@.len(), |i: int| true));
                assert(place@[place.len() - 1] == e);
                assert forall|i: int| 0 <= i < place.len() implies (#[trigger] place@[i]) < e + 1
                    && ends.live@[place@[i] as int] && src@[i] == ends.src@[place@[i] as int]
                    && tgt@[i] == ends.tgt@[place@[i] as int] by {
                    if i < before.len() {
                        assert(place@[i] == before[i]);
                    }
                }
                assert forall|i: int, j: int| 0 <= i < j < place.len() implies place@[i]
                    < place@[j] by {
                    if j < before.len() {
                        assert(before[i] < before[j]);
                    } else {
                        assert(place@[i] == before[i]);
                        assert(before[i] < e);
                    }
                }
                assert forall|d: int| 0 <= d < e + 1 && #[trigger] ends.live@[d] implies exists|
                    i: int,
                | 0 <= i < place.len() && place@[i] == d by {
                    if d < e {
                        let i = choose|i: int| 0 <= i < before.len() && before[i] == d;
                        assert(place@[i] == d);
                    }
                }
            }
        }
        e += 1;
    }
    let core = Ends { src, tgt, live };
    proof {
        assert forall|d: int| 0 <= d < ends.live.len() && #[trigger] ends.live@[d] implies exists|
            i: int,
        | 0 <= i < place.len() && place@[i] == d by {
            let i = choose|i: int| 0 <= i < place.len() && place@[i] == d;
            assert(place@[i] == d);
        }
        assert forall|i: int| 0 <= i < core.live.len() && #[trigger] core.live@[i] implies core.src@[i]
            < s.nodes.len() && core.tgt@[i] < s.nodes.len() && core.src@[i] != core.tgt@[i] by {
            assert(place@[i] < ends.live.len());
            assert(ends.live@[place@[i] as int]);
        }
    }
    let r = (core, place);
    proof {
        assert forall|d: int| 0 <= d < ends.live.len() && #[trigger] ends.live@[d] implies exists|
            i: int,
        | 0 <= i < r.1.len() && r.1@[i] == d by {
            let i = choose|i: int| 0 <= i < r.1.len() && r.1@[i] == d;
            assert(r.1@[i] == d);
        }
    }
    r
}

/// Gives every edge its class: an edge between two different nodes the
/// class that the traversal gave it, any other edge the class of an edge
/// from a node to itself.
fn spread_classes(inner: &Vec<EdgeClass>, place: &Vec<usize>, m: usize) -> (class: Vec<EdgeClass>)
    requires
        inner.len() == place.len(),
        forall|i: int| 0 <= i < place.len() ==> #[trigger] place@[i] < m,
        forall|i: int, j: int| 0 <= i < j < place.len() ==> place@[i] < place@[j],
    ensures
        class.len() == m,
        forall|i: int| 0 <= i < place.len() ==> class@[#[trigger] place@[i] as int] == inner@[i],
        forall|e: int|
            0 <= e < m && (forall|i: int| 0 <= i < place.len() ==> place@[i] != e)
                ==> #[trigger] class@[e] == EdgeClass::SelfLoop,
{
    let mut class: Vec<EdgeClass> = Vec::new();
    let mut e: usize = 0;
    while e < m
        invariant
            0 <= e <= m,
            class.len() == e,
            forall|d: int| 0 <= d < e ==> #[trigger] class@[d] == EdgeClass::SelfLoop,
        decreases m - e,
    {
        class.push(EdgeClass::SelfLoop);
        e += 1;
    }
    let mut i: usize = 0;
    while i < place.len()
        invariant
            0 <= i <= place.len(),
            inner.len() == place.len(),
            class.len() == m,
            forall|k: int| 0 <= k < place.len() ==> #[trigger] place@[k] < m,
            forall|a: int, b: int| 0 <= a < b < place.len() ==> place@[a] < place@[b],
            forall|k: int| 0 <= k < i ==> class@[#[trigger] place@[k] as int] == inner@[k],
            forall|d: int|
                0 <= d < m && (forall|k: int| 0 <= k < i ==> place@[k] != d) ==> #[trigger] class@[d]
                    == EdgeClass::SelfLoop,
        decreases place.len() - i,
    {
        let ghost before = class@;
        class.set(place[i], inner[i]);
        proof {
            assert forall|k: int| 0 <= k < i + 1 implies class@[#[trigger] place@[k] as int]
                == inner@[k] by {
                if k < i {
                    assert(place@[k] < place@[i as int]);
                    assert(before[place@[k] as int] == inner@[k]);
                }
            }
            assert forall|d: int|
                0 <= d < m && (forall|k: int| 0 <= k < i + 1 ==> place@[k] != d) implies #[trigger] class@[d]
                == EdgeClass::SelfLoop by {
                assert(place@[i as int] != d);
                assert(forall|k: int| 0 <= k < i ==> place@[k] != d);
                assert(before[d] == EdgeClass::SelfLoop);
            }
        }
        i += 1;
    }
    class
}

/// A chain of retained edges among the edges between two different nodes is
/// a chain of retained edges among all edges.
pub proof fn lemma_chain_spread(
    core: Ends,
    inner: Seq<EdgeClass>,
    ends: Ends,
    class: Seq<EdgeClass>,
    place: Seq<usize>,
    p: Seq<int>,
    from: int,
    to: int,
)
    requires
        spread_of(core, inner, ends, class, place),
        core.is_chain(inner, p, from, to),
    ensures
        ends.is_chain(class, Seq::new(p.len(), |k: int| place[p[k]] as int), from, to),
{
    let q = Seq::new(p.len(), |k: int| place[p[k]] as int);
    assert forall|k: int| 0 <= k < q.len() implies 0 <= #[trigger] q[k] < ends.live.len()
        && ends.live@[q[k]] && class[q[k]] == EdgeClass::Retained by {
        assert(0 <= p[k] < core.live.len());
        assert(place[p[k]] < ends.live.len());
    }
    assert(0 <= p[0] < core.live.len());
    assert(place[p[0]] < ends.live.len());
    assert(0 <= p[p.len() - 1] < core.live.len());
    assert(place[p[p.len() - 1]] < ends.live.len());
    assert forall|k: int| 0 <= k < q.len() - 1 implies ends.tgt@[#[trigger] q[k]] == ends.src@[q[k
        + 1]] by {
        assert(0 <= p[k] < core.live.len());
        assert(0 <= p[k + 1] < core.live.len());
        assert(place[p[k]] < ends.live.len());
        assert(place[p[k + 1]] < ends.live.len());
        assert(core.tgt@[p[k]] == core.src@[p[k + 1]]);
    }
}

/// What the traversal found of the edges between two different nodes holds
/// of those edges among all edges: the rows rise along the retained edges
/// and are tight, and every edge that leads back closes a cycle.
pub proof fn lemma_spread_rows(
    t: Traversal,
    core: Ends,
    ends: Ends,
    class: Seq<EdgeClass>,
    place: Seq<usize>,
    rows: Seq<usize>,
)
    requires
        t.inv(core),
        t.stack.len() == 0,
        spread_of(core, t.class@, ends, class, place),
        rows.len() == t.state.len(),
        rows_rise(rows, t.class@, core),
        rows_tight(rows, t.class@, core),
    ensures
        rows_rise(rows, class, ends),
        rows_tight(rows, class, ends),
        forall|e: int|
            0 <= e < class.len() ==> (#[trigger] class[e] == EdgeClass::SelfLoop <==> !ends.live@[e]),
        forall|e: int|
            0 <= e < class.len() && #[trigger] class[e] == EdgeClass::Back ==> ends.closes_cycle(
                class,
                e,
            ),
{
    assert forall|e: int| 0 <= e < class.len() implies (#[trigger] class[e] == EdgeClass::SelfLoop
        <==> !ends.live@[e]) by {
        if ends.live@[e] {
            let i = choose|i: int| 0 <= i < place.len() && place[i] == e;
            assert(place[i] == e);
            lemma_settled(t, core, i);
            assert(core.live@[i]);
        }
    }
    assert forall|e: int|
        0 <= e < class.len() && #[trigger] class[e] == EdgeClass::Retained implies rows[ends.tgt@[e] as int]
        >= rows[ends.src@[e] as int] + 1 by {
        let i = choose|i: int| 0 <= i < place.len() && place[i] == e;
        assert(place[i] == e);
        assert(t.class@[i] == EdgeClass::Retained);
    }
    assert forall|v: int| 0 <= v < rows.len() implies #[trigger] rows[v] == 0 || exists|e: int|
        row_witness(rows, class, ends, v, e) by {
        if rows[v] != 0 {
            let d = choose|d: int| row_witness(rows, t.class@, core, v, d);
            assert(place[d] < ends.live.len());
            assert(row_witness(rows, class, ends, v, place[d] as int));
        }
    }
    assert forall|e: int|
        0 <= e < class.len() && #[trigger] class[e] == EdgeClass::Back implies ends.closes_cycle(
        class,
        e,
    ) by {
        let i = choose|i: int| 0 <= i < place.len() && place[i] == e;
        assert(place[i] == e);
        lemma_settled(t, core, i);
        let p = choose|p: Seq<int>|
            core.is_chain(t.class@, p, core.tgt@[i] as int, core.src@[i] as int);
        lemma_chain_spread(
            core,
            t.class@,
            ends,
            class,
            place,
            p,
            core.tgt@[i] as int,
            core.src@[i] as int,
        );
    }
}

/// What the traversal found of the nodes holds of the edges among all
/// edges: which edges start at a node that was reached, and that a retained
/// edge leads from a node to one behind it in the order.
pub proof fn lemma_spread_reach(
    t: Traversal,
    core: Ends,
    l: Leveling,
    place: Seq<usize>,
    entry: int,
)
    requires
        t.inv(core),
        t.stack.len() == 0,
        t.rooted(core, entry),
        0 <= entry < t.state.len(),
        t.state@[entry] == DONE,
        spread_of(core, t.class@, l.ends, l.class@, place),
        l.order.len() == t.finished.len(),
        forall|k: int|
            0 <= k < l.order.len() ==> #[trigger] l.order@[k] == t.finished@[t.finished.len() - 1
                - k],
        forall|x: int|
            0 <= x < t.state.len() ==> (#[trigger] t.state@[x] == DONE <==> exists|k: int|
                0 <= k < l.order.len() && l.order@[k] == x),
        l.ends.wf(t.state.len() as int),
    ensures
        l.reached(entry),
        forall|k: int|
            0 <= k < l.order.len() ==> (#[trigger] l.order@[k]) == entry || l.has_retained_to(
                l.order@[k] as int,
            ),
        forall|e: int|
            0 <= e < l.class.len() && #[trigger] l.class@[e] == EdgeClass::Retained
                ==> l.comes_before(l.ends.src@[e] as int, l.ends.tgt@[e] as int),
        forall|e: int|
            0 <= e < l.class.len() && l.ends.live@[e] ==> (#[trigger] l.class@[e]
                == EdgeClass::Unreached <==> !l.reached(l.ends.src@[e] as int)),
        forall|e: int|
            0 <= e < l.class.len() && (#[trigger] l.class@[e] == EdgeClass::Retained || l.class@[e]
                == EdgeClass::Back) ==> l.reached(l.ends.tgt@[e] as int),
{
    let f = t.finished.len() as int;
    assert(l.reached(entry)) by {
        let k = choose|k: int| 0 <= k < l.order.len() && l.order@[k] == entry;
        assert(l.order@[k] == entry);
    }
    assert forall|k: int| 0 <= k < l.order.len() implies (#[trigger] l.order@[k]) == entry
        || l.has_retained_to(l.order@[k] as int) by {
        let x = l.order@[k] as int;
        assert(l.order@[k] == t.finished@[f - 1 - k]);
        assert(t.finished@[f - 1 - k] < t.state.len());
        assert(t.state@[x] == DONE);
        if x != entry {
            assert(t.has_retained_to(core, x));
            let i = choose|i: int|
                0 <= i < t.class.len() && #[trigger] t.class@[i] == EdgeClass::Retained
                    && core.live@[i] && core.tgt@[i] == x;
            assert(place[i] < l.ends.live.len());
            assert(l.class@[place[i] as int] == EdgeClass::Retained);
        }
    }
    assert forall|e: int|
        0 <= e < l.class.len() && #[trigger] l.class@[e] == EdgeClass::Retained implies l.comes_before(
        l.ends.src@[e] as int,
        l.ends.tgt@[e] as int,
    ) by {
        lemma_spread_live(core, t.class@, l.ends, l.class@, place, e);
        let i = choose|i: int| 0 <= i < place.len() && place[i] == e;
        assert(place[i] == e);
        lemma_settled(t, core, i);
        let u = l.ends.src@[e] as int;
        let v = l.ends.tgt@[e] as int;
        let a = f - 1 - t.fin_at@[u];
        let b = f - 1 - t.fin_at@[v];
        assert(l.order@[a] == t.finished@[f - 1 - a]);
        assert(l.order@[b] == t.finished@[f - 1 - b]);
    }
    assert forall|e: int| 0 <= e < l.class.len() && l.ends.live@[e] implies (#[trigger] l.class@[e]
        == EdgeClass::Unreached <==> !l.reached(l.ends.src@[e] as int)) by {
        let i = choose|i: int| 0 <= i < place.len() && place[i] == e;
        assert(place[i] == e);
        lemma_settled(t, core, i);
        let a = l.ends.src@[e] as int;
        assert(t.state@[a] == DONE <==> exists|k: int| 0 <= k < l.order.len() && l.order@[k] == a);
    }
    assert forall|e: int|
        0 <= e < l.class.len() && (#[trigger] l.class@[e] == EdgeClass::Retained || l.class@[e]
            == EdgeClass::Back) implies l.reached(l.ends.tgt@[e] as int) by {
        lemma_spread_live(core, t.class@, l.ends, l.class@, place, e);
        let i = choose|i: int| 0 <= i < place.len() && place[i] == e;
        assert(place[i] == e);
        lemma_settled(t, core, i);
        let b = l.ends.tgt@[e] as int;
        assert(t.state@[b] == DONE <==> exists|k: int| 0 <= k < l.order.len() && l.order@[k] == b);
    }
}

/// An edge whose class is not that of an edge from a node to itself joins
/// two different nodes.
pub proof fn lemma_spread_live(
    core: Ends,
    inner: Seq<EdgeClass>,
    ends: Ends,
    class: Seq<EdgeClass>,
    place: Seq<usize>,
    e: int,
)
    requires
        spread_of(core, inner, ends, class, place),
        0 <= e < class.len(),
        class[e] != EdgeClass::SelfLoop,
    ensures
        ends.live@[e],
{
}

/// Breaks the cycles of the graph and gives every node its row.
///
/// The traversal starts at the first node flagged as entry and follows the
/// edges between two different nodes in the order in which the snapshot
/// lists them; edges from a node to itself take no part in it. This fails
/// with `NoEntryPoint` exactly if no node is flagged, and otherwise with
/// `NoEdgeFound` exactly if an edge between two different nodes names a node
/// that the snapshot does not hold.
pub fn level_graph(s: &GraphSnapshot) -> (r: Result<Leveling, GraphLayoutError>)
    ensures
        match r {
            Ok(l) => s.consistent() && l.levels(*s),
            Err(GraphLayoutError::NoEntryPoint) => s.entry_place() is None,
            Err(GraphLayoutError::NoEdgeFound) => s.entry_place() is Some && !s.consistent(),
        },
{
    let entry: usize = match s.entry() {
        Some(i) => i,
        None => {
            return Err(GraphLayoutError::NoEntryPoint);
        },
    };
    let ends: Ends = match resolve(s) {
        Ok(ends) => ends,
        Err(_) => {
            return Err(GraphLayoutError::NoEdgeFound);
        },
    };
    let (core, place) = live_only(s, &ends);
    let t: Traversal = Traversal::run(&core, s.nodes.len(), entry);
    let rows: Vec<usize> = assign_rows(&t, &core);
    let order: Vec<usize> = reverse_finish(&t, &core);
    let class: Vec<EdgeClass> = spread_classes(&t.class, &place, s.edges.len());
    let dag_edges: Vec<usize> = collect(&class, EdgeClass::Retained);
    let back_edges: Vec<usize> = collect(&class, EdgeClass::Back);
    let l = Leveling { ends, rows, class, order, dag_edges, back_edges };
    proof {
        assert(spread_of(core, t.class@, l.ends, l.class@, place@)) by {
            assert forall|e: int|
                0 <= e < l.ends.live.len() && !(#[trigger] l.ends.live@[e]) implies l.class@[e]
                == EdgeClass::SelfLoop by {
                assert forall|i: int| 0 <= i < place.len() implies place@[i] != e by {
                    assert(l.ends.live@[place@[i] as int]);
                }
            }
        }
        lemma_spread_rows(t, core, l.ends, l.class@, place@, l.rows@);
        lemma_spread_reach(t, core, l, place@, entry as int);
        let k = choose|k: nat|
            t.course() == course_after(
                course_start(s.nodes.len() as nat, core.live@, entry),
                core.src@,
                core.tgt@,
                core.live@,
                k,
            );
        assert(core.live@ =~= Seq::new(core.src@.len(), |i: int| true));
        assert(t.course() == course_of(*s, k));
        assert(l.pinned(*s, k));
    }
    Ok(l)
}

/// Picks for every node the first retained edge that leads to it from a
/// node exactly one row above.
///
/// A node has such an edge exactly if its row is not 0.
pub fn spanning_parents(l: &Leveling) -> (parents: Vec<Option<usize>>)
    requires
        l.shaped(),
    ensures
        parents.len() == l.rows.len(),
        forall|v: int|
            0 <= v < parents.len() ==> match #[trigger] parents@[v] {
                Some(e) => l.is_parent_edge(v, e as int) && forall|d: int|
                    0 <= d < e ==> !l.is_parent_edge(v, d),
                None => forall|d: int| 0 <= d < l.class.len() ==> !l.is_parent_edge(v, d),
            },
{
    let n: usize = l.rows.len();
    let mut parents: Vec<Option<usize>> = Vec::new();
    let mut x: usize = 0;
    while x < n
        invariant
            0 <= x <= n,
            parents.len() == x,
            forall|i: int| 0 <= i < x ==> #[trigger] parents@[i] is None,
        decreases n - x,
    {
        parents.push(None);
        x += 1;
    }
    let mut e: usize = 0;
    while e < l.class.len()
        invariant
            0 <= e <= l.class.len(),
            n == l.rows.len(),
            l.shaped(),
            parents.len() == n,
            forall|v: int|
                0 <= v < n ==> match #[trigger] parents@[v] {
                    Some(p) => p < e && l.is_parent_edge(v, p as int) && forall|d: int|
                        0 <= d < p ==> !l.is_parent_edge(v, d),
                    None => forall|d: int| 0 <= d < e ==> !l.is_parent_edge(v, d),
                },
        decreases l.class.len() - e,
    {
        if l.class[e] == EdgeClass::Retained {
            let u: usize = l.ends.src[e];
            let v: usize = l.ends.tgt[e];
            if l.rows[u] < usize::MAX && l.rows[u] + 1 == l.rows[v] && parents[v].is_none() {
                parents.set(v, Some(e));
            }
        }
        e += 1;
    }
    parents
}

/// Along a chain of retained edges the row rises by at least the length of
/// the chain.
pub proof fn lemma_chain_rises(l: Leveling, p: Seq<int>, from: int, to: int)
    requires
        l.shaped(),
        rows_rise(l.rows@, l.class@, l.ends),
        l.ends.is_chain(l.class@, p, from, to),
    ensures
        0 <= from < l.rows.len(),
        0 <= to < l.rows.len(),
        l.rows@[to] >= l.rows@[from] + p.len(),
    decreases p.len(),
{
    let last = p[p.len() - 1];
    assert(l.ends.live@[last]);
    assert(l.ends.live@[p[0]]);
    assert(l.class@[last] == EdgeClass::Retained);
    if p.len() > 1 {
        let q = p.drop_last();
        let mid = l.ends.src@[last] as int;
        assert(l.ends.is_chain(l.class@, q, from, mid)) by {
            assert forall|k: int| 0 <= k < q.len() implies 0 <= #[trigger] q[k] < l.ends.live.len()
                && l.ends.live@[q[k]] && l.class@[q[k]] == EdgeClass::Retained by {
                assert(q[k] == p[k]);
            }
            assert(q[0] == p[0]);
            assert(q[q.len() - 1] == p[p.len() - 2]);
            assert(l.ends.tgt@[p[p.len() - 2]] == l.ends.src@[p[p.len() - 2 + 1]]);
            assert forall|k: int| 0 <= k < q.len() - 1 implies l.ends.tgt@[#[trigger] q[k]]
                == l.ends.src@[q[k + 1]] by {
                assert(q[k] == p[k]);
                assert(q[k + 1] == p[k + 1]);
            }
        }
        lemma_chain_rises(l, q, from, mid);
    }
}

/// The retained edges form no cycle: no chain of them leads from a node
/// back to itself.
pub proof fn lemma_retained_acyclic(l: Leveling, p: Seq<int>, x: int)
    requires
        l.shaped(),
        rows_rise(l.rows@, l.class@, l.ends),
    ensures
        !l.ends.is_chain(l.class@, p, x, x),
{
    if l.ends.is_chain(l.class@, p, x, x) {
        lemma_chain_rises(l, p, x, x);
    }
}

/// `t` is `s` with one more edge at place `p`, which joins a node to
/// itself.
pub open spec fn with_loop_at(s: GraphSnapshot, t: GraphSnapshot, p: int) -> bool {
    &&& t.nodes@ == s.nodes@
    &&& 0 <= p <= s.edges@.len()
    &&& t.edges@.len() == s.edges@.len() + 1
    &&& t.edges@[p].source == t.edges@[p].target
    &&& forall|e: int| 0 <= e < p ==> #[trigger] t.edges@[e] == s.edges@[e]
    &&& forall|e: int| p <= e < s.edges@.len() ==> t.edges@[e + 1] == #[trigger] s.edges@[e]
}

/// Where an edge has moved to by an edge put in at place `p`.
pub open spec fn moved_by(e: usize, p: int) -> usize {
    if e < p {
        e
    } else {
        (e + 1) as usize
    }
}

/// An edge from a node to itself that is put among the edges leaves the
/// edges between two different nodes as they were, each with its ends and
/// in their order; only their places move.
pub proof fn lemma_loop_keeps_live(s: GraphSnapshot, t: GraphSnapshot, p: int, n: nat)
    requires
        with_loop_at(s, t, p),
        n <= s.edges@.len(),
    ensures
        n <= p ==> live_sources(t, n) == live_sources(s, n) && live_targets(t, n) == live_targets(
            s,
            n,
        ) && live_places(t, n) == live_places(s, n),
        n >= p ==> live_sources(t, n + 1) == live_sources(s, n) && live_targets(t, n + 1)
            == live_targets(s, n) && live_places(t, n + 1).len() == live_places(s, n).len()
            && forall|i: int|
            0 <= i < live_places(s, n).len() ==> live_places(t, n + 1)[i] == moved_by(
                #[trigger] live_places(s, n)[i],
                p,
            ),
        forall|i: int| 0 <= i < live_places(s, n).len() ==> #[trigger] live_places(s, n)[i] < n,
    decreases n,
{
    assert(s.edges@.len() == s.edges.len());
    assert(t.edges@.len() == t.edges.len());
    if n > 0 {
        lemma_loop_keeps_live(s, t, p, (n - 1) as nat);
        let e = n - 1;
        if n <= p {
            assert(t.edges@[e] == s.edges@[e]);
            assert(t.is_live(e) == s.is_live(e));
        } else {
            assert(t.edges@[e + 1] == s.edges@[e]);
            assert(t.is_live(e + 1) == s.is_live(e));
            if s.is_live(e) {
                let old_t = live_places(t, n as nat);
                let old_s = live_places(s, (n - 1) as nat);
                assert forall|i: int|
                    0 <= i < live_places(s, n).len() implies live_places(t, n + 1)[i] == moved_by(
                    #[trigger] live_places(s, n)[i],
                    p,
                ) by {
                    if i < old_s.len() {
                        assert(live_places(s, n)[i] == old_s[i]);
                        assert(live_places(t, n + 1)[i] == old_t[i]);
                    }
                }
            }
        }
    }
    if n == p {
        assert(!t.is_live(p));
        assert(live_places(t, (p + 1) as nat) == live_places(t, p as nat));
        assert(live_sources(t, (p + 1) as nat) == live_sources(t, p as nat));
        assert(live_targets(t, (p + 1) as nat) == live_targets(t, p as nat));
    }
}

/// Every edge between two different nodes has its place among the places
/// of those edges.
pub proof fn lemma_live_places_complete(s: GraphSnapshot, n: nat, e: int)
    requires
        n <= s.edges@.len(),
        0 <= e < n,
        s.is_live(e),
    ensures
        exists|i: int| 0 <= i < live_places(s, n).len() && live_places(s, n)[i] == e,
    decreases n,
{
    if e == n - 1 {
        let all = live_places(s, n);
        assert(all[all.len() - 1] == e);
    } else {
        lemma_live_places_complete(s, (n - 1) as nat, e);
        let front = live_places(s, (n - 1) as nat);
        let i = choose|i: int| 0 <= i < front.len() && front[i] == e;
        assert(live_places(s, n)[i] == e);
    }
}

/// Every retained edge of the one leveling joins the nodes that a retained
/// edge of the other joins.
pub open spec fn retained_within(a: Leveling, b: Leveling) -> bool {
    forall|e: int|
        0 <= e < a.class.len() && #[trigger] a.class@[e] == EdgeClass::Retained ==> exists|f: int|
            0 <= f < b.class.len() && #[trigger] b.class@[f] == EdgeClass::Retained
                && b.ends.src@[f] == a.ends.src@[e] && b.ends.tgt@[f] == a.ends.tgt@[e]
}

/// Rows that are tight are not above rows that rise along the same retained
/// edges.
pub proof fn lemma_rows_not_above(a: Leveling, b: Leveling, v: int)
    requires
        a.shaped(),
        rows_tight(a.rows@, a.class@, a.ends),
        rows_rise(b.rows@, b.class@, b.ends),
        a.rows.len() == b.rows.len(),
        retained_within(a, b),
        0 <= v < a.rows.len(),
    ensures
        a.rows@[v] <= b.rows@[v],
    decreases a.rows@[v],
{
    if a.rows@[v] != 0 {
        let e = choose|e: int| row_witness(a.rows@, a.class@, a.ends, v, e);
        assert(a.class@[e] == EdgeClass::Retained);
        assert(a.ends.live@[e]);
        let u = a.ends.src@[e] as int;
        lemma_rows_not_above(a, b, u);
        let f = choose|f: int|
            0 <= f < b.class.len() && #[trigger] b.class@[f] == EdgeClass::Retained
                && b.ends.src@[f] == a.ends.src@[e] && b.ends.tgt@[f] == a.ends.tgt@[e];
        assert(b.rows@[b.ends.tgt@[f] as int] >= b.rows@[b.ends.src@[f] as int] + 1);
    }
}

/// An edge from a node to itself changes nothing: where it is put among
/// the edges of a graph, the nodes come in the same order and in the same
/// rows, and every other edge has the class it had.
pub proof fn lemma_loop_changes_nothing(
    s: GraphSnapshot,
    t: GraphSnapshot,
    p: int,
    l: Leveling,
    m: Leveling,
)
    requires
        with_loop_at(s, t, p),
        l.levels(s),
        m.levels(t),
    ensures
        m.order@ == l.order@,
        m.rows@ == l.rows@,
        m.class@[p] == EdgeClass::SelfLoop,
        forall|e: int|
            0 <= e < s.edges@.len() ==> m.class@[moved_by(e as usize, p) as int]
                == #[trigger] l.class@[e],
{
    let n = s.edges@.len();
    assert(s.edges@.len() == s.edges.len());
    assert(t.edges@.len() == t.edges.len());
    lemma_loop_keeps_live(s, t, p, n);
    let a = choose|k: nat| l.pinned(s, k);
    let b = choose|k: nat| m.pinned(t, k);
    let src = live_sources(s, n);
    let tgt = live_targets(s, n);
    let live = Seq::new(src.len(), |i: int| true);
    let first = course_start(s.nodes@.len(), live, s.entry_place()->0 as usize);
    assert(course_of(t, b) == course_after(first, src, tgt, live, b));
    lemma_course_settles(first, src, tgt, live, a, b);
    let course = course_of(s, a);
    assert(course_of(t, b) == course);
    assert(m.order@ =~= l.order@);
    assert(!t.is_live(p));
    assert(!m.ends.live@[p]);
    assert forall|e: int| 0 <= e < n implies m.class@[moved_by(e as usize, p) as int]
        == #[trigger] l.class@[e] by {
        let f = moved_by(e as usize, p) as int;
        if e < p {
            assert(t.edges@[e] == s.edges@[e]);
        } else {
            assert(t.edges@[e + 1] == s.edges@[e]);
        }
        assert(t.is_live(f) == s.is_live(e));
        assert(l.ends.live@[e] == s.is_live(e));
        assert(m.ends.live@[f] == t.is_live(f));
        if s.is_live(e) {
            lemma_live_places_complete(s, n, e);
            let i = choose|i: int|
                0 <= i < live_places(s, n).len() && live_places(s, n)[i] == e;
            assert(live_places(t, n + 1)[i] == moved_by(live_places(s, n)[i], p));
            assert(l.class@[live_places(s, n)[i] as int] == course.class[i]);
            assert(m.class@[live_places(t, n + 1)[i] as int] == course.class[i]);
        } else {
            assert(l.class@[e] == EdgeClass::SelfLoop);
            assert(m.class@[f] == EdgeClass::SelfLoop);
        }
    }
    assert forall|e: int| 0 <= e < n implies m.ends.live@[moved_by(e as usize, p) as int]
        == #[trigger] l.ends.live@[e] && (l.ends.live@[e] ==> m.ends.src@[moved_by(
        e as usize,
        p,
    ) as int] == l.ends.src@[e] && m.ends.tgt@[moved_by(e as usize, p) as int] == l.ends.tgt@[e]) by {
        let f = moved_by(e as usize, p) as int;
        if e < p {
            assert(t.edges@[e] == s.edges@[e]);
        } else {
            assert(t.edges@[e + 1] == s.edges@[e]);
        }
        assert(t.is_live(f) == s.is_live(e));
        assert(l.ends.live@[e] == s.is_live(e));
        assert(m.ends.live@[f] == t.is_live(f));
    }
    assert(retained_within(l, m)) by {
        assert forall|e: int|
            0 <= e < l.class.len() && #[trigger] l.class@[e] == EdgeClass::Retained implies exists|
            f: int,
        |
            0 <= f < m.class.len() && #[trigger] m.class@[f] == EdgeClass::Retained
                && m.ends.src@[f] == l.ends.src@[e] && m.ends.tgt@[f] == l.ends.tgt@[e] by {
            let f = moved_by(e as usize, p) as int;
            assert(l.ends.live@[e]);
            assert(m.class@[f] == EdgeClass::Retained);
        }
    }
    assert(retained_within(m, l)) by {
        assert forall|f: int|
            0 <= f < m.class.len() && #[trigger] m.class@[f] == EdgeClass::Retained implies exists|
            e: int,
        |
            0 <= e < l.class.len() && #[trigger] l.class@[e] == EdgeClass::Retained
                && l.ends.src@[e] == m.ends.src@[f] && l.ends.tgt@[e] == m.ends.tgt@[f] by {
            let e = if f < p {
                f
            } else {
                f - 1
            };
            assert(f != p);
            assert(moved_by(e as usize, p) == f);
            assert(m.class@[moved_by(e as usize, p) as int] == l.class@[e]);
            assert(l.ends.live@[e]);
        }
    }
    assert forall|v: int| 0 <= v < l.rows.len() implies m.rows@[v] == l.rows@[v] by {
        lemma_rows_not_above(l, m, v);
        lemma_rows_not_above(m, l, v);
    }
    assert(m.rows@ =~= l.rows@);
}

} // verus!
